//! Distinct allocations holding the same bytes.
//!
//! The one disk question an allocation's identity cannot answer. A symlink and
//! its target are one allocation and counted once already; two separate
//! downloads of one file are two allocations, two counts, and twice the disk.
//! This reports and never moves.
use vstd::prelude::*;

use crate::inventory::artifact::{Artifact, ArtifactId, FileKey, Store};
use crate::inventory::graph::keys_of;
use crate::inventory::scan::has_key;
use crate::inventory::Inventory;
use crate::seqs::{
    first_match, lemma_filter_take, lemma_first_index_is, lemma_sort_map, lemma_total_take,
    sort_with, stable_sort, total,
};
use crate::text::same;

verus! {

/// Read from each end of a candidate. Whole files are not read: the pairs worth
/// finding are 5 to 18 GB.
pub const SAMPLE_BYTES: u64 = 4194304;

/// Below this a match is noise rather than news: every repo carries an
/// identical `tokenizer_config.json`, and thousands of 4 KB twins bury the
/// 9 GB pair that matters. Above it, anything in a model store is weights.
pub const MIN_BYTES: u64 = 67108864;

#[derive(Debug)]
pub struct DuplicateMember {
    pub id: ArtifactId,
    pub path: String,
    pub store: Store,
}

#[derive(Debug)]
pub struct DuplicateGroup {
    /// Size of one copy.
    pub bytes: u64,
    /// What keeping one and linking the rest would free.
    pub reclaimable_bytes: u64,
    pub members: Vec<DuplicateMember>,
    /// What the match rests on. Never the word "identical" unless the whole
    /// file was read.
    pub basis: String,
}

/// What is read of a file to compare it.
#[derive(Debug, Clone, Copy, PartialEq, Eq, Structural)]
pub enum Extent {
    Whole,
    /// So many bytes from the start, and as many from the end.
    Ends { each: u64 },
}

/// The first and last bytes, or the whole file when the two would overlap.
pub open spec fn extent_of(bytes: u64) -> Extent {
    if bytes <= SAMPLE_BYTES * 2 {
        Extent::Whole
    } else {
        Extent::Ends { each: SAMPLE_BYTES }
    }
}

/// What is read of a file of a size.
pub fn extent(bytes: u64) -> (e: Extent)
    ensures
        e == extent_of(bytes),
{
    if bytes <= SAMPLE_BYTES * 2 {
        Extent::Whole
    } else {
        Extent::Ends { each: SAMPLE_BYTES }
    }
}

/// What a match of a size rests on.
pub open spec fn basis_of(bytes: u64) -> Seq<char> {
    match extent_of(bytes) {
        Extent::Whole => "equal size and full content"@,
        Extent::Ends { .. } => "equal size and the first and last 4.0M"@,
    }
}

fn basis_for(bytes: u64) -> (s: String)
    ensures
        s@ == basis_of(bytes),
{
    match extent(bytes) {
        Extent::Whole => "equal size and full content".to_owned(),
        Extent::Ends { .. } => "equal size and the first and last 4.0M".to_owned(),
    }
}

/// Whether an artifact is a file worth comparing.
pub open spec fn comparable(a: Artifact, min_bytes: u64) -> bool {
    !a.is_link && a.bytes >= min_bytes && a.key is Some
}

/// The first path to each allocation.
pub open spec fn firsts(s: Seq<Artifact>) -> Seq<Artifact>
    decreases s.len(),
{
    if s.len() == 0 {
        s
    } else {
        let before = firsts(s.drop_last());
        match s.last().key {
            Some(k) => if keys_of(s.drop_last()).contains(k) {
                before
            } else {
                before.push(s.last())
            },
            None => before,
        }
    }
}

/// One entry per allocation: an alias is not a duplicate, it is the same bytes
/// reached twice.
pub open spec fn candidates_of(artifacts: Seq<Artifact>, min_bytes: u64) -> Seq<Artifact> {
    firsts(artifacts.filter(|a: Artifact| comparable(a, min_bytes)))
}

/// The sizes of artifacts, each once, in the order first seen.
pub open spec fn sizes_of(s: Seq<Artifact>) -> Seq<u64>
    decreases s.len(),
{
    if s.len() == 0 {
        Seq::empty()
    } else {
        let before = sizes_of(s.drop_last());
        if before.contains(s.last().bytes) {
            before
        } else {
            before.push(s.last().bytes)
        }
    }
}

/// The sizes in ascending order.
pub open spec fn ascending_sizes(s: Seq<Artifact>) -> Seq<u64> {
    stable_sort(sizes_of(s), |a: u64, b: u64| a <= b)
}

/// Whether a sample is of an artifact.
pub open spec fn is_of(e: (ArtifactId, Vec<u8>), id: Seq<char>) -> bool {
    e.0@ == id
}

/// What was read of an artifact, where anything was.
pub open spec fn sample_of(samples: Seq<(ArtifactId, Vec<u8>)>, id: Seq<char>) -> Option<Seq<u8>> {
    match first_match(samples, |e: (ArtifactId, Vec<u8>)| is_of(e, id)) {
        Some(e) => Some(e.1@),
        None => None,
    }
}

/// What was read of artifacts of a size, each content once, in the order first
/// seen. What could not be read is left out.
pub open spec fn contents_at(
    s: Seq<Artifact>,
    samples: Seq<(ArtifactId, Vec<u8>)>,
    size: u64,
) -> Seq<Seq<u8>>
    decreases s.len(),
{
    if s.len() == 0 {
        Seq::empty()
    } else {
        let before = contents_at(s.drop_last(), samples, size);
        match sample_of(samples, s.last().id@) {
            Some(c) => if s.last().bytes != size || before.contains(c) {
                before
            } else {
                before.push(c)
            },
            None => before,
        }
    }
}

/// Whether an artifact is of a size and a content.
pub open spec fn is_copy(
    a: Artifact,
    samples: Seq<(ArtifactId, Vec<u8>)>,
    size: u64,
    content: Seq<u8>,
) -> bool {
    a.bytes == size && sample_of(samples, a.id@) == Some(content)
}

/// The artifacts of a size and a content.
pub open spec fn copies(
    s: Seq<Artifact>,
    samples: Seq<(ArtifactId, Vec<u8>)>,
    size: u64,
    content: Seq<u8>,
) -> Seq<Artifact> {
    s.filter(|a: Artifact| is_copy(a, samples, size, content))
}

/// A group of duplicates, in texts.
#[verifier::ext_equal]
pub struct Twins {
    pub bytes: u64,
    pub reclaimable: int,
    pub members: Seq<DuplicateMember>,
    pub basis: Seq<char>,
}

pub open spec fn twins(g: DuplicateGroup) -> Twins {
    Twins {
        bytes: g.bytes,
        reclaimable: g.reclaimable_bytes as int,
        members: g.members@,
        basis: g.basis@,
    }
}

pub open spec fn all_twins(v: Seq<DuplicateGroup>) -> Seq<Twins> {
    v.map_values(|g: DuplicateGroup| twins(g))
}

pub open spec fn member_of(a: Artifact) -> DuplicateMember {
    DuplicateMember { id: a.id, path: a.path, store: a.store }
}

/// The group that copies make: keeping one and linking the rest would free
/// `(n - 1) * bytes`.
pub open spec fn group_of(size: u64, same: Seq<Artifact>) -> Option<Twins> {
    if same.len() < 2 {
        None
    } else {
        Some(
            Twins {
                bytes: size,
                reclaimable: size * (same.len() - 1),
                members: same.map_values(|a: Artifact| member_of(a)),
                basis: basis_of(size),
            },
        )
    }
}

/// The groups of one size.
pub open spec fn groups_at(
    s: Seq<Artifact>,
    samples: Seq<(ArtifactId, Vec<u8>)>,
    size: u64,
) -> Seq<Twins> {
    contents_at(s, samples, size).filter_map(
        |c: Seq<u8>| group_of(size, copies(s, samples, size, c)),
    )
}

/// The groups of every size of a list.
pub open spec fn groups_over(
    s: Seq<Artifact>,
    samples: Seq<(ArtifactId, Vec<u8>)>,
    sizes: Seq<u64>,
) -> Seq<Twins>
    decreases sizes.len(),
{
    if sizes.len() == 0 {
        Seq::empty()
    } else {
        groups_over(s, samples, sizes.drop_last()) + groups_at(s, samples, sizes.last())
    }
}

/// Every group of duplicates, what frees most first.
pub open spec fn duplicates_of(
    artifacts: Seq<Artifact>,
    min_bytes: u64,
    samples: Seq<(ArtifactId, Vec<u8>)>,
) -> Seq<Twins> {
    let c = candidates_of(artifacts, min_bytes);
    stable_sort(
        groups_over(c, samples, ascending_sizes(c)),
        |a: Twins, b: Twins| a.reclaimable >= b.reclaimable,
    )
}

/// Every group frees a number of bytes that 64 bits can hold.
pub open spec fn countable(groups: Seq<Twins>) -> bool {
    forall|i: int| 0 <= i < groups.len() ==> (#[trigger] groups[i]).reclaimable <= u64::MAX
}

/// One entry per allocation worth comparing: what has to be read to find
/// duplicates.
pub fn candidates(inv: &Inventory, min_bytes: u64) -> (r: Vec<Artifact>)
    ensures
        r@ == candidates_of(inv.artifacts@, min_bytes),
{
    let ghost p = |a: Artifact| comparable(a, min_bytes);
    let ghost files = inv.artifacts@;
    let mut seen: Vec<FileKey> = Vec::new();
    let mut out: Vec<Artifact> = Vec::new();
    let mut i: usize = 0;
    proof {
        assert(files.take(0).filter(p) =~= Seq::empty());
    }
    while i < inv.artifacts.len()
        invariant
            i <= files.len(),
            files == inv.artifacts@,
            p == (|a: Artifact| comparable(a, min_bytes)),
            seen@ == keys_of(files.take(i as int).filter(p)),
            out@ == firsts(files.take(i as int).filter(p)),
        decreases files.len() - i,
    {
        let a = &inv.artifacts[i];
        proof {
            lemma_filter_take(files, p, i as int);
            let kept = files.take(i as int).filter(p);
            assert(kept.push(*a).drop_last() =~= kept);
        }
        if !a.is_link && a.bytes >= min_bytes {
            if let Some(k) = a.key {
                if !has_key(&seen, k) {
                    seen.push(k);
                    out.push(a.clone());
                }
            }
        }
        i += 1;
    }
    proof {
        assert(files.take(i as int) =~= files);
    }
    out
}

fn has_size(sizes: &Vec<u64>, n: u64) -> (r: bool)
    ensures
        r == sizes@.contains(n),
{
    let mut i: usize = 0;
    while i < sizes.len()
        invariant
            i <= sizes@.len(),
            forall|k: int| 0 <= k < i ==> #[trigger] sizes@[k] != n,
        decreases sizes.len() - i,
    {
        if sizes[i] == n {
            return true;
        }
        i += 1;
    }
    false
}

fn same_bytes(a: &Vec<u8>, b: &Vec<u8>) -> (r: bool)
    ensures
        r == (a@ == b@),
{
    if a.len() != b.len() {
        return false;
    }
    let mut i: usize = 0;
    while i < a.len()
        invariant
            i <= a@.len(),
            a@.len() == b@.len(),
            forall|k: int| 0 <= k < i ==> #[trigger] a@[k] == b@[k],
        decreases a.len() - i,
    {
        if a[i] != b[i] {
            return false;
        }
        i += 1;
    }
    proof {
        assert(a@ =~= b@);
    }
    true
}

fn sampled<'a>(samples: &'a [(ArtifactId, Vec<u8>)], id: &str) -> (r: Option<&'a Vec<u8>>)
    ensures
        match r {
            Some(v) => sample_of(samples@, id@) == Some(v@),
            None => sample_of(samples@, id@) is None,
        },
{
    let ghost p = |e: (ArtifactId, Vec<u8>)| is_of(e, id@);
    let mut i: usize = 0;
    while i < samples.len()
        invariant
            i <= samples@.len(),
            p == (|e: (ArtifactId, Vec<u8>)| is_of(e, id@)),
            forall|k: int| 0 <= k < i ==> !p(#[trigger] samples@[k]),
        decreases samples.len() - i,
    {
        if same(samples[i].0.as_str(), id) {
            proof {
                lemma_first_index_is(samples@, p, i as int);
            }
            return Some(&samples[i].1);
        }
        i += 1;
    }
    proof {
        lemma_first_index_is(samples@, p, i as int);
    }
    None
}

/// The contents, seen as sequences.
pub open spec fn bodies(v: Seq<&Vec<u8>>) -> Seq<Seq<u8>> {
    v.map_values(|b: &Vec<u8>| b@)
}

/// The groups of one size.
fn groups_of_size(cands: &Vec<Artifact>, samples: &[(ArtifactId, Vec<u8>)], size: u64) -> (r:
    Vec<DuplicateGroup>)
    requires
        countable(groups_at(cands@, samples@, size)),
    ensures
        all_twins(r@) == groups_at(cands@, samples@, size),
{
    let mut contents: Vec<&Vec<u8>> = Vec::new();
    let mut i: usize = 0;
    proof {
        assert(bodies(contents@) =~= contents_at(cands@.take(0), samples@, size));
    }
    while i < cands.len()
        invariant
            i <= cands@.len(),
            bodies(contents@) == contents_at(cands@.take(i as int), samples@, size),
        decreases cands.len() - i,
    {
        proof {
            assert(cands@.take(i + 1).drop_last() =~= cands@.take(i as int));
        }
        if let Some(c) = sampled(samples, cands[i].id.as_str()) {
            let mut known = false;
            let mut k: usize = 0;
            while k < contents.len() && !known
                invariant
                    k <= contents@.len(),
                    known ==> bodies(contents@).contains(c@),
                    !known ==> forall|j: int| 0 <= j < k ==> #[trigger] bodies(contents@)[j] != c@,
                decreases contents.len() - k + (if known {
                    0int
                } else {
                    1
                }),
            {
                if same_bytes(contents[k], c) {
                    proof {
                        assert(bodies(contents@)[k as int] == c@);
                    }
                    known = true;
                } else {
                    k += 1;
                }
            }
            proof {
                if !known && bodies(contents@).contains(c@) {
                    let j = bodies(contents@).index_of(c@);
                    assert(bodies(contents@)[j] == c@);
                }
            }
            if cands[i].bytes == size && !known {
                let ghost was = contents@;
                contents.push(c);
                proof {
                    assert(bodies(contents@) =~= bodies(was).push(c@));
                }
            }
        }
        i += 1;
    }
    proof {
        assert(cands@.take(i as int) =~= cands@);
    }
    let ghost all = contents_at(cands@, samples@, size);
    let ghost f = |c: Seq<u8>| group_of(size, copies(cands@, samples@, size, c));
    let mut out: Vec<DuplicateGroup> = Vec::new();
    let mut n: usize = 0;
    proof {
        assert(all.take(0).filter_map(f) =~= Seq::empty());
        assert(all_twins(out@) =~= Seq::empty());
    }
    while n < contents.len()
        invariant
            n <= contents@.len(),
            bodies(contents@) == all,
            all == contents_at(cands@, samples@, size),
            f == (|c: Seq<u8>| group_of(size, copies(cands@, samples@, size, c))),
            countable(all.filter_map(f)),
            all_twins(out@) == all.take(n as int).filter_map(f),
        decreases contents.len() - n,
    {
        let c = contents[n];
        let ghost body = c@;
        let ghost p = |a: Artifact| is_copy(a, samples@, size, body);
        proof {
            all.lemma_filter_map_take_succ(f, n as int);
            assert(all[n as int] == body);
        }
        let mut members: Vec<DuplicateMember> = Vec::new();
        let mut count: u64 = 0;
        let mut k: usize = 0;
        proof {
            assert(cands@.take(0).filter(p).map_values(|a: Artifact| member_of(a)) =~= Seq::empty());
        }
        while k < cands.len()
            invariant
                k <= cands@.len(),
                body == c@,
                p == (|a: Artifact| is_copy(a, samples@, size, body)),
                members@ == cands@.take(k as int).filter(p).map_values(|a: Artifact| member_of(a)),
            decreases cands.len() - k,
        {
            proof {
                lemma_filter_take(cands@, p, k as int);
            }
            let a = &cands[k];
            let copy = a.bytes == size && match sampled(samples, a.id.as_str()) {
                Some(s) => same_bytes(s, c),
                None => false,
            };
            if copy {
                members.push(
                    DuplicateMember { id: a.id.clone(), path: a.path.clone(), store: a.store },
                );
            }
            proof {
                assert(members@ =~= cands@.take(k + 1).filter(p).map_values(
                    |a: Artifact| member_of(a),
                ));
            }
            k += 1;
        }
        proof {
            assert(cands@.take(k as int) =~= cands@);
        }
        let ghost was = out@;
        if members.len() >= 2 {
            let rest: u64 = (members.len() - 1) as u64;
            let ghost g = f(body)->0;
            proof {
                crate::seqs::lemma_filter_map_members(all, f);
                assert(f(all[n as int]) is Some);
                let at = all.filter_map(f).index_of(g);
                assert(all.filter_map(f)[at].reclaimable <= u64::MAX);
                assert(g.reclaimable == size * (members@.len() - 1));
            }
            let group = DuplicateGroup {
                bytes: size,
                reclaimable_bytes: size * rest,
                members,
                basis: basis_for(size),
            };
            proof {
                assert(twins(group) =~= g);
            }
            out.push(group);
            proof {
                assert(all_twins(out@) =~= all_twins(was).push(g));
            }
        }
        proof {
            assert(all_twins(out@) =~= all.take(n + 1).filter_map(f));
        }
        n += 1;
    }
    proof {
        assert(all.take(n as int) =~= all);
    }
    out
}

/// What is found for more sizes is found for fewer.
proof fn lemma_groups_over(
    s: Seq<Artifact>,
    samples: Seq<(ArtifactId, Vec<u8>)>,
    sizes: Seq<u64>,
    n: int,
)
    requires
        0 <= n < sizes.len(),
        countable(groups_over(s, samples, sizes)),
    ensures
        countable(groups_at(s, samples, sizes[n])),
    decreases sizes.len(),
{
    let all = groups_over(s, samples, sizes);
    let front = groups_over(s, samples, sizes.drop_last());
    let tail = groups_at(s, samples, sizes.last());
    if n == sizes.len() - 1 {
        assert forall|i: int| 0 <= i < tail.len() implies (#[trigger] tail[i]).reclaimable
            <= u64::MAX by {
            assert(all[front.len() + i] == tail[i]);
        }
    } else {
        assert forall|i: int| 0 <= i < front.len() implies (#[trigger] front[i]).reclaimable
            <= u64::MAX by {
            assert(all[i] == front[i]);
        }
        lemma_groups_over(s, samples, sizes.drop_last(), n);
    }
}

/// Every group of duplicates of at least a size, given what was read of the
/// candidates: what is missing could not be read, and matches nothing.
///
/// Equal size is a candidate and not an answer: same architecture, same
/// quantisation, same tensor sizes, different weights. What was read is what
/// separates them.
pub fn duplicates_above(
    inv: &Inventory,
    min_bytes: u64,
    samples: &[(ArtifactId, Vec<u8>)],
) -> (r: Vec<DuplicateGroup>)
    requires
        countable(
            groups_over(
                candidates_of(inv.artifacts@, min_bytes),
                samples@,
                ascending_sizes(candidates_of(inv.artifacts@, min_bytes)),
            ),
        ),
    ensures
        all_twins(r@) == duplicates_of(inv.artifacts@, min_bytes, samples@),
{
    let cands = candidates(inv, min_bytes);
    let mut sizes: Vec<u64> = Vec::new();
    let mut i: usize = 0;
    while i < cands.len()
        invariant
            i <= cands@.len(),
            sizes@ == sizes_of(cands@.take(i as int)),
        decreases cands.len() - i,
    {
        proof {
            assert(cands@.take(i + 1).drop_last() =~= cands@.take(i as int));
        }
        if !has_size(&sizes, cands[i].bytes) {
            sizes.push(cands[i].bytes);
        }
        i += 1;
    }
    proof {
        assert(cands@.take(i as int) =~= cands@);
    }
    let le = |a: &u64, b: &u64| -> (r: bool)
        ensures
            r == (*a <= *b),
        {
            *a <= *b
        };
    let sizes = sort_with(sizes, le, Ghost(|a: u64, b: u64| a <= b));
    let mut out: Vec<DuplicateGroup> = Vec::new();
    let mut n: usize = 0;
    proof {
        assert(all_twins(out@) =~= groups_over(cands@, samples@, sizes@.take(0)));
    }
    while n < sizes.len()
        invariant
            n <= sizes@.len(),
            countable(groups_over(cands@, samples@, sizes@)),
            all_twins(out@) == groups_over(cands@, samples@, sizes@.take(n as int)),
        decreases sizes.len() - n,
    {
        proof {
            lemma_groups_over(cands@, samples@, sizes@, n as int);
            assert(sizes@.take(n + 1).drop_last() =~= sizes@.take(n as int));
        }
        let mut more = groups_of_size(&cands, samples, sizes[n]);
        let ghost was = out@;
        let ghost added = more@;
        out.append(&mut more);
        proof {
            assert(all_twins(out@) =~= all_twins(was) + all_twins(added));
        }
        n += 1;
    }
    proof {
        assert(sizes@.take(n as int) =~= sizes@);
    }
    let by_gain = |a: &DuplicateGroup, b: &DuplicateGroup| -> (r: bool)
        ensures
            r == (twins(*a).reclaimable >= twins(*b).reclaimable),
        {
            a.reclaimable_bytes >= b.reclaimable_bytes
        };
    let ghost gain = |a: DuplicateGroup, b: DuplicateGroup|
        twins(a).reclaimable >= twins(b).reclaimable;
    let ghost view = |g: DuplicateGroup| twins(g);
    let ghost loose = out@;
    let out = sort_with(out, by_gain, Ghost(gain));
    proof {
        lemma_sort_map(loose, view, gain, |a: Twins, b: Twins| a.reclaimable >= b.reclaimable);
        assert(loose.map_values(view) =~= all_twins(loose));
        assert(out@.map_values(view) =~= all_twins(out@));
    }
    out
}

/// Every group of duplicates worth naming.
pub fn duplicates(inv: &Inventory, samples: &[(ArtifactId, Vec<u8>)]) -> (r: Vec<DuplicateGroup>)
    requires
        countable(
            groups_over(
                candidates_of(inv.artifacts@, MIN_BYTES),
                samples@,
                ascending_sizes(candidates_of(inv.artifacts@, MIN_BYTES)),
            ),
        ),
    ensures
        all_twins(r@) == duplicates_of(inv.artifacts@, MIN_BYTES, samples@),
{
    duplicates_above(inv, MIN_BYTES, samples)
}

/// What every group frees together.
pub open spec fn reclaimable(groups: Seq<DuplicateGroup>) -> nat {
    total(groups, |g: DuplicateGroup| g.reclaimable_bytes as nat)
}

pub fn reclaimable_bytes(groups: &[DuplicateGroup]) -> (n: u64)
    requires
        reclaimable(groups@) <= u64::MAX,
    ensures
        n == reclaimable(groups@),
{
    let ghost f = |g: DuplicateGroup| g.reclaimable_bytes as nat;
    let mut n: u64 = 0;
    let mut i: usize = 0;
    while i < groups.len()
        invariant
            i <= groups@.len(),
            f == (|g: DuplicateGroup| g.reclaimable_bytes as nat),
            total(groups@, f) <= u64::MAX,
            n == total(groups@.take(i as int), f),
        decreases groups.len() - i,
    {
        proof {
            lemma_total_take(groups@, f, i as int);
        }
        n = n + groups[i].reclaimable_bytes;
        i += 1;
    }
    proof {
        assert(groups@.take(i as int) =~= groups@);
    }
    n
}

proof fn lemma_firsts(s: Seq<Artifact>)
    ensures
        forall|i: int| 0 <= i < firsts(s).len() ==> (#[trigger] firsts(s)[i]).key is Some,
        forall|i: int|
            0 <= i < firsts(s).len() ==> keys_of(s).contains((#[trigger] firsts(s)[i]).key->0),
        forall|i: int, j: int|
            0 <= i < j < firsts(s).len() ==> (#[trigger] firsts(s)[i]).key != (
            #[trigger] firsts(s)[j]).key,
    decreases s.len(),
{
    if s.len() > 0 {
        let t = s.drop_last();
        lemma_firsts(t);
        crate::inventory::graph::lemma_keys_of(s);
        let before = firsts(t);
        let keys = keys_of(t);
        let all = keys_of(s);
        assert forall|k: FileKey| keys.contains(k) implies #[trigger] all.contains(k) by {
            let x = keys.index_of(k);
            assert(all[x] == k);
        }
        assert forall|i: int| 0 <= i < firsts(s).len() implies all.contains(
            (#[trigger] firsts(s)[i]).key->0,
        ) by {
            if i < before.len() {
                assert(keys.contains(before[i].key->0));
            } else {
                assert(s[s.len() - 1].key is Some);
            }
        }
        assert forall|i: int, j: int| 0 <= i < j < firsts(s).len() implies (
        #[trigger] firsts(s)[i]).key != (#[trigger] firsts(s)[j]).key by {
            if j == before.len() {
                assert(keys.contains(before[i].key->0));
            }
        }
    }
}

/// An alias is not a duplicate: no two candidates share an allocation.
pub proof fn candidates_are_distinct_allocations(artifacts: Seq<Artifact>, min_bytes: u64)
    ensures
        forall|i: int, j: int|
            #![trigger candidates_of(artifacts, min_bytes)[i], candidates_of(artifacts, min_bytes)[j]]
            0 <= i < j < candidates_of(artifacts, min_bytes).len() ==> candidates_of(
                artifacts,
                min_bytes,
            )[i].key != candidates_of(artifacts, min_bytes)[j].key,
{
    lemma_firsts(artifacts.filter(|a: Artifact| comparable(a, min_bytes)));
}

/// Which of some artifacts are the first to reach their allocation.
proof fn lemma_firsts_are(s: Seq<Artifact>, a: Artifact)
    ensures
        firsts(s).contains(a) <==> exists|i: int| #[trigger] reaches_first(s, i) && s[i] == a,
    decreases s.len(),
{
    if s.len() > 0 {
        let t = s.drop_last();
        let last = s.len() - 1;
        lemma_firsts_are(t, a);
        crate::inventory::graph::lemma_keys_of(t);
        let before = firsts(t);
        assert forall|i: int| 0 <= i < t.len() implies (#[trigger] reaches_first(s, i)
            <==> reaches_first(t, i)) by {
            assert(s[i] == t[i]);
            if reaches_first(s, i) {
                assert forall|j: int| 0 <= j < i implies (#[trigger] t[j]).key != t[i].key by {
                    assert(s[j] == t[j]);
                }
            }
            if reaches_first(t, i) {
                assert forall|j: int| 0 <= j < i implies (#[trigger] s[j]).key != s[i].key by {
                    assert(s[j] == t[j]);
                }
            }
        }
        assert(reaches_first(s, last) <==> s.last().key is Some && !keys_of(t).contains(
            s.last().key->0,
        )) by {
            if s.last().key is Some {
                let k = s.last().key->0;
                if keys_of(t).contains(k) {
                    let j = choose|j: int|
                        0 <= j < t.len() && #[trigger] crate::inventory::graph::reaches(t[j], k);
                    assert(s[j].key == s[last].key);
                } else {
                    assert forall|j: int| 0 <= j < last implies (#[trigger] s[j]).key
                        != s[last].key by {
                        assert(t[j] == s[j]);
                    }
                }
            }
        }
        if firsts(s).contains(a) {
            let x = firsts(s).index_of(a);
            if x < before.len() {
                assert(before[x] == a);
                let i = choose|i: int| #[trigger] reaches_first(t, i) && t[i] == a;
                assert(reaches_first(s, i) && s[i] == a);
            } else {
                assert(reaches_first(s, last) && s[last] == a);
            }
        }
        if exists|i: int| #[trigger] reaches_first(s, i) && s[i] == a {
            let i = choose|i: int| #[trigger] reaches_first(s, i) && s[i] == a;
            if i < last {
                assert(reaches_first(t, i) && t[i] == a);
                let x = before.index_of(a);
                assert(firsts(s)[x] == a);
            } else {
                assert(firsts(s)[before.len() as int] == a);
            }
        }
    } else if exists|i: int| #[trigger] reaches_first(s, i) && s[i] == a {
        let i = choose|i: int| #[trigger] reaches_first(s, i) && s[i] == a;
    }
}

/// Whether an artifact is the first of a list to reach its allocation.
pub open spec fn reaches_first(s: Seq<Artifact>, i: int) -> bool {
    &&& 0 <= i < s.len()
    &&& s[i].key is Some
    &&& forall|j: int| 0 <= j < i ==> (#[trigger] s[j]).key != s[i].key
}

/// What is compared are files and no links, of at least the size asked for and
/// with a known allocation; of each allocation one, and of every such allocation.
pub proof fn every_large_allocation_is_compared_once(artifacts: Seq<Artifact>, min_bytes: u64, i: int)
    ensures
        forall|k: int|
            0 <= k < candidates_of(artifacts, min_bytes).len() ==> {
                let a = #[trigger] candidates_of(artifacts, min_bytes)[k];
                artifacts.contains(a) && !a.is_link && a.bytes >= min_bytes && a.key is Some
            },
        forall|j: int, k: int|
            0 <= j < k < candidates_of(artifacts, min_bytes).len() ==> (#[trigger] candidates_of(
                artifacts,
                min_bytes,
            )[j]).key != (#[trigger] candidates_of(artifacts, min_bytes)[k]).key,
        0 <= i < artifacts.len() && !artifacts[i].is_link && artifacts[i].bytes >= min_bytes
            && artifacts[i].key is Some ==> exists|k: int|
            0 <= k < candidates_of(artifacts, min_bytes).len() && (#[trigger] candidates_of(
                artifacts,
                min_bytes,
            )[k]).key == artifacts[i].key,
{
    let p = |a: Artifact| comparable(a, min_bytes);
    let s = artifacts.filter(p);
    let c = candidates_of(artifacts, min_bytes);
    crate::seqs::lemma_filter_members(artifacts, p);
    lemma_firsts(s);
    assert forall|k: int| 0 <= k < c.len() implies {
        let a = #[trigger] c[k];
        artifacts.contains(a) && !a.is_link && a.bytes >= min_bytes && a.key is Some
    } by {
        let a = c[k];
        assert(c.contains(a));
        lemma_firsts_are(s, a);
        let x = choose|x: int| #[trigger] reaches_first(s, x) && s[x] == a;
        assert(s.contains(a));
        assert(p(a));
    }
    if 0 <= i < artifacts.len() && p(artifacts[i]) {
        assert(artifacts.contains(artifacts[i]));
        assert(s.contains(artifacts[i]));
        let n = s.index_of(artifacts[i]);
        let x = lemma_first_with_key(s, n);
        lemma_firsts_are(s, s[x]);
        assert(c.contains(s[x]));
        let k = c.index_of(s[x]);
        assert(c[k].key == artifacts[i].key);
    }
}

proof fn lemma_first_with_key(s: Seq<Artifact>, n: int) -> (x: int)
    requires
        0 <= n < s.len(),
        s[n].key is Some,
    ensures
        reaches_first(s, x),
        s[x].key == s[n].key,
    decreases n,
{
    if exists|j: int| 0 <= j < n && (#[trigger] s[j]).key == s[n].key {
        let j = choose|j: int| 0 <= j < n && (#[trigger] s[j]).key == s[n].key;
        lemma_first_with_key(s, j)
    } else {
        n
    }
}

proof fn lemma_sizes(s: Seq<Artifact>)
    ensures
        forall|i: int| 0 <= i < s.len() ==> sizes_of(s).contains((#[trigger] s[i]).bytes),
    decreases s.len(),
{
    if s.len() > 0 {
        let t = s.drop_last();
        lemma_sizes(t);
        let before = sizes_of(t);
        let all = sizes_of(s);
        assert forall|i: int| 0 <= i < s.len() implies all.contains((#[trigger] s[i]).bytes) by {
            if i < t.len() {
                assert(t[i] == s[i]);
                assert(before.contains(t[i].bytes));
                let k = before.index_of(s[i].bytes);
                assert(all[k] == s[i].bytes);
            } else if before.contains(s[i].bytes) {
                let k = before.index_of(s[i].bytes);
                assert(all[k] == s[i].bytes);
            } else {
                assert(all[before.len() as int] == s[i].bytes);
            }
        }
    }
}

proof fn lemma_contents(s: Seq<Artifact>, samples: Seq<(ArtifactId, Vec<u8>)>, size: u64)
    ensures
        forall|i: int|
            0 <= i < s.len() && (#[trigger] s[i]).bytes == size && sample_of(samples, s[i].id@) is Some
                ==> contents_at(s, samples, size).contains(sample_of(samples, s[i].id@)->0),
    decreases s.len(),
{
    if s.len() > 0 {
        let t = s.drop_last();
        lemma_contents(t, samples, size);
        let before = contents_at(t, samples, size);
        let all = contents_at(s, samples, size);
        assert forall|i: int|
            0 <= i < s.len() && (#[trigger] s[i]).bytes == size && sample_of(
                samples,
                s[i].id@,
            ) is Some implies all.contains(sample_of(samples, s[i].id@)->0) by {
            let c = sample_of(samples, s[i].id@)->0;
            if i < t.len() {
                assert(t[i] == s[i]);
                assert(before.contains(c));
            }
            if before.contains(c) {
                let k = before.index_of(c);
                assert(all[k] == c);
            } else {
                assert(all[before.len() as int] == c);
            }
        }
    }
}

proof fn lemma_over(
    s: Seq<Artifact>,
    samples: Seq<(ArtifactId, Vec<u8>)>,
    sizes: Seq<u64>,
    g: Twins,
)
    ensures
        groups_over(s, samples, sizes).contains(g) <==> exists|n: int|
            0 <= n < sizes.len() && groups_at(s, samples, #[trigger] sizes[n]).contains(g),
    decreases sizes.len(),
{
    if sizes.len() > 0 {
        let t = sizes.drop_last();
        lemma_over(s, samples, t, g);
        let before = groups_over(s, samples, t);
        let own = groups_at(s, samples, sizes.last());
        let all = groups_over(s, samples, sizes);
        assert(all == before + own);
        assert(sizes[sizes.len() - 1] == sizes.last());
        if all.contains(g) {
            let k = all.index_of(g);
            if k < before.len() {
                assert(before[k] == g);
                let n = choose|n: int|
                    0 <= n < t.len() && groups_at(s, samples, #[trigger] t[n]).contains(g);
                assert(sizes[n] == t[n]);
            } else {
                assert(own[k - before.len()] == g);
            }
        }
        if exists|n: int|
            0 <= n < sizes.len() && groups_at(s, samples, #[trigger] sizes[n]).contains(g) {
            let n = choose|n: int|
                0 <= n < sizes.len() && groups_at(s, samples, #[trigger] sizes[n]).contains(g);
            if n < t.len() {
                assert(t[n] == sizes[n]);
                assert(before.contains(g));
                let k = before.index_of(g);
                assert(all[k] == g);
            } else {
                let k = own.index_of(g);
                assert(all[before.len() + k] == g);
            }
        }
    }
}

/// Whether a sample is the first of an artifact.
pub open spec fn read_as(samples: Seq<(ArtifactId, Vec<u8>)>, id: Seq<char>, c: Seq<u8>) -> bool {
    exists|k: int|
        0 <= k < samples.len() && (#[trigger] samples[k]).0@ == id && samples[k].1@ == c && forall|
            j: int,
        |
            0 <= j < k ==> (#[trigger] samples[j]).0@ != id
}

proof fn lemma_read_as(samples: Seq<(ArtifactId, Vec<u8>)>, id: Seq<char>, c: Seq<u8>)
    ensures
        read_as(samples, id, c) <==> sample_of(samples, id) == Some(c),
{
    let p = |e: (ArtifactId, Vec<u8>)| is_of(e, id);
    crate::seqs::lemma_first_index(samples, p);
    let f = crate::seqs::first_index(samples, p);
    if f < samples.len() {
        assert(p(samples[f]));
        assert forall|j: int| 0 <= j < f implies (#[trigger] samples[j]).0@ != id by {
            assert(!p(samples[j]));
        }
        assert(samples[f].0@ == id);
    }
    if read_as(samples, id, c) {
        let k = choose|k: int|
            0 <= k < samples.len() && (#[trigger] samples[k]).0@ == id && samples[k].1@ == c
                && forall|j: int| 0 <= j < k ==> (#[trigger] samples[j]).0@ != id;
        assert(p(samples[k]));
        assert(samples.any(p));
        if f < k {
            assert(samples[f].0@ != id);
        }
    }
}

/// Whether a member of a group is of some artifact, of the group's size, that
/// was read as having a content.
pub open spec fn is_twin(
    m: DuplicateMember,
    bytes: u64,
    c: Seq<Artifact>,
    samples: Seq<(ArtifactId, Vec<u8>)>,
    content: Seq<u8>,
) -> bool {
    exists|i: int|
        0 <= i < c.len() && m.id == (#[trigger] c[i]).id && m.path == c[i].path && m.store
            == c[i].store && c[i].bytes == bytes && read_as(samples, c[i].id@, content)
}

/// Whether a group is one of two or more allocations of one size that were read
/// as having one content.
pub open spec fn is_group(
    g: Twins,
    c: Seq<Artifact>,
    samples: Seq<(ArtifactId, Vec<u8>)>,
    content: Seq<u8>,
) -> bool {
    &&& g.members.len() >= 2
    &&& g.reclaimable == g.bytes * (g.members.len() - 1)
    &&& forall|m: int|
        0 <= m < g.members.len() ==> is_twin(#[trigger] g.members[m], g.bytes, c, samples, content)
}

/// Whether a group is one of some content.
pub open spec fn are_duplicates(
    g: Twins,
    c: Seq<Artifact>,
    samples: Seq<(ArtifactId, Vec<u8>)>,
) -> bool {
    exists|d: Seq<u8>| #[trigger] is_group(g, c, samples, d)
}

/// Every group is of at least two of the allocations that are compared, all of
/// one size and one content, and would free all but one of them; and any two that
/// are of one size and were read as having one content are in a group together.
/// What frees most comes first.
#[verifier::rlimit(40)]
pub proof fn duplicates_share_size_and_content(
    artifacts: Seq<Artifact>,
    min_bytes: u64,
    samples: Seq<(ArtifactId, Vec<u8>)>,
    i: int,
    j: int,
    content: Seq<u8>,
)
    ensures
        forall|k: int|
            0 <= k < duplicates_of(artifacts, min_bytes, samples).len() ==> are_duplicates(
                #[trigger] duplicates_of(artifacts, min_bytes, samples)[k],
                candidates_of(artifacts, min_bytes),
                samples,
            ),
        forall|j: int, k: int|
            0 <= j < k < duplicates_of(artifacts, min_bytes, samples).len() ==> (
            #[trigger] duplicates_of(artifacts, min_bytes, samples)[j]).reclaimable >= (
            #[trigger] duplicates_of(artifacts, min_bytes, samples)[k]).reclaimable,
        ({
            let c = candidates_of(artifacts, min_bytes);
            0 <= i < j < c.len() && c[i].bytes == c[j].bytes && read_as(samples, c[i].id@, content)
                && read_as(samples, c[j].id@, content) ==> exists|k: int|
                0 <= k < duplicates_of(artifacts, min_bytes, samples).len() && (
                #[trigger] duplicates_of(artifacts, min_bytes, samples)[k]).members.contains(
                    member_of(c[i]),
                ) && duplicates_of(artifacts, min_bytes, samples)[k].members.contains(
                    member_of(c[j]),
                )
        }),
{
    let c = candidates_of(artifacts, min_bytes);
    let sizes = ascending_sizes(c);
    let loose = groups_over(c, samples, sizes);
    let le = |a: Twins, b: Twins| a.reclaimable >= b.reclaimable;
    let up = |a: u64, b: u64| a <= b;
    let all = duplicates_of(artifacts, min_bytes, samples);
    crate::seqs::lemma_stable_sort(loose, le);
    assert(crate::seqs::total_preorder(le));
    assert forall|j: int, k: int| 0 <= j < k < all.len() implies (#[trigger] all[j]).reclaimable >= (
    #[trigger] all[k]).reclaimable by {
        assert(le(all[j], all[k]));
    }
    assert forall|k: int| 0 <= k < all.len() implies are_duplicates(
        #[trigger] all[k],
        c,
        samples,
    ) by {
        let g = all[k];
        assert(all.contains(g));
        crate::seqs::lemma_stable_sort_contains(loose, le, g);
        lemma_over(c, samples, sizes, g);
        let n = choose|n: int|
            0 <= n < sizes.len() && groups_at(c, samples, #[trigger] sizes[n]).contains(g);
        let size = sizes[n];
        let f = |d: Seq<u8>| group_of(size, copies(c, samples, size, d));
        let at = contents_at(c, samples, size);
        crate::seqs::lemma_filter_map_members(at, f);
        let own = groups_at(c, samples, size);
        let x = own.index_of(g);
        let y = choose|y: int| 0 <= y < at.len() && f(#[trigger] at[y]) == Some(own[x]);
        let d = at[y];
        let same = copies(c, samples, size, d);
        let q = |a: Artifact| is_copy(a, samples, size, d);
        crate::seqs::lemma_filter_members(c, q);
        assert forall|m: int| 0 <= m < g.members.len() implies is_twin(
            #[trigger] g.members[m],
            g.bytes,
            c,
            samples,
            d,
        ) by {
            let a = same[m];
            assert(same.contains(a));
            assert(c.contains(a) && q(a));
            let i = c.index_of(a);
            lemma_read_as(samples, a.id@, d);
            assert(g.members[m] == member_of(c[i]));
        }
        assert(is_group(g, c, samples, d));
    }
    if 0 <= i < j < c.len() && c[i].bytes == c[j].bytes && read_as(samples, c[i].id@, content)
        && read_as(samples, c[j].id@, content) {
        let size = c[i].bytes;
        lemma_read_as(samples, c[i].id@, content);
        lemma_read_as(samples, c[j].id@, content);
        lemma_sizes(c);
        lemma_contents(c, samples, size);
        crate::seqs::lemma_stable_sort_contains(sizes_of(c), up, size);
        assert(sizes.contains(size));
        let n = sizes.index_of(size);
        let f = |d: Seq<u8>| group_of(size, copies(c, samples, size, d));
        let at = contents_at(c, samples, size);
        assert(at.contains(content));
        let y = at.index_of(content);
        crate::seqs::lemma_filter_map_members(at, f);
        let q = |a: Artifact| is_copy(a, samples, size, content);
        let same = copies(c, samples, size, content);
        let to = crate::seqs::lemma_filter_places(c, q);
        assert(q(c[i]) && q(c[j]));
        assert(to.contains(i) && to.contains(j));
        let u = to.index_of(i);
        let v = to.index_of(j);
        assert(u != v);
        assert(same.len() >= 2);
        let g = group_of(size, same)->0;
        assert(f(at[y]) == Some(g));
        assert(groups_at(c, samples, size).contains(g));
        assert(g.members[u] == member_of(c[i]) && g.members[v] == member_of(c[j]));
        assert(groups_at(c, samples, sizes[n]).contains(g));
        lemma_over(c, samples, sizes, g);
        crate::seqs::lemma_stable_sort_contains(loose, le, g);
        let k = all.index_of(g);
        assert(all[k] == g);
        assert(all[k].members.contains(member_of(c[i])));
        assert(all[k].members.contains(member_of(c[j])));
    }
}

} // verus!
