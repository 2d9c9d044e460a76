//! Another build of the same model, in a format this machine can serve.
//!
//! When a repo cannot be served as published, another build of it is the cheap
//! way out, and converting it the expensive one. **Every candidate is confirmed
//! by reading its repo**: a name is not a format.
use vstd::prelude::*;

use crate::intake::hf::{Repo, RepoFile};
use crate::intake::run::{
    all_parts, builds_in, gather, held, label_text, lone_part, part_alone, parts_in, Build, Parts,
};
use crate::inventory::artifact::Format;
use crate::inventory::identity::{canonical, canonical_name};
use crate::seqs::{
    lemma_sort_map, lemma_stable_sort, lemma_stable_sort_contains, sort_with, stable_sort,
};
use crate::text::{opt_text, same};

verus! {

/// A build that would serve, where the one asked for would not.
#[derive(Debug)]
pub struct Sibling {
    pub repo: String,
    /// What the build is called: its own file, or the first part's with how
    /// many there are.
    pub file: String,
    pub format: Format,
    /// What the whole build weighs, every part of it.
    pub bytes: u64,
    /// The ground on which these were called the same model.
    pub base_model: String,
}

/// A sibling, in texts.
#[verifier::ext_equal]
pub struct Kin {
    pub repo: Seq<char>,
    pub file: Seq<char>,
    pub format: Format,
    pub bytes: u64,
    pub base_model: Seq<char>,
}

pub open spec fn kin(s: Sibling) -> Kin {
    Kin {
        repo: s.repo@,
        file: s.file@,
        format: s.format,
        bytes: s.bytes,
        base_model: s.base_model@,
    }
}

pub open spec fn kindred(v: Seq<Sibling>) -> Seq<Kin> {
    v.map_values(|s: Sibling| kin(s))
}

/// Are two repos builds of one model, and on what ground. The comparison is of
/// canonical names, and always anchors on a repo *id*: the two ids are alike,
/// or one is the model the other derives from. That both declare one base is
/// deliberately no ground: every fine-tune of a model declares it.
pub open spec fn ground(source: Repo, candidate: Repo) -> Option<Seq<char>> {
    let source_id = canonical(source.id@);
    let candidate_id = canonical(candidate.id@);
    if source_id == candidate_id {
        match source.base_model {
            Some(b) => Some(b@),
            None => Some(source.id@),
        }
    } else if source.base_model matches Some(b) && canonical(b@) == candidate_id {
        Some(source.base_model->0@)
    } else if candidate.base_model matches Some(b) && canonical(b@) == source_id {
        Some(candidate.base_model->0@)
    } else {
        None
    }
}

/// Are these two repos builds of one model? If so, on what ground.
fn same_model(source: &Repo, candidate: &Repo) -> (r: Option<String>)
    ensures
        opt_text(r) == ground(*source, *candidate),
{
    let source_id = canonical_name(source.id.as_str());
    let candidate_id = canonical_name(candidate.id.as_str());
    if same(source_id.as_str(), candidate_id.as_str()) {
        return match &source.base_model {
            Some(b) => Some(b.clone()),
            None => Some(source.id.clone()),
        };
    }
    if let Some(b) = &source.base_model {
        if same(canonical_name(b.as_str()).as_str(), candidate_id.as_str()) {
            return Some(b.clone());
        }
    }
    if let Some(b) = &candidate.base_model {
        if same(canonical_name(b.as_str()).as_str(), source_id.as_str()) {
            return Some(b.clone());
        }
    }
    None
}

/// Whether a build would serve: no part alone, of a format served here, with a
/// size to be priced on.
pub open spec fn serves(p: Parts, servable: Seq<Format>) -> bool {
    &&& p.files.len() > 0
    &&& part_alone(p.files) is None
    &&& servable.contains(p.files[0].format)
    &&& p.bytes matches Some(n) && n <= u64::MAX
}

/// The first of the lightest builds that would serve.
pub open spec fn lightest(all: Seq<Parts>, servable: Seq<Format>) -> Option<Parts>
    decreases all.len(),
{
    if all.len() == 0 {
        None
    } else {
        let before = lightest(all.drop_last(), servable);
        if !serves(all.last(), servable) {
            before
        } else {
            match before {
                Some(p) if p.bytes->0 <= all.last().bytes->0 => Some(p),
                _ => Some(all.last()),
            }
        }
    }
}

/// The sibling a candidate is, where it is one.
pub open spec fn sibling_in(source: Repo, candidate: Repo, servable: Seq<Format>) -> Option<Kin> {
    if candidate.id@ == source.id@ {
        None
    } else {
        match (ground(source, candidate), lightest(builds_in(candidate.files@), servable)) {
            (Some(base_model), Some(p)) => Some(
                Kin {
                    repo: candidate.id@,
                    file: label_text(p.files),
                    format: p.files[0].format,
                    bytes: p.bytes->0 as u64,
                    base_model,
                },
            ),
            _ => None,
        }
    }
}

/// The siblings among candidates, smallest first.
pub open spec fn siblings_in(source: Repo, candidates: Seq<Repo>, servable: Seq<Format>) -> Seq<
    Kin,
> {
    stable_sort(
        candidates.filter_map(|c: Repo| sibling_in(source, c, servable)),
        |a: Kin, b: Kin| a.bytes <= b.bytes,
    )
}

/// Whether a repo already holds something that is served here.
pub open spec fn already_served(source: Repo, servable: Seq<Format>) -> bool {
    exists|i: int|
        0 <= i < source.files@.len() && servable.contains((#[trigger] source.files@[i]).format)
}

fn is_servable(servable: &[Format], f: Format) -> (r: bool)
    ensures
        r == servable@.contains(f),
{
    let mut i: usize = 0;
    while i < servable.len()
        invariant
            i <= servable@.len(),
            forall|k: int| 0 <= k < i ==> #[trigger] servable@[k] != f,
        decreases servable.len() - i,
    {
        if servable[i] == f {
            return true;
        }
        i += 1;
    }
    false
}

fn find_lightest(files: &Vec<RepoFile>, servable: &[Format]) -> (r: Option<(String, Format, u64)>)
    ensures
        match r {
            Some((name, format, bytes)) => {
                &&& lightest(builds_in(files@), servable@) matches Some(p)
                &&& name@ == label_text(p.files)
                &&& format == p.files[0].format
                &&& p.bytes == Some(bytes as nat)
            },
            None => lightest(builds_in(files@), servable@) is None,
        },
{
    let all = gather(files);
    let ghost line = builds_in(files@);
    let mut best: Option<(usize, u64)> = None;
    let mut i: usize = 0;
    proof {
        assert(all_parts(all@).len() == line.len());
    }
    while i < all.len()
        invariant
            i <= all@.len() == line.len(),
            all_parts(all@) == line.map_values(|p: Parts| held(p)),
            match best {
                Some((k, b)) => k < i && lightest(line.take(i as int), servable@) == Some(
                    line[k as int],
                ) && line[k as int].bytes == Some(b as nat) && line[k as int].files.len() > 0,
                None => lightest(line.take(i as int), servable@) is None,
            },
        decreases all.len() - i,
    {
        let one = &all[i];
        proof {
            assert(line.take(i + 1).drop_last() =~= line.take(i as int));
            assert(all_parts(all@)[i as int] == held(line[i as int]));
            assert(parts_in(*one) == held(line[i as int]));
        }
        if one.files.len() > 0 && lone_part(one).is_none() && is_servable(
            servable,
            one.files[0].format,
        ) {
            if let Some(b) = one.bytes {
                let keep = match best {
                    Some((_, least)) => least <= b,
                    None => false,
                };
                if !keep {
                    best = Some((i, b));
                }
            }
        }
        i += 1;
    }
    proof {
        assert(line.take(i as int) =~= line);
    }
    match best {
        Some((k, b)) => {
            proof {
                assert(all_parts(all@)[k as int] == held(line[k as int]));
                assert(parts_in(all@[k as int]) == held(line[k as int]));
            }
            let chosen: &Build = &all[k];
            Some((chosen.label(), chosen.files[0].format, b))
        },
        None => None,
    }
}

/// The siblings among candidates that the caller found however it liked.
///
/// Confirmed by what each repo publishes, never by what it is called. A size
/// that was never published cannot be priced, so it is not the cheap way out
/// of anything.
pub fn from_candidates(source: &Repo, candidates: &[Repo], servable: &[Format]) -> (r: Vec<
    Sibling,
>)
    ensures
        kindred(r@) == siblings_in(*source, candidates@, servable@),
{
    let ghost f = |c: Repo| sibling_in(*source, c, servable@);
    let mut out: Vec<Sibling> = Vec::new();
    let mut i: usize = 0;
    proof {
        assert(candidates@.take(0).filter_map(f) =~= Seq::empty());
        assert(kindred(out@) =~= Seq::empty());
    }
    while i < candidates.len()
        invariant
            i <= candidates@.len(),
            f == (|c: Repo| sibling_in(*source, c, servable@)),
            kindred(out@) == candidates@.take(i as int).filter_map(f),
        decreases candidates.len() - i,
    {
        let c = &candidates[i];
        proof {
            candidates@.lemma_filter_map_take_succ(f, i as int);
        }
        let ghost was = out@;
        if !same(c.id.as_str(), source.id.as_str()) {
            if let Some(base_model) = same_model(source, c) {
                if let Some((file, format, bytes)) = find_lightest(&c.files, servable) {
                    let s = Sibling { repo: c.id.clone(), file, format, bytes, base_model };
                    proof {
                        assert(kin(s) =~= f(*c)->0);
                    }
                    out.push(s);
                    proof {
                        assert(kindred(out@) =~= kindred(was).push(kin(s)));
                    }
                }
            }
        }
        proof {
            assert(kindred(out@) =~= candidates@.take(i + 1).filter_map(f));
        }
        i += 1;
    }
    proof {
        assert(candidates@.take(i as int) =~= candidates@);
    }
    let le = |a: &Sibling, b: &Sibling| -> (r: bool)
        ensures
            r == (kin(*a).bytes <= kin(*b).bytes),
        {
            a.bytes <= b.bytes
        };
    let ghost size = |a: Sibling, b: Sibling| kin(a).bytes <= kin(b).bytes;
    let ghost view = |s: Sibling| kin(s);
    let ghost loose = out@;
    let out = sort_with(out, le, Ghost(size));
    proof {
        lemma_sort_map(loose, view, size, |a: Kin, b: Kin| a.bytes <= b.bytes);
        assert(loose.map_values(view) =~= kindred(loose));
        assert(out@.map_values(view) =~= kindred(out@));
    }
    out
}

/// Siblings for a repo that cannot be served, or nothing.
///
/// A source that already loads here has nothing to replace.
pub fn for_repo(source: &Repo, candidates: &[Repo], servable: &[Format]) -> (r: Vec<Sibling>)
    ensures
        kindred(r@) == if already_served(*source, servable@) {
            Seq::empty()
        } else {
            siblings_in(*source, candidates@, servable@)
        },
{
    let mut i: usize = 0;
    while i < source.files.len()
        invariant
            i <= source.files@.len(),
            forall|k: int|
                0 <= k < i ==> !servable@.contains((#[trigger] source.files@[k]).format),
        decreases source.files.len() - i,
    {
        if is_servable(servable, source.files[i].format) {
            proof {
                assert(servable@.contains(source.files@[i as int].format));
            }
            let none: Vec<Sibling> = Vec::new();
            proof {
                assert(kindred(none@) =~= Seq::empty());
            }
            return none;
        }
        i += 1;
    }
    from_candidates(source, candidates, servable)
}

/// Sharing a declared base makes no siblings: two fine-tunes of one model that
/// go by other names than it and than each other are never offered for one
/// another.
pub proof fn a_common_base_is_no_ground(source: Repo, candidate: Repo, base: Seq<char>)
    requires
        opt_text(source.base_model) == Some(base),
        opt_text(candidate.base_model) == Some(base),
        canonical(source.id@) != canonical(candidate.id@),
        canonical(base) != canonical(source.id@),
        canonical(base) != canonical(candidate.id@),
    ensures
        ground(source, candidate) is None,
{
}

/// Whether a sibling is a build of a candidate: another repo, the same model on
/// the stated ground, and the lightest of its builds that serve, at the size
/// published for all of it.
pub open spec fn is_build_of(
    k: Kin,
    source: Repo,
    candidate: Repo,
    p: Parts,
    servable: Seq<Format>,
) -> bool {
    &&& candidate.id@ != source.id@
    &&& k.repo == candidate.id@
    &&& ground(source, candidate) == Some(k.base_model)
    &&& builds_in(candidate.files@).contains(p)
    &&& serves(p, servable)
    &&& k.file == label_text(p.files)
    &&& k.format == p.files[0].format
    &&& p.bytes == Some(k.bytes as nat)
    &&& forall|j: int|
        0 <= j < builds_in(candidate.files@).len() && serves(
            #[trigger] builds_in(candidate.files@)[j],
            servable,
        ) ==> k.bytes <= builds_in(candidate.files@)[j].bytes->0
}

/// Whether some candidate publishes a sibling.
pub open spec fn confirmed(
    k: Kin,
    source: Repo,
    candidates: Seq<Repo>,
    servable: Seq<Format>,
) -> bool {
    exists|c: Repo, p: Parts|
        candidates.contains(c) && #[trigger] is_build_of(k, source, c, p, servable)
}

/// The lightest build is one of those that serve, none of which weighs less.
proof fn lemma_lightest(all: Seq<Parts>, servable: Seq<Format>)
    ensures
        match lightest(all, servable) {
            Some(p) => all.contains(p) && serves(p, servable) && forall|j: int|
                0 <= j < all.len() && serves(#[trigger] all[j], servable) ==> p.bytes->0
                    <= all[j].bytes->0,
            None => forall|j: int| 0 <= j < all.len() ==> !serves(#[trigger] all[j], servable),
        },
    decreases all.len(),
{
    if all.len() > 0 {
        let t = all.drop_last();
        lemma_lightest(t, servable);
        assert(all[all.len() - 1] == all.last());
        if let Some(p) = lightest(t, servable) {
            let k = t.index_of(p);
            assert(all[k] == p);
        }
        assert forall|j: int| 0 <= j < all.len() - 1 implies all[j] == #[trigger] t[j] by {}
        assert forall|j: int| 0 <= j < all.len() && serves(#[trigger] all[j], servable) implies (
        lightest(all, servable) matches Some(p) && p.bytes->0 <= all[j].bytes->0) by {
            if j < all.len() - 1 {
                assert(serves(t[j], servable));
            }
        }
    }
}

/// No candidate is passed over: another repo of the same model yields a sibling
/// exactly when one of its builds would serve, split or not.
pub proof fn a_candidate_that_serves_is_offered(source: Repo, candidate: Repo, servable: Seq<Format>)
    requires
        candidate.id@ != source.id@,
        ground(source, candidate) is Some,
    ensures
        sibling_in(source, candidate, servable) is Some <==> exists|b: int|
            0 <= b < builds_in(candidate.files@).len() && serves(
                #[trigger] builds_in(candidate.files@)[b],
                servable,
            ),
{
    let all = builds_in(candidate.files@);
    lemma_lightest(all, servable);
    if let Some(p) = lightest(all, servable) {
        let b = all.index_of(p);
        assert(serves(all[b], servable));
    }
}

/// Every sibling is read off a repo and never guessed: it is the lightest build
/// that serves of a candidate other than the source, at its published size,
/// and the lighter siblings come first.
pub proof fn a_sibling_is_a_published_build(
    source: Repo,
    candidates: Seq<Repo>,
    servable: Seq<Format>,
)
    ensures
        forall|k: int|
            0 <= k < siblings_in(source, candidates, servable).len() ==> confirmed(
                #[trigger] siblings_in(source, candidates, servable)[k],
                source,
                candidates,
                servable,
            ),
        forall|a: int, b: int|
            #![trigger siblings_in(source, candidates, servable)[a], siblings_in(source, candidates, servable)[b]]
            0 <= a < b < siblings_in(source, candidates, servable).len() ==> siblings_in(
                source,
                candidates,
                servable,
            )[a].bytes <= siblings_in(source, candidates, servable)[b].bytes,
{
    let g = |c: Repo| sibling_in(source, c, servable);
    let le = |a: Kin, b: Kin| a.bytes <= b.bytes;
    let loose = candidates.filter_map(g);
    let all = siblings_in(source, candidates, servable);
    lemma_stable_sort(loose, le);
    assert forall|k: int| 0 <= k < all.len() implies confirmed(
        #[trigger] all[k],
        source,
        candidates,
        servable,
    ) by {
        assert(all.contains(all[k]));
        lemma_stable_sort_contains(loose, le, all[k]);
        candidates.lemma_filter_map_contains(g, all[k]);
        let c = choose|c: Repo| candidates.contains(c) && #[trigger] g(c) == Some(all[k]);
        lemma_lightest(builds_in(c.files@), servable);
        let p = lightest(builds_in(c.files@), servable)->0;
        assert(is_build_of(all[k], source, c, p, servable));
    }
    assert forall|a: int, b: int| #![trigger all[a], all[b]] 0 <= a < b < all.len() implies all[a].bytes
        <= all[b].bytes by {
        assert(le(all[a], all[b]));
    }
}

} // verus!
