//! Searching and adding, end to end.
//!
//! The order is the whole design: read the repo, check its provenance, choose
//! its build and its store, price it against both ledgers, and only then move a
//! byte. Every refusal is made before the download starts.
use vstd::prelude::*;

use crate::estimate::estimator::{Basis, Estimate};
use crate::intake::fit::{admitted, assess, fit_text, Fit, Verdict};
use crate::intake::hf::{build_file, Repo, RepoFile};
use crate::intake::ollama::{pull_name, transport_for};
use crate::intake::place::{directory_for, landing, store_for, store_of};
use crate::intake::provenance::{check, checked, lineage, lineage_text, Finding, Lineage};
use crate::inventory::artifact::{store_text, Format, Quant, Store};
use crate::inventory::scan::{places, roots};
use crate::memory::Machine;
use crate::paths::under;
use crate::provider::{kind_text, ProviderKind};
use crate::render_estimate::DEFAULT_RESERVE_BYTES;
use crate::seqs::{
    first_match, lemma_filter_members, lemma_filter_take, lemma_first_index_is, lemma_sort_map,
    lemma_stable_sort, lemma_stable_sort_contains, lemma_total_take, sort_with, stable_sort, total,
};
use crate::text::{
    before_suffix, cat2, cat3, cat4, cat5, cut_last, decimal, is_before, lower, lowered, number,
    opt_text, parse_unsigned, rsplit_once, same, strip_suffix, text_le, texts, unsigned,
};

verus! {

pub const SCHEMA: u32 = 1;

/// What a format is called.
pub open spec fn format_name(f: Format) -> Seq<char> {
    match f {
        Format::Gguf => "Gguf"@,
        Format::Mlx => "Mlx"@,
        Format::Safetensors(Quant::Bf16) => "Safetensors(Bf16)"@,
        Format::Safetensors(Quant::CompressedTensors) => "Safetensors(CompressedTensors)"@,
        Format::Safetensors(Quant::Awq) => "Safetensors(Awq)"@,
        Format::Safetensors(Quant::Gptq) => "Safetensors(Gptq)"@,
        Format::Safetensors(Quant::Fp8) => "Safetensors(Fp8)"@,
        Format::Safetensors(Quant::BitsAndBytes) => "Safetensors(BitsAndBytes)"@,
        Format::Safetensors(Quant::Unknown) => "Safetensors(Unknown)"@,
        Format::Other => "Other"@,
    }
}

pub(crate) fn name_of_format(f: Format) -> (s: &'static str)
    ensures
        s@ == format_name(f),
{
    match f {
        Format::Gguf => "Gguf",
        Format::Mlx => "Mlx",
        Format::Safetensors(Quant::Bf16) => "Safetensors(Bf16)",
        Format::Safetensors(Quant::CompressedTensors) => "Safetensors(CompressedTensors)",
        Format::Safetensors(Quant::Awq) => "Safetensors(Awq)",
        Format::Safetensors(Quant::Gptq) => "Safetensors(Gptq)",
        Format::Safetensors(Quant::Fp8) => "Safetensors(Fp8)",
        Format::Safetensors(Quant::BitsAndBytes) => "Safetensors(BitsAndBytes)",
        Format::Safetensors(Quant::Unknown) => "Safetensors(Unknown)",
        Format::Other => "Other",
    }
}

/// The stem and the number of parts in a part's name.
pub open spec fn shard(name: Seq<char>) -> Option<(Seq<char>, u32)> {
    match before_suffix(name, ".gguf"@) {
        None => None,
        Some(body) => match cut_last(body, "-of-"@) {
            None => None,
            Some((head, count)) => match cut_last(head, "-"@) {
                None => None,
                Some((stem, index)) => match (unsigned(count), unsigned(index)) {
                    (Some(n), Some(i)) => if 2 <= n <= u32::MAX && i <= u32::MAX {
                        Some((stem, n as u32))
                    } else {
                        None
                    },
                    _ => None,
                },
            },
        },
    }
}

/// Split `...-00003-of-00007.gguf` into its stem and its shard count.
///
/// A large GGUF is published in numbered parts, and **each part is a file but
/// the build is the set**. One of one is a whole build that happens to be
/// numbered.
pub fn shard_of(name: &str) -> (r: Option<(String, u32)>)
    ensures
        match r {
            Some((stem, n)) => shard(name@) == Some((stem@, n)),
            None => shard(name@) is None,
        },
{
    let body = match strip_suffix(name, ".gguf") {
        Some(s) => s,
        None => {
            return None;
        },
    };
    let (head, count) = match rsplit_once(body.as_str(), "-of-") {
        Some(p) => p,
        None => {
            return None;
        },
    };
    let (stem, index) = match rsplit_once(head.as_str(), "-") {
        Some(p) => p,
        None => {
            return None;
        },
    };
    let n = match parse_unsigned(count.as_str(), 0xffff_ffff) {
        Some(n) => n,
        None => {
            return None;
        },
    };
    if parse_unsigned(index.as_str(), 0xffff_ffff).is_none() {
        return None;
    }
    if n < 2 {
        return None;
    }
    Some((stem, n as u32))
}

/// One thing a provider can load: a single file, or every shard of a split one.
#[derive(Debug)]
pub struct Build {
    /// Every file that must be pulled. One entry for an unsharded build.
    pub files: Vec<RepoFile>,
    /// What the whole build costs. `None` when any part is unpriced: a build
    /// whose total is unknown cannot be admitted against either ledger.
    pub bytes: Option<u64>,
}

/// What a build is called.
pub open spec fn label_text(files: Seq<RepoFile>) -> Seq<char> {
    if files.len() == 0 {
        ""@
    } else if files.len() == 1 {
        files[0].name@
    } else {
        files[0].name@ + " ("@ + decimal(files.len()) + " parts)"@
    }
}

impl Build {
    /// What to call it: the file's own name, or the first part's with how many
    /// there are.
    pub fn label(&self) -> (r: String)
        ensures
            r@ == label_text(self.files@),
    {
        let n = self.files.len();
        if n == 0 {
            "".to_owned()
        } else if n == 1 {
            self.files[0].name.clone()
        } else {
            cat4(self.files[0].name.as_str(), " (", number(n as u64).as_str(), " parts)")
        }
    }
}

/// A build: its files, and what they weigh together where all of them say.
#[verifier::ext_equal]
pub struct Parts {
    pub files: Seq<RepoFile>,
    pub bytes: Option<nat>,
}

pub open spec fn parts_in(b: Build) -> Parts {
    Parts {
        files: b.files@,
        bytes: match b.bytes {
            Some(n) => Some(n as nat),
            None => None,
        },
    }
}

pub open spec fn all_parts(v: Seq<Build>) -> Seq<Parts> {
    v.map_values(|b: Build| parts_in(b))
}

/// The stem a part belongs to.
pub open spec fn stem_of(f: RepoFile) -> Option<Seq<char>> {
    if build_file(f) {
        match shard(f.name@) {
            Some((s, _)) => Some(s),
            None => None,
        }
    } else {
        None
    }
}

/// Whether a file is a build by itself.
pub open spec fn is_single(f: RepoFile) -> bool {
    build_file(f) && shard(f.name@) is None
}

pub open spec fn is_part_of(f: RepoFile, stem: Seq<char>) -> bool {
    stem_of(f) == Some(stem)
}

/// The stems of parts, each once, in the order first seen.
pub open spec fn stems(files: Seq<RepoFile>) -> Seq<Seq<char>>
    decreases files.len(),
{
    if files.len() == 0 {
        Seq::empty()
    } else {
        let before = stems(files.drop_last());
        match stem_of(files.last()) {
            Some(s) => if before.contains(s) {
                before
            } else {
                before.push(s)
            },
            None => before,
        }
    }
}

/// The stems in order.
pub open spec fn sorted_stems(files: Seq<RepoFile>) -> Seq<Seq<char>> {
    stable_sort(stems(files), |a: Seq<char>, b: Seq<char>| text_le(a, b))
}

/// The parts of a stem, by name.
pub open spec fn parts_of(files: Seq<RepoFile>, stem: Seq<char>) -> Seq<RepoFile> {
    stable_sort(
        files.filter(|f: RepoFile| is_part_of(f, stem)),
        |a: RepoFile, b: RepoFile| text_le(a.name@, b.name@),
    )
}

pub open spec fn size_of(f: RepoFile) -> nat {
    match f.size_bytes {
        Some(b) => b as nat,
        None => 0,
    }
}

/// What files weigh together. One missing size makes the whole unknown:
/// summing what is published would understate it.
pub open spec fn weight(files: Seq<RepoFile>) -> Option<nat> {
    if forall|i: int| 0 <= i < files.len() ==> (#[trigger] files[i]).size_bytes is Some {
        Some(total(files, |f: RepoFile| size_of(f)))
    } else {
        None
    }
}

pub open spec fn whole(files: Seq<RepoFile>) -> Parts {
    Parts { files, bytes: weight(files) }
}

/// A file as a build by itself.
pub open spec fn single(f: RepoFile) -> Parts {
    Parts {
        files: seq![f],
        bytes: match f.size_bytes {
            Some(n) => Some(n as nat),
            None => None,
        },
    }
}

/// Every loadable build in a repo: the single files in their order, then the
/// split ones by stem.
pub open spec fn builds_in(files: Seq<RepoFile>) -> Seq<Parts> {
    files.filter(|f: RepoFile| is_single(f)).map_values(|f: RepoFile| single(f))
        + sorted_stems(files).map_values(|s: Seq<char>| whole(parts_of(files, s)))
}

/// Every split build weighs a number of bytes that 64 bits can hold.
pub open spec fn countable(files: Seq<RepoFile>) -> bool {
    forall|i: int|
        0 <= i < sorted_stems(files).len() ==> (weight(
            parts_of(files, #[trigger] sorted_stems(files)[i]),
        ) matches Some(n) ==> n <= u64::MAX)
}

/// A build with no weight where 64 bits cannot hold it.
pub open spec fn held(p: Parts) -> Parts {
    Parts {
        files: p.files,
        bytes: match p.bytes {
            Some(n) if n <= u64::MAX => Some(n),
            _ => None,
        },
    }
}

fn weigh(files: &Vec<RepoFile>) -> (r: Option<u64>)
    ensures
        match r {
            Some(n) => weight(files@) == Some(n as nat),
            None => weight(files@) matches Some(n) ==> n > u64::MAX,
        },
{
    let ghost f = |x: RepoFile| size_of(x);
    let mut i: usize = 0;
    while i < files.len()
        invariant
            i <= files@.len(),
            forall|k: int| 0 <= k < i ==> (#[trigger] files@[k]).size_bytes is Some,
        decreases files.len() - i,
    {
        if files[i].size_bytes.is_none() {
            return None;
        }
        i += 1;
    }
    let mut n: u128 = 0;
    let mut k: usize = 0;
    while k < files.len()
        invariant
            k <= files@.len(),
            f == (|x: RepoFile| size_of(x)),
            n == total(files@.take(k as int), f),
            n <= k * 0xffff_ffff_ffff_ffff,
            forall|j: int| 0 <= j < files@.len() ==> (#[trigger] files@[j]).size_bytes is Some,
        decreases files.len() - k,
    {
        proof {
            lemma_total_take(files@, f, k as int);
        }
        if let Some(b) = files[k].size_bytes {
            n = n + b as u128;
        }
        k += 1;
    }
    proof {
        assert(files@.take(k as int) =~= files@);
    }
    if n > 0xffff_ffff_ffff_ffff {
        None
    } else {
        Some(n as u64)
    }
}

fn holds_text(names: &Vec<String>, name: &str) -> (r: bool)
    ensures
        r == texts(names@).contains(name@),
{
    let mut i: usize = 0;
    while i < names.len()
        invariant
            i <= names@.len(),
            forall|k: int| 0 <= k < i ==> #[trigger] texts(names@)[k] != name@,
        decreases names.len() - i,
    {
        if same(names[i].as_str(), name) {
            proof {
                assert(texts(names@)[i as int] == name@);
            }
            return true;
        }
        i += 1;
    }
    false
}

/// The parts of a stem, by name.
fn collect_parts(files: &Vec<RepoFile>, stem: &str) -> (r: Vec<RepoFile>)
    ensures
        r@ == parts_of(files@, stem@),
{
    let ghost p = |f: RepoFile| is_part_of(f, stem@);
    let mut out: Vec<RepoFile> = Vec::new();
    let mut i: usize = 0;
    while i < files.len()
        invariant
            i <= files@.len(),
            p == (|f: RepoFile| is_part_of(f, stem@)),
            out@ == files@.take(i as int).filter(p),
        decreases files.len() - i,
    {
        proof {
            lemma_filter_take(files@, p, i as int);
        }
        let f = &files[i];
        if f.is_a_build() {
            if let Some((s, _)) = shard_of(f.name.as_str()) {
                if same(s.as_str(), stem) {
                    out.push(f.clone());
                }
            }
        }
        i += 1;
    }
    proof {
        assert(files@.take(i as int) =~= files@);
    }
    let le = |a: &RepoFile, b: &RepoFile| -> (r: bool)
        ensures
            r == text_le(a.name@, b.name@),
        {
            !is_before(b.name.as_str(), a.name.as_str())
        };
    sort_with(out, le, Ghost(|a: RepoFile, b: RepoFile| text_le(a.name@, b.name@)))
}

/// Every loadable build in a repo, shards folded into one entry each.
pub fn builds(repo: &Repo) -> (r: Vec<Build>)
    requires
        countable(repo.files@),
    ensures
        all_parts(r@) == builds_in(repo.files@),
{
    let out = gather(&repo.files);
    proof {
        let all = builds_in(repo.files@);
        let ones = repo.files@.filter(|f: RepoFile| is_single(f));
        assert forall|b: int| 0 <= b < all.len() implies held(#[trigger] all[b]) == all[b] by {
            if b >= ones.len() {
                let s = sorted_stems(repo.files@)[b - ones.len()];
                assert(all[b] == whole(parts_of(repo.files@, s)));
            }
            assert(held(all[b]) =~= all[b]);
        }
        assert(all_parts(out@) =~= all);
    }
    out
}

/// Every loadable build among files, each with its weight where 64 bits hold it.
pub(crate) fn gather(published: &Vec<RepoFile>) -> (r: Vec<Build>)
    ensures
        all_parts(r@) == builds_in(published@).map_values(|p: Parts| held(p)),
{
    let ghost files = published@;
    let ghost p = |f: RepoFile| is_single(f);
    let ghost g = |f: RepoFile| single(f);
    let mut out: Vec<Build> = Vec::new();
    let mut names: Vec<String> = Vec::new();
    let mut i: usize = 0;
    proof {
        assert(files.take(0).filter(p).map_values(g) =~= Seq::empty());
        assert(all_parts(out@) =~= Seq::empty());
        assert(texts(names@) =~= stems(files.take(0)));
    }
    while i < published.len()
        invariant
            i <= files.len(),
            files == published@,
            p == (|f: RepoFile| is_single(f)),
            g == (|f: RepoFile| single(f)),
            all_parts(out@) == files.take(i as int).filter(p).map_values(g),
            texts(names@) == stems(files.take(i as int)),
        decreases files.len() - i,
    {
        let f = &published[i];
        proof {
            lemma_filter_take(files, p, i as int);
            assert(files.take(i + 1).drop_last() =~= files.take(i as int));
        }
        if f.is_a_build() {
            match shard_of(f.name.as_str()) {
                Some((stem, _)) => {
                    if !holds_text(&names, stem.as_str()) {
                        let ghost was = names@;
                        let ghost s = stem@;
                        names.push(stem);
                        proof {
                            assert(texts(names@) =~= texts(was).push(s));
                        }
                    }
                },
                None => {
                    let ghost was = out@;
                    let mut one: Vec<RepoFile> = Vec::new();
                    one.push(f.clone());
                    let b = Build { files: one, bytes: f.size_bytes };
                    proof {
                        assert(b.files@ =~= seq![*f]);
                        assert(parts_in(b) =~= single(*f));
                    }
                    out.push(b);
                    proof {
                        assert(all_parts(out@) =~= all_parts(was).push(single(*f)));
                    }
                },
            }
        }
        proof {
            assert(all_parts(out@) =~= files.take(i + 1).filter(p).map_values(g));
        }
        i += 1;
    }
    proof {
        assert(files.take(i as int) =~= files);
    }
    let ghost ones = all_parts(out@);
    let le = |a: &String, b: &String| -> (r: bool)
        ensures
            r == text_le(a@, b@),
        {
            !is_before(b.as_str(), a.as_str())
        };
    let ghost over = |a: String, b: String| text_le(a@, b@);
    let ghost read = |s: String| s@;
    let ghost loose = names@;
    let names = sort_with(names, le, Ghost(over));
    proof {
        lemma_sort_map(loose, read, over, |a: Seq<char>, b: Seq<char>| text_le(a, b));
        assert(loose.map_values(read) =~= texts(loose));
        assert(names@.map_values(read) =~= texts(names@));
    }
    let ghost h = |s: Seq<char>| held(whole(parts_of(files, s)));
    let ghost tail = sorted_stems(files).map_values(h);
    let mut n: usize = 0;
    proof {
        assert(ones + tail.take(0) =~= ones);
    }
    while n < names.len()
        invariant
            n <= names@.len(),
            files == published@,
            texts(names@) == sorted_stems(files),
            h == (|s: Seq<char>| held(whole(parts_of(files, s)))),
            tail == sorted_stems(files).map_values(h),
            all_parts(out@) == ones + tail.take(n as int),
        decreases names.len() - n,
    {
        proof {
            assert(sorted_stems(files)[n as int] == names@[n as int]@);
        }
        let parts = collect_parts(published, names[n].as_str());
        let bytes = weigh(&parts);
        let ghost was = out@;
        let b = Build { files: parts, bytes };
        proof {
            assert(parts_in(b) =~= tail[n as int]);
        }
        out.push(b);
        proof {
            assert(all_parts(out@) =~= all_parts(was).push(tail[n as int]));
            assert(tail.take(n + 1) =~= tail.take(n as int).push(tail[n as int]));
            assert(all_parts(out@) =~= ones + tail.take(n + 1));
        }
        n += 1;
    }
    proof {
        assert(tail.take(n as int) =~= tail);
        assert(all_parts(out@) =~= builds_in(files).map_values(|p: Parts| held(p)));
    }
    out
}

/// How a build ranks: what cannot be priced comes last rather than first.
pub open spec fn rank(p: Parts) -> nat {
    match p.bytes {
        Some(n) => n,
        None => u64::MAX as nat,
    }
}

/// The first of the smallest builds.
pub open spec fn smallest(s: Seq<Parts>) -> Option<Parts>
    decreases s.len(),
{
    if s.len() == 0 {
        None
    } else {
        match smallest(s.drop_last()) {
            Some(p) if rank(p) <= rank(s.last()) => Some(p),
            _ => Some(s.last()),
        }
    }
}

pub open spec fn opt_parts(b: Option<Build>) -> Option<Parts> {
    match b {
        Some(x) => Some(parts_in(x)),
        None => None,
    }
}

/// The smallest thing a provider here can actually load, whole.
///
/// Smallest rather than best-quality, because a pull that fits is worth more to
/// someone browsing than one that does not.
pub fn best_build(repo: &Repo) -> (r: Option<Build>)
    requires
        countable(repo.files@),
    ensures
        opt_parts(r) == smallest(builds_in(repo.files@)),
{
    let mut all = builds(repo);
    let ghost line = all_parts(all@);
    let ghost mut seen: int = 0;
    let mut best: Option<Build> = None;
    while all.len() > 0
        invariant
            0 <= seen <= line.len(),
            all_parts(all@) == line.skip(seen),
            opt_parts(best) == smallest(line.take(seen)),
        decreases all.len(),
    {
        let ghost was = all@;
        let next = all.remove(0);
        proof {
            assert(all_parts(was).len() == was.len());
            assert(line.skip(seen)[0] == parts_in(was[0]));
            assert forall|k: int| 0 <= k < all@.len() implies #[trigger] all_parts(all@)[k]
                == line.skip(seen + 1)[k] by {
                assert(all_parts(was)[k + 1] == line.skip(seen)[k + 1]);
            }
            assert(all_parts(all@) =~= line.skip(seen + 1));
            assert(line.take(seen + 1).drop_last() =~= line.take(seen));
            assert(line.take(seen + 1).last() == parts_in(next));
        }
        let keep = match &best {
            Some(b) => {
                let x: u64 = match b.bytes {
                    Some(n) => n,
                    None => 0xffff_ffff_ffff_ffff,
                };
                let y: u64 = match next.bytes {
                    Some(n) => n,
                    None => 0xffff_ffff_ffff_ffff,
                };
                x <= y
            },
            None => false,
        };
        if !keep {
            best = Some(next);
        }
        proof {
            seen = seen + 1;
        }
    }
    proof {
        assert(line.skip(seen).len() == 0);
        assert(line.take(seen) =~= line);
    }
    best
}

/// What is smallest is one of the builds, and none is smaller.
pub proof fn the_default_build_is_the_smallest(s: Seq<Parts>)
    ensures
        match smallest(s) {
            Some(p) => s.contains(p) && forall|i: int|
                0 <= i < s.len() ==> rank(p) <= rank(#[trigger] s[i]),
            None => s.len() == 0,
        },
    decreases s.len(),
{
    if s.len() > 0 {
        let t = s.drop_last();
        the_default_build_is_the_smallest(t);
        assert(s[s.len() - 1] == s.last());
        if t.len() > 0 {
            let p = smallest(t)->0;
            let k = t.index_of(p);
            assert(s[k] == p);
            assert forall|i: int| 0 <= i < s.len() implies rank(smallest(s)->0) <= rank(
                #[trigger] s[i],
            ) by {
                if i < t.len() {
                    assert(rank(p) <= rank(t[i]));
                }
            }
        }
    }
}

/// A build is whole: one that holds a part of a split build holds every part
/// of it that the repo publishes.
pub proof fn a_build_is_never_a_shard(files: Seq<RepoFile>, b: int, i: int, f: RepoFile)
    requires
        0 <= b < builds_in(files).len(),
        0 <= i < builds_in(files)[b].files.len(),
        stem_of(builds_in(files)[b].files[i]) is Some,
        files.contains(f),
        stem_of(f) == stem_of(builds_in(files)[b].files[i]),
    ensures
        builds_in(files)[b].files.contains(f),
{
    let p = |f: RepoFile| is_single(f);
    let ones = files.filter(p).map_values(|f: RepoFile| single(f));
    let part = builds_in(files)[b].files[i];
    lemma_filter_members(files, p);
    if b < ones.len() {
        assert(builds_in(files)[b] == single(files.filter(p)[b]));
        assert(part == files.filter(p)[b]);
        assert(p(files.filter(p)[b]));
    } else {
        let s = sorted_stems(files)[b - ones.len()];
        let q = |f: RepoFile| is_part_of(f, s);
        let le = |a: RepoFile, b: RepoFile| text_le(a.name@, b.name@);
        assert(builds_in(files)[b] == whole(parts_of(files, s)));
        lemma_filter_members(files, q);
        lemma_stable_sort_contains(files.filter(q), le, part);
        assert(parts_of(files, s).contains(part));
        assert(files.filter(q).contains(part));
        assert(q(part));
        lemma_stable_sort_contains(files.filter(q), le, f);
        assert(q(f));
        assert(files.filter(q).contains(f));
    }
}

/// What a repo's build would cost resident, before it exists here: the
/// published size, and always as a declared floor.
///
/// Nothing has been *measured*, because the model has never run here, and
/// nothing can be *computed*, because that reads files that are not here yet.
pub open spec fn declared(bytes: u64) -> Estimate {
    Estimate { bytes: Some(bytes), basis: Basis::Declared, samples: 0, spread_bytes: None }
}

/// Whether an optional fit is the one a build comes to.
pub open spec fn priced(f: Option<Fit>, bytes: Option<u64>, machine: Machine, disk: u64) -> bool {
    match (f, bytes) {
        (Some(x), Some(down)) => admitted(
            x,
            down,
            declared(down),
            machine,
            disk,
            DEFAULT_RESERVE_BYTES,
        ),
        (None, None) => true,
        _ => false,
    }
}

/// The fit of a build, where it has a price.
pub fn price_build(machine: &Machine, build: &Build, free_disk_bytes: u64) -> (r: Option<Fit>)
    ensures
        priced(r, build.bytes, *machine, free_disk_bytes),
{
    match build.bytes {
        Some(down) => {
            let estimate = Estimate {
                bytes: Some(down),
                basis: Basis::Declared,
                samples: 0,
                spread_bytes: None,
            };
            Some(assess(down, &estimate, machine, free_disk_bytes, DEFAULT_RESERVE_BYTES))
        },
        None => None,
    }
}

/// One search result, already priced.
#[derive(Debug)]
pub struct SearchHit {
    pub repo: String,
    pub downloads: u64,
    pub likes: u64,
    pub files: Vec<RepoFile>,
    pub needs_conversion: bool,
    pub provenance: Finding,
    /// `None` when the repo publishes no size for its best build, so nothing
    /// can be admitted. Not a zero-cost pull.
    pub fit: Option<Fit>,
}

#[derive(Debug)]
pub struct SearchDoc {
    pub schema: u32,
    pub query: String,
    pub hits: Vec<SearchHit>,
}

/// What a build weighs, where one is chosen and all of it is priced.
pub open spec fn best_bytes(files: Seq<RepoFile>) -> Option<nat> {
    match smallest(builds_in(files)) {
        Some(p) => p.bytes,
        None => None,
    }
}

/// Whether a hit is what a repo comes to.
pub open spec fn hit_of(h: SearchHit, r: Repo, machine: Machine, disk: u64) -> bool {
    &&& h.repo == r.id
    &&& h.downloads == r.downloads
    &&& h.likes == r.likes
    &&& h.files@ == r.files@
    &&& h.needs_conversion == r.only_safetensors()
    &&& lineage(h.provenance) == checked(opt_text(r.base_model), None)
    &&& match (h.fit, best_bytes(r.files@)) {
        (Some(f), Some(n)) => n <= u64::MAX && priced(Some(f), Some(n as u64), machine, disk),
        (None, None) => true,
        _ => false,
    }
}

/// A search's results, already priced against the disk that a file drop would
/// land on.
pub fn search(query: &str, repos: Vec<Repo>, machine: &Machine, free_disk_bytes: u64) -> (doc:
    SearchDoc)
    requires
        forall|i: int| 0 <= i < repos@.len() ==> countable((#[trigger] repos@[i]).files@),
    ensures
        doc.schema == SCHEMA,
        doc.query@ == query@,
        doc.hits@.len() == repos@.len(),
        forall|i: int|
            0 <= i < repos@.len() ==> hit_of(
                #[trigger] doc.hits@[i],
                repos@[i],
                *machine,
                free_disk_bytes,
            ),
{
    let ghost all = repos@;
    let mut rest = repos;
    let mut hits: Vec<SearchHit> = Vec::new();
    while rest.len() > 0
        invariant
            hits@.len() <= all.len(),
            rest@ == all.skip(hits@.len() as int),
            forall|i: int| 0 <= i < all.len() ==> countable((#[trigger] all[i]).files@),
            forall|i: int|
                0 <= i < hits@.len() ==> hit_of(
                    #[trigger] hits@[i],
                    all[i],
                    *machine,
                    free_disk_bytes,
                ),
        decreases rest.len(),
    {
        let ghost n = hits@.len() as int;
        let r = rest.remove(0);
        proof {
            assert(r == all[n]);
            assert(rest@ =~= all.skip(n + 1));
        }
        let provenance = match &r.base_model {
            Some(b) => check(Some(b.as_str()), None),
            None => check(None, None),
        };
        let best = best_build(&r);
        let fit = match &best {
            Some(b) => price_build(machine, b, free_disk_bytes),
            None => None,
        };
        let needs_conversion = r.needs_conversion();
        let h = SearchHit {
            repo: r.id,
            downloads: r.downloads,
            likes: r.likes,
            files: r.files,
            needs_conversion,
            provenance,
            fit,
        };
        proof {
            assert(hit_of(h, all[n], *machine, free_disk_bytes));
        }
        hits.push(h);
    }
    SearchDoc { schema: SCHEMA, query: query.to_owned(), hits }
}

/// Whether a hit publishes a file of a format, named in any case.
pub open spec fn has_format(h: SearchHit, want: Seq<char>) -> bool {
    exists|i: int|
        0 <= i < h.files@.len() && lowered(format_name((#[trigger] h.files@[i]).format)) == lowered(
            want,
        )
}

/// Only the hits that publish a format.
pub fn with_format(doc: SearchDoc, want: &str) -> (r: SearchDoc)
    ensures
        r.schema == doc.schema,
        r.query == doc.query,
        r.hits@ == doc.hits@.filter(|h: SearchHit| has_format(h, want@)),
{
    let ghost p = |h: SearchHit| has_format(h, want@);
    let ghost all = doc.hits@;
    let wanted = lower(want);
    let mut rest = doc.hits;
    let mut kept: Vec<SearchHit> = Vec::new();
    let ghost mut n: int = 0;
    while rest.len() > 0
        invariant
            0 <= n <= all.len(),
            rest@ == all.skip(n),
            wanted@ == lowered(want@),
            p == (|h: SearchHit| has_format(h, want@)),
            kept@ == all.take(n).filter(p),
        decreases rest.len(),
    {
        let h = rest.remove(0);
        proof {
            assert(h == all[n]);
            assert(rest@ =~= all.skip(n + 1));
            lemma_filter_take(all, p, n);
        }
        let mut found = false;
        let mut i: usize = 0;
        while i < h.files.len() && !found
            invariant
                i <= h.files@.len(),
                wanted@ == lowered(want@),
                found ==> has_format(h, want@),
                !found ==> forall|k: int|
                    0 <= k < i ==> lowered(format_name((#[trigger] h.files@[k]).format)) != lowered(
                        want@,
                    ),
            decreases h.files@.len() - i + (if found {
                0int
            } else {
                1
            }),
        {
            if same(lower(name_of_format(h.files[i].format)).as_str(), wanted.as_str()) {
                found = true;
            } else {
                i += 1;
            }
        }
        if found {
            kept.push(h);
        }
        proof {
            n = n + 1;
        }
    }
    proof {
        assert(all.take(n) =~= all);
    }
    SearchDoc { schema: doc.schema, query: doc.query, hits: kept }
}

/// Where a build would go, and how it would get there.
#[derive(Debug)]
pub struct Placement {
    pub store: Store,
    /// The directory a file drop lands in.
    pub target_dir: Option<String>,
    /// What Ollama would be asked to pull, for the transport that is not a
    /// file drop.
    pub registry_name: Option<String>,
    /// What the bytes end up on, to be priced.
    pub filesystem: String,
}

/// Where a build would go, in texts.
#[verifier::ext_equal]
pub struct Place {
    pub store: Store,
    pub target_dir: Option<Seq<char>>,
    pub registry_name: Option<Seq<char>>,
    pub filesystem: Seq<char>,
}

pub open spec fn place_of(p: Placement) -> Place {
    Place {
        store: p.store,
        target_dir: opt_text(p.target_dir),
        registry_name: opt_text(p.registry_name),
        filesystem: p.filesystem@,
    }
}

/// Where a build would go on a provider, or why it cannot.
pub open spec fn placed(
    provider: ProviderKind,
    repo_id: Seq<char>,
    build: Build,
    home: Option<&str>,
) -> Result<Place, Seq<char>> {
    if provider == ProviderKind::Ollama {
        match pull_name(repo_id, build) {
            Ok(name) => match home {
                Some(h) => Ok(
                    Place {
                        store: Store::Ollama,
                        target_dir: None,
                        registry_name: Some(name),
                        filesystem: under(h@, places(Store::Ollama)[0]),
                    },
                ),
                None => Err(absent_text(Store::Ollama)),
            },
            Err(reason) => Err(reason),
        }
    } else {
        match store_of(provider, build.files@[0].format) {
            Some(store) => match home {
                Some(h) => Ok(
                    Place {
                        store,
                        target_dir: Some(landing(store, repo_id, h@)),
                        registry_name: None,
                        filesystem: landing(store, repo_id, h@),
                    },
                ),
                None => Err(absent_text(store)),
            },
            None => Err(unserved_text(provider, build.files@[0].format)),
        }
    }
}

pub open spec fn absent_text(store: Store) -> Seq<char> {
    store_text(store) + "'s store is not present on this machine"@
}

pub open spec fn unserved_text(provider: ProviderKind, format: Format) -> Seq<char> {
    kind_text(provider) + " cannot serve a "@ + format_name(format) + " file from a directory"@
}

/// Where a build would go on a provider, or why it cannot: the one answer that
/// both a pull and a picker of destinations rest on.
pub fn placement(provider: ProviderKind, repo_id: &str, build: &Build, home: Option<&str>) -> (r:
    Result<Placement, String>)
    requires
        build.files@.len() > 0,
    ensures
        match r {
            Ok(p) => placed(provider, repo_id@, *build, home) == Ok::<Place, Seq<char>>(
                place_of(p),
            ),
            Err(e) => placed(provider, repo_id@, *build, home) == Err::<Place, Seq<char>>(e@),
        },
{
    if provider == ProviderKind::Ollama {
        let name = match transport_for(repo_id, build) {
            Ok(n) => n,
            Err(reason) => {
                return Err(reason);
            },
        };
        return match home {
            Some(h) => {
                let mut all = roots(Store::Ollama, h);
                proof {
                    assert(texts(all@).len() == 1);
                    assert(texts(all@)[0] == all@[0]@);
                }
                let p = Placement {
                    store: Store::Ollama,
                    target_dir: None,
                    registry_name: Some(name),
                    filesystem: all.remove(0),
                };
                proof {
                    assert(place_of(p) =~= (Place {
                        store: Store::Ollama,
                        target_dir: None,
                        registry_name: Some(name@),
                        filesystem: under(h@, places(Store::Ollama)[0]),
                    }));
                }
                Ok(p)
            },
            None => Err(
                cat2(Store::Ollama.as_str(), "'s store is not present on this machine"),
            ),
        };
    }
    let format = build.files[0].format;
    let store = match store_for(provider, format) {
        Some(s) => s,
        None => {
            return Err(
                cat4(
                    provider.as_str(),
                    " cannot serve a ",
                    name_of_format(format),
                    " file from a directory",
                ),
            );
        },
    };
    match directory_for(store, repo_id, home) {
        Some(dir) => {
            let p = Placement {
                store,
                target_dir: Some(dir.clone()),
                registry_name: None,
                filesystem: dir,
            };
            proof {
                assert(place_of(p) =~= placed(provider, repo_id@, *build, home)->Ok_0);
            }
            Ok(p)
        },
        None => Err(cat2(store.as_str(), "'s store is not present on this machine")),
    }
}

/// What a dry run answers, and what a pull reports when it finishes.
#[derive(Debug)]
pub struct AddDoc {
    pub schema: u32,
    pub verb: &'static str,
    pub repo: String,
    /// The build's label. A single filename, or "first (N parts)" for a split
    /// one: a build is the set, and naming one shard would understate it.
    pub file: String,
    /// Every file the pull must fetch, in order. One entry unless sharded.
    pub files: Vec<String>,
    pub provider: String,
    pub store: Option<String>,
    pub target_dir: Option<String>,
    /// What Ollama is asked to pull, for the transport that is not a file drop.
    pub registry_name: Option<String>,
    pub bytes: Option<u64>,
    pub provenance: Finding,
    /// Carried on the *result*, not only in the progress stream: a warning that
    /// scrolled past during an 8 GB download was never seen.
    pub warnings: Vec<String>,
    pub fit: Option<Fit>,
    pub outcome: AddOutcome,
}

#[derive(Debug)]
pub enum AddOutcome {
    /// A dry run: the whole verdict, nothing moved.
    Planned,
    Added { path: String },
    Refused { reason: String },
}

/// How a pull ended, in texts.
#[verifier::ext_equal]
pub enum Ending {
    Planned,
    Added { path: Seq<char> },
    Refused { reason: Seq<char> },
}

pub open spec fn ending(o: AddOutcome) -> Ending {
    match o {
        AddOutcome::Planned => Ending::Planned,
        AddOutcome::Added { path } => Ending::Added { path: path@ },
        AddOutcome::Refused { reason } => Ending::Refused { reason: reason@ },
    }
}

/// What a pull's document says of the build and the place, in texts.
#[verifier::ext_equal]
pub struct Chosen {
    pub file: Seq<char>,
    pub files: Seq<Seq<char>>,
    pub store: Option<Seq<char>>,
    pub target_dir: Option<Seq<char>>,
    pub registry_name: Option<Seq<char>>,
    pub bytes: Option<u64>,
    pub provenance: Lineage,
    pub warnings: Seq<Seq<char>>,
}

pub open spec fn chosen(d: AddDoc) -> Chosen {
    Chosen {
        file: d.file@,
        files: texts(d.files@),
        store: opt_text(d.store),
        target_dir: opt_text(d.target_dir),
        registry_name: opt_text(d.registry_name),
        bytes: d.bytes,
        provenance: lineage(d.provenance),
        warnings: texts(d.warnings@),
    }
}

/// A document that names nothing yet.
pub open spec fn blank(repo_id: Seq<char>) -> Chosen {
    Chosen {
        file: ""@,
        files: Seq::empty(),
        store: None,
        target_dir: None,
        registry_name: None,
        bytes: None,
        provenance: Lineage::Undeclared { expected: repo_id },
        warnings: Seq::empty(),
    }
}

/// A document of a repo that was read: its provenance, and a warning where a
/// person should see it. It warns and does not refuse.
pub open spec fn vetted(repo_id: Seq<char>, base: Option<Seq<char>>) -> Chosen {
    let l = checked(base, Some(repo_id));
    Chosen {
        provenance: l,
        warnings: if l is Declared {
            Seq::empty()
        } else {
            seq![lineage_text(l)]
        },
        ..blank(repo_id)
    }
}

/// Whether a file goes by a name.
pub open spec fn is_named(f: RepoFile, name: Seq<char>) -> bool {
    f.name@ == name
}

/// The build asked for: the file named, or the default.
pub open spec fn wanted(files: Seq<RepoFile>, want_file: Option<&str>) -> Option<Parts> {
    match want_file {
        Some(name) => match first_match(files, |f: RepoFile| is_named(f, name@)) {
            Some(f) => Some(single(f)),
            None => None,
        },
        None => smallest(builds_in(files)),
    }
}

/// Why a repo has no build to pull.
pub open spec fn no_build_text(repo: Repo, repo_id: Seq<char>) -> Seq<char> {
    if repo.only_safetensors() {
        "`"@ + repo_id
            + "` publishes only bf16 safetensors, which needs a conversion llm-harmony does not do yet"@
    } else {
        "`"@ + repo_id + "` publishes no GGUF or MLX build"@
    }
}

/// Why a build that is a part alone is not pulled, where it is one.
pub open spec fn part_alone(files: Seq<RepoFile>) -> Option<Seq<char>> {
    if files.len() == 1 {
        match shard(files[0].name@) {
            Some((_, n)) => Some(shard_text(files[0].name@, n)),
            None => None,
        }
    } else {
        None
    }
}

pub(crate) fn lone_part(build: &Build) -> (r: Option<String>)
    ensures
        opt_text(r) == part_alone(build.files@),
{
    if build.files.len() != 1 {
        return None;
    }
    match shard_of(build.files[0].name.as_str()) {
        Some((_, n)) => Some(
            cat5(
                "`",
                build.files[0].name.as_str(),
                "` is one part of a ",
                number(n as u64).as_str(),
                "-part build; ask for the build rather than a shard, or nothing will be able to load it",
            ),
        ),
        None => None,
    }
}

/// Why a part alone is not pulled.
pub open spec fn shard_text(name: Seq<char>, n: u32) -> Seq<char> {
    "`"@ + name + "` is one part of a "@ + decimal(n as nat)
        + "-part build; ask for the build rather than a shard, or nothing will be able to load it"@
}

pub open spec fn file_names(files: Seq<RepoFile>) -> Seq<Seq<char>> {
    files.map_values(|f: RepoFile| f.name@)
}

/// Where planning a pull stands once everything but the price is known.
#[derive(Debug)]
pub enum Planning {
    /// Refused, for a reason the document carries.
    Refused(AddDoc),
    /// A build and where it goes. What remains is to measure the disk under
    /// the place and to price the build against it.
    Placed { doc: AddDoc, build: Build, filesystem: String },
}

/// The store a document names: that of the provider, for the build's format.
pub open spec fn named_store(provider: ProviderKind, format: Format) -> Option<Seq<char>> {
    match store_of(provider, format) {
        Some(s) => Some(store_text(s)),
        None => None,
    }
}

/// Whether planning came to what it should.
pub open spec fn planned(
    p: Planning,
    read: Result<&Repo, &str>,
    repo_id: &str,
    want_file: Option<&str>,
    provider: ProviderKind,
    home: Option<&str>,
) -> bool {
    match read {
        Err(e) => p matches Planning::Refused(d) && refused_with(
            d,
            repo_id@,
            provider,
            blank(repo_id@),
            "could not read `"@ + repo_id@ + "`: "@ + e@,
        ),
        Ok(repo) => {
            let start = vetted(repo_id@, opt_text(repo.base_model));
            match wanted(repo.files@, want_file) {
                None => p matches Planning::Refused(d) && refused_with(
                    d,
                    repo_id@,
                    provider,
                    start,
                    no_build_text(*repo, repo_id@),
                ),
                Some(parts) => if part_alone(parts.files) is Some {
                    p matches Planning::Refused(d) && refused_with(
                        d,
                        repo_id@,
                        provider,
                        Chosen { file: parts.files[0].name@, ..start },
                        part_alone(parts.files)->0,
                    )
                } else {
                    let with_build = Chosen {
                        file: label_text(parts.files),
                        files: file_names(parts.files),
                        store: named_store(provider, parts.files[0].format),
                        ..start
                    };
                    match p {
                        Planning::Refused(d) => exists|b: Build| #[trigger]
                            parts_in(b) == parts && (placed(provider, repo_id@, b, home)
                                matches Err(e) && refused_with(
                                d,
                                repo_id@,
                                provider,
                                Chosen { bytes: b.bytes, ..with_build },
                                e,
                            )),
                        Planning::Placed { doc, build, filesystem } => {
                            &&& parts_in(build) == parts
                            &&& placed(provider, repo_id@, build, home) matches Ok(place)
                            &&& filesystem@ == place.filesystem
                            &&& headed(doc, repo_id@, provider)
                            &&& doc.fit is None
                            &&& chosen(doc) == (Chosen {
                                bytes: build.bytes,
                                store: Some(store_text(place.store)),
                                target_dir: place.target_dir,
                                registry_name: place.registry_name,
                                ..with_build
                            })
                        },
                    }
                },
            }
        },
    }
}

/// What every document of a pull starts with.
pub open spec fn headed(d: AddDoc, repo_id: Seq<char>, provider: ProviderKind) -> bool {
    &&& d.schema == SCHEMA
    &&& d.verb@ == "add"@
    &&& d.repo@ == repo_id
    &&& d.provider@ == kind_text(provider)
}

/// Whether a document is a refusal, with what was known by then.
pub open spec fn refused_with(
    d: AddDoc,
    repo_id: Seq<char>,
    provider: ProviderKind,
    known: Chosen,
    reason: Seq<char>,
) -> bool {
    &&& headed(d, repo_id, provider)
    &&& chosen(d) == known
    &&& d.fit is None
    &&& ending(d.outcome) == (Ending::Refused { reason })
}

fn blank_doc(repo_id: &str, provider: ProviderKind) -> (d: AddDoc)
    ensures
        headed(d, repo_id@, provider),
        chosen(d) == blank(repo_id@),
        d.fit is None,
{
    let d = AddDoc {
        schema: SCHEMA,
        verb: "add",
        repo: repo_id.to_owned(),
        file: "".to_owned(),
        files: Vec::new(),
        provider: provider.as_str().to_owned(),
        store: None,
        target_dir: None,
        registry_name: None,
        bytes: None,
        provenance: Finding::Undeclared { expected: repo_id.to_owned() },
        warnings: Vec::new(),
        fit: None,
        outcome: AddOutcome::Refused { reason: String::new() },
    };
    proof {
        assert(chosen(d) =~= blank(repo_id@));
    }
    d
}

fn find_file(files: &Vec<RepoFile>, name: &str) -> (r: Option<Build>)
    ensures
        opt_parts(r) == wanted(files@, Some(name)),
{
    let ghost p = |f: RepoFile| is_named(f, name@);
    let mut i: usize = 0;
    while i < files.len()
        invariant
            i <= files@.len(),
            p == (|f: RepoFile| is_named(f, name@)),
            forall|k: int| 0 <= k < i ==> !p(#[trigger] files@[k]),
        decreases files.len() - i,
    {
        if same(files[i].name.as_str(), name) {
            proof {
                lemma_first_index_is(files@, p, i as int);
            }
            let mut one: Vec<RepoFile> = Vec::new();
            one.push(files[i].clone());
            let b = Build { files: one, bytes: files[i].size_bytes };
            proof {
                assert(b.files@ =~= seq![files@[i as int]]);
                assert(parts_in(b) =~= single(files@[i as int]));
            }
            return Some(b);
        }
        i += 1;
    }
    proof {
        lemma_first_index_is(files@, p, i as int);
    }
    None
}

/// The build asked for: the file named, or the default.
pub fn choose_build(repo: &Repo, want_file: Option<&str>) -> (r: Option<Build>)
    requires
        countable(repo.files@),
    ensures
        opt_parts(r) == wanted(repo.files@, want_file),
        r matches Some(b) ==> b.files@.len() > 0,
{
    match want_file {
        Some(name) => find_file(&repo.files, name),
        None => {
            proof {
                lemma_builds_have_files(repo.files@);
                the_default_build_is_the_smallest(builds_in(repo.files@));
            }
            best_build(repo)
        },
    }
}

/// No build is without files.
proof fn lemma_builds_have_files(files: Seq<RepoFile>)
    ensures
        forall|b: int| 0 <= b < builds_in(files).len() ==> (#[trigger] builds_in(files)[b]).files.len()
            > 0,
{
    let p = |f: RepoFile| is_single(f);
    let ones = files.filter(p).map_values(|f: RepoFile| single(f));
    let names = stems(files);
    let by_text = |a: Seq<char>, b: Seq<char>| text_le(a, b);
    lemma_stems(files);
    assert forall|b: int| 0 <= b < builds_in(files).len() implies (
    #[trigger] builds_in(files)[b]).files.len() > 0 by {
        if b < ones.len() {
            assert(builds_in(files)[b] == single(files.filter(p)[b]));
        } else {
            let s = sorted_stems(files)[b - ones.len()];
            let q = |f: RepoFile| is_part_of(f, s);
            let le = |a: RepoFile, b: RepoFile| text_le(a.name@, b.name@);
            assert(sorted_stems(files).contains(s));
            lemma_stable_sort_contains(names, by_text, s);
            let i = choose|i: int| 0 <= i < files.len() && is_part_of(#[trigger] files[i], s);
            lemma_filter_members(files, q);
            assert(files.contains(files[i]));
            assert(q(files[i]));
            assert(files.filter(q).contains(files[i]));
            lemma_stable_sort(files.filter(q), le);
        }
    }
}

/// Every stem is that of a part.
proof fn lemma_stems(files: Seq<RepoFile>)
    ensures
        forall|s: Seq<char>| #[trigger]
            stems(files).contains(s) ==> exists|i: int|
                0 <= i < files.len() && is_part_of(#[trigger] files[i], s),
    decreases files.len(),
{
    if files.len() > 0 {
        let t = files.drop_last();
        lemma_stems(t);
        let before = stems(t);
        assert forall|s: Seq<char>| #[trigger] stems(files).contains(s) implies exists|i: int|
            0 <= i < files.len() && is_part_of(#[trigger] files[i], s) by {
            if before.contains(s) {
                let i = choose|i: int| 0 <= i < t.len() && is_part_of(#[trigger] t[i], s);
                assert(is_part_of(files[i], s));
            } else {
                let k = stems(files).index_of(s);
                if k < before.len() {
                    assert(before[k] == s);
                }
                assert(is_part_of(files[files.len() - 1], s));
            }
        }
    }
}

fn names_of_files(files: &Vec<RepoFile>) -> (r: Vec<String>)
    ensures
        texts(r@) == file_names(files@),
{
    let mut out: Vec<String> = Vec::new();
    let mut i: usize = 0;
    proof {
        assert(texts(out@) =~= file_names(files@).take(0));
    }
    while i < files.len()
        invariant
            i <= files@.len(),
            texts(out@) == file_names(files@).take(i as int),
        decreases files.len() - i,
    {
        let ghost was = out@;
        out.push(files[i].name.clone());
        proof {
            assert(texts(out@) =~= texts(was).push(files@[i as int].name@));
            assert(file_names(files@).take(i + 1) =~= file_names(files@).take(i as int).push(
                files@[i as int].name@,
            ));
        }
        i += 1;
    }
    proof {
        assert(file_names(files@).take(i as int) =~= file_names(files@));
    }
    out
}

/// Plan a pull, up to its price. Everything that can refuse before the disk is
/// measured, refuses here.
pub fn plan_add(
    read: Result<&Repo, &str>,
    repo_id: &str,
    want_file: Option<&str>,
    provider: ProviderKind,
    home: Option<&str>,
) -> (p: Planning)
    requires
        read matches Ok(repo) ==> countable(repo.files@),
    ensures
        planned(p, read, repo_id, want_file, provider, home),
{
    let mut doc = blank_doc(repo_id, provider);
    let repo = match read {
        Ok(r) => r,
        Err(e) => {
            doc.outcome = AddOutcome::Refused {
                reason: cat4("could not read `", repo_id, "`: ", e),
            };
            return Planning::Refused(doc);
        },
    };
    let ghost start = vetted(repo_id@, opt_text(repo.base_model));
    doc.provenance = match &repo.base_model {
        Some(b) => check(Some(b.as_str()), Some(repo_id)),
        None => check(None, Some(repo_id)),
    };
    if doc.provenance.is_warning() {
        let line = doc.provenance.message();
        let ghost said = line@;
        doc.warnings.push(line);
        proof {
            assert(texts(doc.warnings@) =~= seq![said]);
        }
    }
    proof {
        assert(chosen(doc) =~= start);
    }
    let build = match choose_build(repo, want_file) {
        Some(b) => b,
        None => {
            let reason = if repo.needs_conversion() {
                cat3(
                    "`",
                    repo_id,
                    "` publishes only bf16 safetensors, which needs a conversion llm-harmony does not do yet",
                )
            } else {
                cat3("`", repo_id, "` publishes no GGUF or MLX build")
            };
            doc.outcome = AddOutcome::Refused { reason };
            return Planning::Refused(doc);
        },
    };
    if let Some(reason) = lone_part(&build) {
        doc.file = build.files[0].name.clone();
        doc.outcome = AddOutcome::Refused { reason };
        proof {
            assert(chosen(doc) =~= (Chosen { file: build.files@[0].name@, ..start }));
        }
        return Planning::Refused(doc);
    }
    doc.file = build.label();
    doc.files = names_of_files(&build.files);
    doc.bytes = build.bytes;
    doc.store = match store_for(provider, build.files[0].format) {
        Some(s) => Some(s.as_str().to_owned()),
        None => None,
    };
    let ghost with_build = Chosen {
        file: label_text(build.files@),
        files: file_names(build.files@),
        store: named_store(provider, build.files@[0].format),
        ..start
    };
    proof {
        assert(chosen(doc) =~= (Chosen { bytes: build.bytes, ..with_build }));
    }
    match placement(provider, repo_id, &build, home) {
        Ok(place) => {
            doc.store = Some(place.store.as_str().to_owned());
            doc.target_dir = place.target_dir;
            doc.registry_name = place.registry_name;
            proof {
                assert(chosen(doc) =~= (Chosen {
                    bytes: build.bytes,
                    store: Some(store_text(place.store)),
                    target_dir: opt_text(place.target_dir),
                    registry_name: opt_text(place.registry_name),
                    ..with_build
                }));
            }
            Planning::Placed { doc, build, filesystem: place.filesystem }
        },
        Err(reason) => {
            doc.outcome = AddOutcome::Refused { reason };
            let p = Planning::Refused(doc);
            proof {
                assert(parts_in(build) == wanted(repo.files@, want_file)->0);
                assert(placed(provider, repo_id@, build, home) == Err::<Place, Seq<char>>(reason@));
            }
            p
        },
    }
}

/// How a placed pull ends, and what it warns of: disk is durable and memory is
/// not, so a build that lands but cannot load right now is planned with a
/// warning, and one that does not land is refused.
pub open spec fn admission(
    fit: Option<Fit>,
    label: Seq<char>,
    warnings: Seq<Seq<char>>,
) -> (Ending, Seq<Seq<char>>) {
    match fit {
        Some(f) => if f.verdict == Verdict::Fits {
            (Ending::Planned, warnings)
        } else if f.verdict == Verdict::FitsDiskOnly {
            (
                Ending::Planned,
                warnings.push(
                    "it will land, but nothing can load it as things stand: "@ + fit_text(f),
                ),
            )
        } else {
            (Ending::Refused { reason: fit_text(f) }, warnings)
        },
        None => (
            Ending::Refused {
                reason: "`"@ + label
                    + "` publishes no size for every part, so this cannot be admitted against disk or memory"@,
            },
            warnings,
        ),
    }
}

/// Finish planning a pull, against the disk under its place.
pub fn admit_add(doc: AddDoc, build: &Build, machine: &Machine, free_disk_bytes: u64) -> (r: AddDoc)
    ensures
        r.schema == doc.schema,
        r.verb == doc.verb,
        r.repo == doc.repo,
        r.provider == doc.provider,
        priced(r.fit, build.bytes, *machine, free_disk_bytes),
        chosen(r) == (Chosen {
            warnings: admission(r.fit, label_text(build.files@), texts(doc.warnings@)).1,
            ..chosen(doc)
        }),
        ending(r.outcome) == admission(r.fit, label_text(build.files@), texts(doc.warnings@)).0,
{
    let ghost before = chosen(doc);
    let mut r = doc;
    let fit = price_build(machine, build, free_disk_bytes);
    match &fit {
        Some(f) => {
            if f.ok() {
                r.outcome = AddOutcome::Planned;
            } else if f.verdict == Verdict::FitsDiskOnly {
                let line = cat2(
                    "it will land, but nothing can load it as things stand: ",
                    f.message().as_str(),
                );
                let ghost was = r.warnings@;
                let ghost said = line@;
                r.warnings.push(line);
                proof {
                    assert(texts(r.warnings@) =~= texts(was).push(said));
                }
                r.outcome = AddOutcome::Planned;
            } else {
                r.outcome = AddOutcome::Refused { reason: f.message() };
            }
        },
        None => {
            r.outcome = AddOutcome::Refused {
                reason: cat3(
                    "`",
                    build.label().as_str(),
                    "` publishes no size for every part, so this cannot be admitted against disk or memory",
                ),
            };
        },
    }
    r.fit = fit;
    proof {
        assert(chosen(r) =~= (Chosen {
            warnings: admission(r.fit, label_text(build.files@), texts(doc.warnings@)).1,
            ..before
        }));
    }
    r
}

/// One part without a published size leaves the build it belongs to without
/// one: a build is never priced on the parts that happen to say.
pub proof fn one_unpriced_part_unprices_the_build(files: Seq<RepoFile>, b: int, i: int)
    requires
        0 <= b < builds_in(files).len(),
        0 <= i < builds_in(files)[b].files.len(),
        builds_in(files)[b].files[i].size_bytes is None,
    ensures
        builds_in(files)[b].bytes is None,
        rank(builds_in(files)[b]) == u64::MAX,
{
    let ones = files.filter(|f: RepoFile| is_single(f)).map_values(|f: RepoFile| single(f));
    if b >= ones.len() {
        assert(builds_in(files)[b] == whole(
            parts_of(files, sorted_stems(files)[b - ones.len()]),
        ));
    } else {
        assert(builds_in(files)[b] == ones[b]);
    }
}

} // verus!
