//! What searching for a model and pulling one promise, in terms of what a repo
//! publishes and of what the documents hold.
use vstd::prelude::*;

use crate::actuate::laws::room_left;
use crate::estimate::estimator::{Basis, Estimate};
use crate::intake::destinations::{offered, pulled, Destination};
use crate::intake::fit::{admitted, Fit, Verdict};
use crate::intake::hf::{build_file, Repo, RepoFile};
use crate::intake::ollama::{pull_name, quant_shaped, tag_in, updates};
use crate::intake::place::{landing, store_of};
use crate::intake::provenance::{checked, Lineage};
use crate::intake::run::{
    admission, builds_in, chosen, ending, format_name, has_format, hit_of, is_part_of, is_single,
    label_text, parts_in, parts_of, planned, priced, rank, shard, size_of, smallest, sorted_stems,
    stem_of, stems, the_default_build_is_the_smallest, wanted, weight, whole, AddDoc, Build,
    Chosen, Planning, SearchHit,
};
use crate::inventory::artifact::{Format, Store};
use crate::inventory::identity::canonical;
use crate::inventory::name_laws::lemma_one_word_more;
use crate::memory::Machine;
use crate::provider::ProviderKind;
use crate::seqs::{lemma_filter_members, lemma_first_index, lemma_stable_sort_contains, total};
use crate::text::{
    all_digits, ascii_digit, cut_last, joined, lower_char, lowered, occurs, opt_text, rfind_from,
    split, starts, text_le, texts, trimmed, unsigned, upper_char, uppered, value_of,
};

verus! {

/// A pull is admitted by two ledgers, each by itself: it lands exactly when the
/// disk has room for what comes down, and loads exactly when what it costs
/// resident is known and no more than what is free beyond the reserve. What is
/// reported are those figures.
pub proof fn a_pull_is_held_to_two_ledgers(
    f: Fit,
    down: u64,
    estimate: Estimate,
    machine: Machine,
    disk: u64,
    reserve: u64,
)
    requires
        admitted(f, down, estimate, machine, disk, reserve),
    ensures
        ({
            let lands = down <= disk;
            let loads = estimate.bytes is Some && estimate.bytes->0 <= room_left(machine, reserve);
            &&& f.verdict == Verdict::Fits <==> lands && loads
            &&& f.verdict == Verdict::FitsDiskOnly <==> lands && !loads
            &&& f.verdict == Verdict::NoDisk <==> !lands && loads
            &&& f.verdict == Verdict::Neither <==> !lands && !loads
            &&& f.down_bytes == down
            &&& f.resident_bytes == estimate.bytes
            &&& f.free_disk_bytes == disk
            &&& f.free_memory_bytes == room_left(machine, reserve)
            &&& f.free_before_reserve_bytes == room_left(machine, 0)
            &&& f.reserve_bytes == reserve
            &&& f.machine_bytes == machine.total_bytes
            &&& estimate.basis == Basis::Measured ==> f.basis@ == "measured"@
            &&& estimate.basis == Basis::Computed ==> f.basis@ == "computed"@
            &&& estimate.basis == Basis::Declared ==> f.basis@ == "declared"@
        }),
{
}

/// A build is priced exactly when all of it has a size, and then on that size:
/// both as what comes down and, as a declared floor, as what it costs resident,
/// with eight gibibytes held back.
pub proof fn a_build_is_priced_on_its_size(
    f: Option<Fit>,
    bytes: Option<u64>,
    machine: Machine,
    disk: u64,
)
    requires
        priced(f, bytes, machine, disk),
    ensures
        f is Some <==> bytes is Some,
        f is Some ==> {
            &&& f->0.down_bytes == bytes->0
            &&& f->0.resident_bytes == bytes
            &&& f->0.free_disk_bytes == disk
            &&& f->0.reserve_bytes == 0x2_0000_0000
            &&& f->0.basis@ == "declared"@
            &&& f->0.verdict == Verdict::Fits || f->0.verdict == Verdict::FitsDiskOnly <==> bytes->0
                <= disk
            &&& f->0.verdict == Verdict::Fits || f->0.verdict == Verdict::NoDisk <==> bytes->0
                <= room_left(machine, 0x2_0000_0000)
        },
{
}

/// A placed pull is planned exactly when its size is known and the disk has room
/// for it; memory never refuses it. Where it could not be loaded as things stand
/// there is one warning more, and otherwise none.
pub proof fn only_the_disk_refuses_a_pull(
    r: AddDoc,
    doc: AddDoc,
    build: Build,
    machine: Machine,
    disk: u64,
)
    requires
        priced(r.fit, build.bytes, machine, disk),
        chosen(r) == (Chosen {
            warnings: admission(r.fit, label_text(build.files@), texts(doc.warnings@)).1,
            ..chosen(doc)
        }),
        ending(r.outcome) == admission(r.fit, label_text(build.files@), texts(doc.warnings@)).0,
    ensures
        r.outcome is Planned <==> build.bytes is Some && build.bytes->0 <= disk,
        r.outcome is Refused <==> !(build.bytes is Some && build.bytes->0 <= disk),
        r.warnings@.len() == doc.warnings@.len() + if r.outcome is Planned && build.bytes->0
            > room_left(machine, 0x2_0000_0000) {
            1int
        } else {
            0int
        },
        forall|k: int|
            0 <= k < doc.warnings@.len() ==> (#[trigger] r.warnings@[k])@ == doc.warnings@[k]@,
        r.file@ == doc.file@,
        texts(r.files@) == texts(doc.files@),
        r.bytes == doc.bytes,
        opt_text(r.store) == opt_text(doc.store),
        opt_text(r.target_dir) == opt_text(doc.target_dir),
        opt_text(r.registry_name) == opt_text(doc.registry_name),
{
    let w = chosen(r).warnings;
    assert(w == texts(r.warnings@));
    assert(texts(r.warnings@).len() == r.warnings@.len());
    assert(texts(doc.warnings@).len() == doc.warnings@.len());
    assert(chosen(r).file == chosen(doc).file);
    assert forall|k: int| 0 <= k < doc.warnings@.len() implies (#[trigger] r.warnings@[k])@
        == doc.warnings@[k]@ by {
        assert(texts(r.warnings@)[k] == r.warnings@[k]@);
        assert(texts(doc.warnings@)[k] == doc.warnings@[k]@);
    }
}

/// What files weigh together is known exactly when each of them says, and is
/// then what they say, added up one by one.
pub proof fn a_part_adds_its_size(files: Seq<RepoFile>, f: RepoFile)
    ensures
        weight(Seq::empty()) == Some(0nat),
        weight(files.push(f)) == match (weight(files), f.size_bytes) {
            (Some(n), Some(b)) => Some(n + b as nat),
            _ => None,
        },
        whole(files).files == files,
        whole(files).bytes == weight(files),
{
    let g = |x: RepoFile| size_of(x);
    let all = files.push(f);
    assert(all.drop_last() =~= files);
    assert forall|i: int| 0 <= i < files.len() implies #[trigger] files[i] == all[i] by {}
    assert(all[files.len() as int] == f);
    if weight(files) is None {
        let i = choose|i: int| 0 <= i < files.len() && (#[trigger] files[i]).size_bytes is None;
        assert(all[i].size_bytes is None);
    }
    assert(total(Seq::<RepoFile>::empty(), g) == 0);
}

proof fn lemma_stems_of(files: Seq<RepoFile>)
    ensures
        forall|s: Seq<char>| #[trigger]
            stems(files).contains(s) <==> exists|i: int|
                0 <= i < files.len() && is_part_of(#[trigger] files[i], s),
    decreases files.len(),
{
    if files.len() > 0 {
        let t = files.drop_last();
        lemma_stems_of(t);
        let before = stems(t);
        let all = stems(files);
        let last = files.len() - 1;
        assert forall|s: Seq<char>| #[trigger] all.contains(s) <==> exists|i: int|
            0 <= i < files.len() && is_part_of(#[trigger] files[i], s) by {
            if all.contains(s) {
                if before.contains(s) {
                    let i = choose|i: int| 0 <= i < t.len() && is_part_of(#[trigger] t[i], s);
                    assert(is_part_of(files[i], s));
                } else {
                    let k = all.index_of(s);
                    if k < before.len() {
                        assert(before[k] == s);
                    }
                    assert(is_part_of(files[last], s));
                }
            }
            if exists|i: int| 0 <= i < files.len() && is_part_of(#[trigger] files[i], s) {
                let i = choose|i: int| 0 <= i < files.len() && is_part_of(#[trigger] files[i], s);
                if i < t.len() {
                    assert(is_part_of(t[i], s));
                    assert(before.contains(s));
                    let k = before.index_of(s);
                    assert(all[k] == s);
                } else {
                    if before.contains(s) {
                        let k = before.index_of(s);
                        assert(all[k] == s);
                    } else {
                        assert(all[before.len() as int] == s);
                    }
                }
            }
        }
    }
}

/// Every file that is a build, or a part of one, is in one of a repo's builds: by
/// itself, or with every part that goes by the same stem and nothing else. No
/// other file is in any.
pub proof fn every_build_file_is_in_a_build(files: Seq<RepoFile>, f: RepoFile)
    requires
        files.contains(f),
    ensures
        (exists|b: int|
            0 <= b < builds_in(files).len() && (#[trigger] builds_in(files)[b]).files.contains(f))
            <==> build_file(f),
        build_file(f) && shard(f.name@) is None ==> exists|b: int|
            0 <= b < builds_in(files).len() && (#[trigger] builds_in(files)[b]).files == seq![f]
                && builds_in(files)[b].bytes == match f.size_bytes {
                Some(n) => Some(n as nat),
                None => None,
            },
{
    let p = |x: RepoFile| is_single(x);
    let ones = files.filter(p);
    let all = builds_in(files);
    let by_text = |a: Seq<char>, b: Seq<char>| text_le(a, b);
    let le = |a: RepoFile, b: RepoFile| text_le(a.name@, b.name@);
    lemma_filter_members(files, p);
    lemma_stems_of(files);
    if is_single(f) {
        assert(p(f));
        assert(ones.contains(f));
        let b = ones.index_of(f);
        assert(all[b] == crate::intake::run::single(f));
        assert(all[b].files[0] == f);
        assert(all[b].files.contains(f));
    } else if build_file(f) {
        let s = stem_of(f)->0;
        let i = files.index_of(f);
        assert(is_part_of(files[i], s));
        assert(stems(files).contains(s));
        lemma_stable_sort_contains(stems(files), by_text, s);
        let k = sorted_stems(files).index_of(s);
        let b = ones.len() + k;
        assert(all[b] == whole(parts_of(files, s)));
        let q = |x: RepoFile| is_part_of(x, s);
        lemma_filter_members(files, q);
        assert(q(f));
        assert(files.filter(q).contains(f));
        lemma_stable_sort_contains(files.filter(q), le, f);
        assert(all[b].files.contains(f));
    }
    if exists|b: int| 0 <= b < all.len() && (#[trigger] all[b]).files.contains(f) {
        let b = choose|b: int| 0 <= b < all.len() && (#[trigger] all[b]).files.contains(f);
        if b < ones.len() {
            assert(all[b] == crate::intake::run::single(ones[b]));
            assert(ones.contains(ones[b]));
            assert(p(ones[b]));
            let i = all[b].files.index_of(f);
            assert(f == ones[b]);
        } else {
            let s = sorted_stems(files)[b - ones.len()];
            assert(all[b] == whole(parts_of(files, s)));
            let q = |x: RepoFile| is_part_of(x, s);
            lemma_filter_members(files, q);
            lemma_stable_sort_contains(files.filter(q), le, f);
            assert(q(f));
        }
    }
}

/// The build that is pulled by default is the lightest of those with a known
/// size, and one without comes only where none has one that is less than the
/// most there can be.
pub proof fn the_default_build_is_the_lightest(files: Seq<RepoFile>)
    ensures
        match smallest(builds_in(files)) {
            Some(p) => {
                &&& builds_in(files).contains(p)
                &&& forall|i: int|
                    0 <= i < builds_in(files).len() && (#[trigger] builds_in(files)[i]).bytes is Some
                        && builds_in(files)[i].bytes->0 < u64::MAX ==> p.bytes is Some && p.bytes->0
                        <= builds_in(files)[i].bytes->0
            },
            None => builds_in(files).len() == 0,
        },
{
    let all = builds_in(files);
    the_default_build_is_the_smallest(all);
    if let Some(p) = smallest(all) {
        assert forall|i: int|
            0 <= i < all.len() && (#[trigger] all[i]).bytes is Some && all[i].bytes->0
                < u64::MAX implies p.bytes is Some && p.bytes->0 <= all[i].bytes->0 by {
            assert(rank(p) <= rank(all[i]));
        }
    }
}

/// A hit says of a repo what the repo does, and is priced on its default build:
/// exactly when that has a size.
pub proof fn a_hit_is_what_its_repo_says(h: SearchHit, r: Repo, machine: Machine, disk: u64)
    requires
        hit_of(h, r, machine, disk),
    ensures
        h.repo == r.id,
        h.downloads == r.downloads,
        h.likes == r.likes,
        h.files@ == r.files@,
        h.fit is Some <==> (smallest(builds_in(r.files@)) matches Some(p) && p.bytes is Some),
        h.fit is Some ==> h.fit->0.down_bytes == smallest(builds_in(r.files@))->0.bytes->0,
        h.provenance is Declared <==> r.base_model is Some && trimmed(r.base_model->0@).len() > 0,
        h.provenance is Undeclared <==> !(r.base_model is Some && trimmed(
            r.base_model->0@,
        ).len() > 0),
{
}

/// What is pulled is what was asked for: with a file named, the first file of
/// that name and nothing else, as long as it is no part of a split build; without
/// one, the default build. The document names the repo, the provider and every
/// file of the build, at its size. Where the repo could not be read, where it
/// has no such build, and where a part is asked for alone, it is refused.
pub proof fn a_pull_is_of_what_was_asked_for(
    p: Planning,
    read: Result<&Repo, &str>,
    repo_id: &str,
    want_file: Option<&str>,
    provider: ProviderKind,
    home: Option<&str>,
)
    requires
        planned(p, read, repo_id, want_file, provider, home),
    ensures
        read is Err ==> p is Refused,
        p matches Planning::Refused(d) ==> d.outcome is Refused,
        read matches Ok(repo) ==> {
            &&& p matches Planning::Placed { doc, build, filesystem } ==> {
                &&& want_file matches Some(name) ==> build.files@.len() == 1
                    && build.files@[0].name@ == name@ && repo.files@.contains(build.files@[0])
                    && shard(name@) is None && build.bytes == build.files@[0].size_bytes
                &&& want_file is None ==> smallest(builds_in(repo.files@)) is Some && build.files@
                    == smallest(builds_in(repo.files@))->0.files
                &&& doc.repo@ == repo_id@
                &&& doc.bytes == build.bytes
                &&& doc.files@.len() == build.files@.len()
                &&& forall|k: int|
                    0 <= k < build.files@.len() ==> (#[trigger] doc.files@[k])@
                        == build.files@[k].name@
                &&& doc.fit is None
            }
            &&& want_file is Some && (forall|i: int|
                0 <= i < repo.files@.len() ==> (#[trigger] repo.files@[i]).name@ != want_file->0@)
                ==> p is Refused
            &&& want_file is Some && shard(want_file->0@) is Some ==> p is Refused
            &&& want_file is None && builds_in(repo.files@).len() == 0 ==> p is Refused
        },
{
    if let Ok(repo) = read {
        the_default_build_is_the_smallest(builds_in(repo.files@));
        if let Some(name) = want_file {
            let q = |f: RepoFile| crate::intake::run::is_named(f, name@);
            lemma_first_index(repo.files@, q);
            let i = crate::seqs::first_index(repo.files@, q);
            if i < repo.files@.len() {
                assert(q(repo.files@[i]));
                assert(repo.files@.contains(repo.files@[i]));
                let one = crate::intake::run::single(repo.files@[i]);
                assert(wanted(repo.files@, want_file) == Some(one));
                assert(one.files.len() == 1 && one.files[0] == repo.files@[i]);
            }
        }
        if let Planning::Placed { doc, build, filesystem } = p {
            let parts = wanted(repo.files@, want_file)->0;
            assert(parts_in(build) == parts);
            assert(chosen(doc).files == texts(doc.files@));
            assert(texts(doc.files@).len() == doc.files@.len());
            assert forall|k: int| 0 <= k < build.files@.len() implies (#[trigger] doc.files@[k])@
                == build.files@[k].name@ by {
                assert(texts(doc.files@)[k] == doc.files@[k]@);
                assert(crate::intake::run::file_names(parts.files)[k] == parts.files[k].name@);
            }
        }
    }
}

/// A file goes to a store of the provider that can serve its format: a GGUF for
/// LM Studio or llama.cpp and an MLX build for LM Studio or vLLM, and nothing for
/// any other pair.
pub proof fn a_file_goes_where_its_format_is_served(provider: ProviderKind, format: Format)
    ensures
        store_of(provider, format) is Some <==> {
            ||| provider == ProviderKind::LmStudio && (format == Format::Gguf || format
                == Format::Mlx)
            ||| provider == ProviderKind::LlamaCpp && format == Format::Gguf
            ||| provider == ProviderKind::Vllm && format == Format::Mlx
        },
        store_of(provider, format) matches Some(s) ==> {
            &&& provider == ProviderKind::LmStudio ==> s == Store::LmStudio
            &&& provider == ProviderKind::LlamaCpp ==> s == Store::LlamaCpp
            &&& provider == ProviderKind::Vllm ==> s == Store::Vllm
        },
{
}

/// A lineage is what a repo declares against what was asked for: nothing where it
/// declares nothing but blanks, a mismatch exactly where something was asked for
/// that goes by another name, and otherwise what it declares.
pub proof fn a_mismatch_takes_two_names(declared: Option<Seq<char>>, expected: Option<Seq<char>>)
    ensures
        ({
            let says = declared is Some && trimmed(declared->0).len() > 0;
            let l = checked(declared, expected);
            &&& l is Undeclared <==> !says
            &&& l is Mismatch <==> says && expected is Some && canonical(declared->0) != canonical(
                expected->0,
            )
            &&& l is Declared <==> says && (expected is None || canonical(declared->0) == canonical(
                expected->0,
            ))
            &&& l matches Lineage::Declared { base_model } ==> base_model == declared->0
            &&& l matches Lineage::Mismatch { declared: d, expected: e } ==> d == declared->0 && e
                == expected->0
            &&& l matches Lineage::Undeclared { expected: e } ==> (expected is Some ==> e
                == expected->0) && (expected is None ==> e.len() == 0)
        }),
{
}

/// A part of a split build is named by a stem, which part it is and how many
/// there are. A name of that form is of that stem and that many parts, unless it
/// is one of one, which is a whole build; and no other name is that of a part.
#[verifier::rlimit(40)]
pub proof fn a_part_is_named_by_its_place(stem: Seq<char>, index: Seq<char>, count: Seq<char>)
    requires
        index.len() > 0,
        count.len() > 0,
        all_digits(index),
        all_digits(count),
        value_of(index) <= u32::MAX,
        value_of(count) <= u32::MAX,
    ensures
        value_of(count) >= 2 ==> shard(stem + "-"@ + index + "-of-"@ + count + ".gguf"@) == Some(
            (stem, value_of(count) as u32),
        ),
        value_of(count) < 2 ==> shard(stem + "-"@ + index + "-of-"@ + count + ".gguf"@) is None,
{
    reveal_strlit("-");
    reveal_strlit("-of-");
    reveal_strlit(".gguf");
    let head = stem + "-"@ + index;
    let body = head + "-of-"@ + count;
    let name = body + ".gguf"@;
    assert(name.subrange(name.len() - 5, name.len() as int) =~= ".gguf"@);
    assert(name.take(name.len() - 5) =~= body);
    lemma_cut_count(head, count);
    lemma_cut_index(stem, index);
    assert(index[0] != '+' && count[0] != '+') by {
        assert(ascii_digit(index[0]) && ascii_digit(count[0]));
    }
}

proof fn lemma_cut_count(head: Seq<char>, count: Seq<char>)
    requires
        count.len() > 0,
        all_digits(count),
    ensures
        cut_last(head + "-of-"@ + count, "-of-"@) == Some((head, count)),
{
    reveal_strlit("-of-");
    let body = head + "-of-"@ + count;
    let of = head.len() as int;
    assert(body.subrange(of, of + 4) =~= "-of-"@);
    assert forall|j: int| of < j <= body.len() - 4 implies !#[trigger] occurs(body, "-of-"@, j) by {
        if occurs(body, "-of-"@, j) {
            assert(body.subrange(j, j + 4)[0] == body[j]);
            assert(body.subrange(j, j + 4)[1] == body[j + 1]);
            if j >= of + 4 {
                assert(body[j] == count[j - of - 4]);
                assert(ascii_digit(count[j - of - 4]));
            } else if j == of + 3 {
                assert(body[j + 1] == count[0]);
                assert(ascii_digit(count[0]));
            }
        }
    }
    lemma_cut_last_at(body, "-of-"@, of);
    assert(body.take(of) =~= head);
    assert(body.skip(of + 4) =~= count);
}

proof fn lemma_cut_index(stem: Seq<char>, index: Seq<char>)
    requires
        all_digits(index),
    ensures
        cut_last(stem + "-"@ + index, "-"@) == Some((stem, index)),
{
    reveal_strlit("-");
    let head = stem + "-"@ + index;
    let h = stem.len() as int;
    assert(head.subrange(h, h + 1) =~= "-"@);
    assert forall|j: int| h < j <= head.len() - 1 implies !#[trigger] occurs(head, "-"@, j) by {
        if occurs(head, "-"@, j) {
            assert(head.subrange(j, j + 1)[0] == head[j]);
            assert(head[j] == index[j - h - 1]);
            assert(ascii_digit(index[j - h - 1]));
        }
    }
    lemma_cut_last_at(head, "-"@, h);
    assert(head.take(h) =~= stem);
    assert(head.skip(h + 1) =~= index);
}

proof fn lemma_cut_last_at(s: Seq<char>, p: Seq<char>, i: int)
    requires
        occurs(s, p, i),
        forall|j: int| i < j <= s.len() - p.len() ==> !#[trigger] occurs(s, p, j),
    ensures
        cut_last(s, p) == Some((s.take(i), s.skip(i + p.len()))),
{
    lemma_rfind_at(s, p, s.len() - p.len(), i);
}

proof fn lemma_rfind_at(s: Seq<char>, p: Seq<char>, from: int, i: int)
    requires
        occurs(s, p, i),
        i <= from <= s.len() - p.len(),
        forall|j: int| i < j <= s.len() - p.len() ==> !#[trigger] occurs(s, p, j),
    ensures
        rfind_from(s, p, from) == Some(i),
    decreases from - i,
{
    if from > i {
        lemma_rfind_at(s, p, from - 1, i);
    }
}

proof fn lemma_rfind(s: Seq<char>, p: Seq<char>, from: int)
    ensures
        rfind_from(s, p, from) matches Some(i) ==> 0 <= i <= from && occurs(s, p, i),
    decreases from + 1,
{
    if from >= 0 && !occurs(s, p, from) {
        lemma_rfind(s, p, from - 1);
    }
}

/// Whatever is taken for a part is named as one: its stem, a number, how many
/// there are and the extension.
#[verifier::rlimit(40)]
pub proof fn only_a_numbered_name_is_a_part(name: Seq<char>) -> (r: (Seq<char>, Seq<char>))
    requires
        shard(name) is Some,
    ensures
        name == (shard(name)->0).0 + "-"@ + r.0 + "-of-"@ + r.1 + ".gguf"@,
        unsigned(r.0) is Some,
        unsigned(r.1) == Some((shard(name)->0).1 as nat),
        (shard(name)->0).1 >= 2,
{
    let body = crate::text::before_suffix(name, ".gguf"@)->0;
    lemma_rfind(body, "-of-"@, body.len() - "-of-"@.len());
    let (head, count) = cut_last(body, "-of-"@)->0;
    lemma_rfind(head, "-"@, head.len() - "-"@.len());
    let (stem, index) = cut_last(head, "-"@)->0;
    lemma_put_together(body, "-of-"@, head.len() as int);
    lemma_put_together(head, "-"@, stem.len() as int);
    lemma_put_together(name, ".gguf"@, body.len() as int);
    assert(name.skip(body.len() + ".gguf"@.len() as int) =~= Seq::<char>::empty());
    assert(name =~= stem + "-"@ + index + "-of-"@ + count + ".gguf"@);
    (index, count)
}

proof fn lemma_put_together(s: Seq<char>, p: Seq<char>, i: int)
    requires
        occurs(s, p, i),
    ensures
        s == s.take(i) + p + s.skip(i + p.len()),
{
    assert forall|k: int| 0 <= k < s.len() implies #[trigger] s[k] == (s.take(i) + p + s.skip(
        i + p.len(),
    ))[k] by {
        if i <= k < i + p.len() {
            assert(s.subrange(i, i + p.len())[k - i] == s[k]);
        }
    }
    assert(s =~= s.take(i) + p + s.skip(i + p.len()));
}

/// Ollama pulls one GGUF file through its repo's id, and nothing else: no other
/// format and no split build.
pub proof fn ollama_pulls_one_gguf(repo_id: Seq<char>, build: Build)
    ensures
        pull_name(repo_id, build) is Ok <==> build.files@.len() == 1 && build.files@[0].format
            == Format::Gguf,
        pull_name(repo_id, build) is Ok ==> {
            let tag = tag_in(build.files@[0].name@);
            &&& tag is None ==> pull_name(repo_id, build)->Ok_0 == "hf.co/"@ + repo_id
            &&& tag is Some ==> pull_name(repo_id, build)->Ok_0 == "hf.co/"@ + repo_id + ":"@
                + tag->0
        },
{
}

/// The tag a file is pulled by is the quantisation at the end of its name, in
/// capitals: of a stem, a word that starts as a quantisation does and the
/// extension, it is that word, with the `UD` before it where one is.
#[verifier::rlimit(40)]
pub proof fn a_tag_is_the_quantisation_of_the_name(stem: Seq<char>, q: Seq<char>)
    requires
        !q.contains('-'),
        q.len() > 1,
        q[0] == 'Q' || q[0] == 'q',
        ascii_digit(q[1]),
        split(stem, '-').len() > 0,
        uppered(split(stem, '-').last()) != "UD"@,
    ensures
        tag_in(stem + "-"@ + q + ".gguf"@) == Some(uppered(q)),
{
    reveal_strlit("-");
    reveal_strlit(".gguf");
    reveal_strlit("IQ");
    reveal_strlit("Q");
    reveal_strlit("BF16");
    reveal_strlit("F16");
    reveal_strlit("F32");
    let body = stem + "-"@ + q;
    let name = body + ".gguf"@;
    assert(name.subrange(name.len() - 5, name.len() as int) =~= ".gguf"@);
    assert(name.take(name.len() - 5) =~= body);
    lemma_one_word_more(stem, q);
    let words = split(body, '-');
    assert(words == split(stem, '-').push(q));
    let u = uppered(q);
    assert(u[0] == 'Q');
    assert(u[1] == q[1]);
    assert(u.subrange(0, 1) =~= "Q"@);
    assert(!starts(u, "IQ"@)) by {
        if starts(u, "IQ"@) {
            assert(u.subrange(0, 2)[0] == "IQ"@[0]);
        }
    }
    assert(u.skip(1)[0] == u[1]);
    assert(quant_shaped(q));
    let n = words.len() - 1;
    assert(words[n - 1] == split(stem, '-').last());
    assert(words.skip(n) =~= seq![q]);
    assert(joined(seq![q], "-"@) == q);
}

/// Where a build would go: to Ollama by a registry name and into no directory;
/// to any other provider that serves its format into a directory of its store
/// and under no registry name. Without a home there is nowhere, and a part alone
/// goes nowhere.
pub proof fn a_build_goes_by_name_or_into_a_directory(
    provider: ProviderKind,
    repo_id: Seq<char>,
    build: Build,
    home: Option<&str>,
)
    requires
        build.files@.len() > 0,
    ensures
        pulled(provider, repo_id, build, home) is Ok <==> {
            &&& home is Some
            &&& build.files@.len() != 1 || shard(build.files@[0].name@) is None
            &&& provider == ProviderKind::Ollama ==> build.files@.len() == 1
                && build.files@[0].format == Format::Gguf
            &&& provider != ProviderKind::Ollama ==> store_of(
                provider,
                build.files@[0].format,
            ) is Some
        },
        pulled(provider, repo_id, build, home) matches Ok(p) ==> {
            &&& provider == ProviderKind::Ollama ==> p.store == Store::Ollama && p.target_dir is None
                && p.registry_name is Some && p.registry_name->0 == pull_name(repo_id, build)->Ok_0
            &&& provider != ProviderKind::Ollama ==> Some(p.store) == store_of(
                provider,
                build.files@[0].format,
            ) && p.registry_name is None && p.target_dir == Some(
                landing(p.store, repo_id, home->0@),
            ) && p.filesystem == landing(p.store, repo_id, home->0@)
        },
{
}

/// A destination is offered exactly where a pull would go, with that place and
/// the build's own price, and otherwise with the reason and nothing else.
pub proof fn a_destination_is_offered_where_a_pull_would_go(
    d: Destination,
    provider: ProviderKind,
    repo_id: Seq<char>,
    build: Build,
    home: Option<&str>,
    machine: Machine,
    disk: u64,
)
    requires
        offered(d, provider, repo_id, build, home, machine, disk),
    ensures
        d.ok <==> pulled(provider, repo_id, build, home) is Ok,
        d.ok ==> d.reason@ == ""@ && d.store is Some && (d.fit is Some <==> build.bytes is Some),
        d.ok && d.fit is Some ==> d.fit->0.down_bytes == build.bytes->0 && d.fit->0.free_disk_bytes
            == disk,
        d.ok ==> (d.registry_name is Some <==> provider == ProviderKind::Ollama) && (
        d.target_dir is Some <==> provider != ProviderKind::Ollama),
        !d.ok ==> d.store is None && d.target_dir is None && d.registry_name is None
            && d.fit is None,
{
}

/// One more byte of a stream of progress: a line end or a carriage return closes
/// the update that is open, which is kept unless it is blank, and any other byte
/// goes on with it.
pub proof fn a_line_end_closes_an_update(bytes: Seq<u8>, b: u8)
    ensures
        updates(Seq::empty()) == (Seq::<Seq<char>>::empty(), Seq::<char>::empty()),
        b != 10 && b != 13 ==> updates(bytes.push(b)) == (
            updates(bytes).0,
            updates(bytes).1.push(b as char),
        ),
        b == 10 || b == 13 ==> updates(bytes.push(b)).1.len() == 0 && updates(bytes.push(b)).0
            == if trimmed(updates(bytes).1).len() > 0 {
            updates(bytes).0.push(updates(bytes).1)
        } else {
            updates(bytes).0
        },
{
    assert(bytes.push(b).drop_last() =~= bytes);
}

/// A hit is of a format exactly when one of its files is, the format named in
/// any case.
pub proof fn a_hit_has_the_formats_of_its_files(h: SearchHit, want: Seq<char>)
    ensures
        has_format(h, uppered(want)) <==> has_format(h, want),
        forall|i: int|
            0 <= i < h.files@.len() ==> has_format(h, format_name((#[trigger] h.files@[i]).format)),
        h.files@.len() == 0 ==> !has_format(h, want),
{
    assert(lowered(uppered(want)) =~= lowered(want)) by {
        assert forall|i: int| 0 <= i < want.len() implies #[trigger] lowered(uppered(want))[i]
            == lowered(want)[i] by {
            assert(uppered(want)[i] == upper_char(want[i]));
            assert(lower_char(upper_char(want[i])) == lower_char(want[i]));
        }
    }
}

} // verus!
