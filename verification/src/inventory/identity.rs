//! Which files are builds of one model.
use vstd::prelude::*;

use crate::inventory::artifact::{Artifact, ArtifactId, Provenance};
use crate::inventory::graph::{
    a_group_is_an_allocation, groups_of, holds, holds_id, keys_of, lists, shared, Graph,
};
use crate::inventory::ids_distinct;
use crate::inventory::naming::{
    lemma_case, lemma_extension, lemma_plain, lemma_publisher, lower_case,
};
use crate::seqs::{
    lemma_filter_map_members, lemma_filter_map_order, lemma_filter_members, lemma_filter_take,
    lemma_sort_keeps_apart, lemma_sort_map, lemma_stable_sort_contains, sort_with, stable_sort,
};
use crate::text::{
    all_digits, ascii_digit, ascii_letter, before_suffix, byte_len, chars, cut_first, is_before,
    is_digit, is_letter, join, joined, lemma_split_len, lower, lowered, same, split, split_on,
    split_once, strip_back, strip_ends, strip_front, strip_prefix, strip_suffix, text_le, texts,
    trim_end_matches, trimmed_end, uppered, width,
};

verus! {

/// A logical model, and the artifacts that are builds of it.
#[derive(Debug)]
pub struct ModelIdentity {
    pub canonical: String,
    pub artifacts: Vec<ArtifactId>,
    /// Always `Inferred`: no conversion has been performed, so no lineage is
    /// recorded. Placement must refuse to act on an inferred identity without
    /// an explicit override.
    pub provenance: Provenance,
}

/// The markers that say how a model was built.
pub open spec fn markers() -> Seq<Seq<char>> {
    seq![
        "gguf"@,
        "mlx"@,
        "imatrix"@,
        "awq"@,
        "gptq"@,
        "fp8"@,
        "bnb"@,
        "bitsandbytes"@,
        "bf16"@,
        "fp16"@,
        "f16"@,
        "int4"@,
        "int8"@,
        "ud"@,
        "mtp"@,
    ]
}

/// The alphabet a quantisation name is written in.
pub open spec fn quant_char(c: char) -> bool {
    ascii_digit(c) || ascii_letter(c) || c == '_'
}

/// `8_0`, `4_k_m`, `2_xxs`: a digit, then only that alphabet.
pub open spec fn quant_tail(s: Seq<char>) -> bool {
    s.len() > 0 && ascii_digit(s[0]) && forall|i: int| 1 <= i < s.len() ==> quant_char(#[trigger] s[i])
}

/// `q8_0`, `q4_k_m`, `iq2_xxs`.
pub open spec fn quant_name(t: Seq<char>) -> bool {
    match crate::text::after_prefix(t, "iq"@) {
        Some(r) => quant_tail(r),
        None => match crate::text::after_prefix(t, "q"@) {
            Some(r) => quant_tail(r),
            None => false,
        },
    }
}

/// `4bit`, `6bit`, `8bit`.
pub open spec fn bit_name(t: Seq<char>) -> bool {
    match before_suffix(t, "bit"@) {
        Some(w) => w.len() > 0 && all_digits(w),
        None => false,
    }
}

/// One token that says how a model was built, never which model it is.
pub open spec fn decoration(t: Seq<char>) -> bool {
    markers().contains(t) || bit_name(t) || quant_name(t)
}

fn is_quant_tail(s: &str) -> (r: bool)
    ensures
        r == quant_tail(s@),
{
    let cs = chars(s);
    if cs.len() == 0 || !is_digit(cs[0]) {
        return false;
    }
    let mut i: usize = 1;
    while i < cs.len()
        invariant
            1 <= i <= cs@.len(),
            cs@ == s@,
            forall|k: int| 1 <= k < i ==> quant_char(#[trigger] s@[k]),
        decreases cs.len() - i,
    {
        let c = cs[i];
        if !is_digit(c) && !is_letter(c) && c != '_' {
            proof {
                assert(!quant_char(s@[i as int]));
            }
            return false;
        }
        i += 1;
    }
    true
}

fn is_all_digits(s: &str) -> (r: bool)
    ensures
        r == all_digits(s@),
{
    let cs = chars(s);
    let mut i: usize = 0;
    while i < cs.len()
        invariant
            i <= cs@.len(),
            cs@ == s@,
            forall|k: int| 0 <= k < i ==> ascii_digit(#[trigger] s@[k]),
        decreases cs.len() - i,
    {
        if !is_digit(cs[i]) {
            proof {
                assert(!ascii_digit(s@[i as int]));
            }
            return false;
        }
        i += 1;
    }
    true
}

fn is_marker(t: &str) -> (r: bool)
    ensures
        r == markers().contains(t@),
{
    let all = [
        "gguf",
        "mlx",
        "imatrix",
        "awq",
        "gptq",
        "fp8",
        "bnb",
        "bitsandbytes",
        "bf16",
        "fp16",
        "f16",
        "int4",
        "int8",
        "ud",
        "mtp",
    ];
    let mut i: usize = 0;
    while i < 15
        invariant
            i <= 15,
            all@.len() == 15,
            forall|k: int| 0 <= k < 15 ==> (#[trigger] all@[k])@ == markers()[k],
            forall|k: int| 0 <= k < i ==> #[trigger] markers()[k] != t@,
        decreases 15 - i,
    {
        if same(t, all[i]) {
            proof {
                assert(markers()[i as int] == t@);
            }
            return true;
        }
        i += 1;
    }
    false
}

/// One token that says how a model was built, never which model it is.
///
/// Every marker here can come off a name without changing what the weights are
/// a build *of*: the container, the quantisation and the method that produced
/// it, the width, and the prediction head. Deliberately **not** anything that
/// distinguishes two fine-tunes.
fn is_decoration(token: &str) -> (r: bool)
    ensures
        r == decoration(token@),
{
    if is_marker(token) {
        return true;
    }
    if let Some(w) = strip_suffix(token, "bit") {
        if chars(w.as_str()).len() > 0 && is_all_digits(w.as_str()) {
            return true;
        }
    }
    match strip_prefix(token, "iq") {
        Some(rest) => is_quant_tail(rest.as_str()),
        None => match strip_prefix(token, "q") {
            Some(rest) => is_quant_tail(rest.as_str()),
            None => false,
        },
    }
}

/// What may stand at the edge of a name without being part of it.
pub open spec fn edge(c: char) -> bool {
    c == '-' || c == '.' || c == '_'
}

/// The name behind a publisher.
pub open spec fn past_publisher(s: Seq<char>) -> Seq<char> {
    match cut_first(s, "/"@) {
        Some((_, rest)) => rest,
        None => s,
    }
}

/// The name before a tag.
pub open spec fn before_tag(s: Seq<char>) -> Seq<char> {
    match cut_first(s, ":"@) {
        Some((base, _)) => base,
        None => s,
    }
}

/// The name without its extensions.
pub open spec fn bare(s: Seq<char>) -> Seq<char> {
    trimmed_end(
        trimmed_end(trimmed_end(trimmed_end(s, ".gguf"@), ".safetensors"@), ".npz"@),
        ".json"@,
    )
}

pub open spec fn tells(t: Seq<char>) -> bool {
    t.len() > 0 && !decoration(t)
}

/// A word without the markers joined to it by dots: `m.q6_k` is `m`.
pub open spec fn undotted(word: Seq<char>) -> Seq<char> {
    let pieces = split(word, '.');
    joined(
        seq![pieces[0]] + pieces.skip(1).filter(|t: Seq<char>| !decoration(t)),
        "."@,
    )
}

/// The hyphen-separated words of a name that say which model it is.
pub open spec fn telling(s: Seq<char>) -> Seq<char> {
    joined(
        split(s, '-').map_values(|t: Seq<char>| undotted(t)).filter(|t: Seq<char>| tells(t)),
        "-"@,
    )
}

/// What is left of a name without what varies between builds of one model.
pub open spec fn canonical(raw: Seq<char>) -> Seq<char> {
    let s = telling(bare(before_tag(past_publisher(lowered(raw)))));
    strip_back(strip_front(s, |c: char| edge(c)), |c: char| edge(c))
}

/// A word without the markers joined to it by dots.
fn undot(word: &str) -> (r: String)
    ensures
        r@ == undotted(word@),
{
    let pieces = split_on(word, '.');
    let ghost all = texts(pieces@);
    let ghost rest = all.skip(1);
    let ghost p = |t: Seq<char>| !decoration(t);
    proof {
        lemma_split_len(word@, '.');
    }
    let mut kept: Vec<String> = Vec::new();
    kept.push(pieces[0].clone());
    let mut i: usize = 1;
    proof {
        assert(texts(kept@) =~= seq![all[0]] + rest.take(0).filter(p));
    }
    while i < pieces.len()
        invariant
            1 <= i <= pieces@.len(),
            all == texts(pieces@),
            rest == all.skip(1),
            p == (|t: Seq<char>| !decoration(t)),
            texts(kept@) == seq![all[0]] + rest.take(i - 1).filter(p),
        decreases pieces.len() - i,
    {
        proof {
            lemma_filter_take(rest, p, i - 1);
            assert(rest[i - 1] == pieces@[i as int]@);
        }
        if !is_decoration(pieces[i].as_str()) {
            let ghost was = kept@;
            kept.push(pieces[i].clone());
            proof {
                assert(texts(kept@) =~= texts(was).push(pieces@[i as int]@));
                assert(texts(kept@) =~= seq![all[0]] + rest.take(i as int).filter(p));
            }
        }
        i += 1;
    }
    proof {
        assert(rest.take(i - 1) =~= rest);
    }
    join(&kept, ".")
}

/// Strip everything that varies between builds of one model: publisher,
/// extension, format tag, and quantisation.
///
/// This is inference. Names lie, which is why the result is always wrapped in
/// `Provenance::Inferred`.
pub fn canonical_name(raw: &str) -> (r: String)
    ensures
        r@ == canonical(raw@),
{
    let mut s = lower(raw);
    if let Some((_, rest)) = split_once(s.as_str(), "/") {
        s = rest;
    }
    // Ollama tags: `nomic-embed-text:latest`.
    if let Some((base, _)) = split_once(s.as_str(), ":") {
        s = base;
    }
    proof {
        reveal_strlit(".gguf");
        reveal_strlit(".safetensors");
        reveal_strlit(".npz");
        reveal_strlit(".json");
    }
    s = trim_end_matches(s.as_str(), ".gguf");
    s = trim_end_matches(s.as_str(), ".safetensors");
    s = trim_end_matches(s.as_str(), ".npz");
    s = trim_end_matches(s.as_str(), ".json");
    let tokens = split_on(s.as_str(), '-');
    let ghost words = texts(tokens@).map_values(|t: Seq<char>| undotted(t));
    let ghost p = |t: Seq<char>| tells(t);
    let mut kept: Vec<String> = Vec::new();
    let mut i: usize = 0;
    proof {
        assert(texts(kept@) =~= words.take(0).filter(p));
    }
    while i < tokens.len()
        invariant
            i <= tokens@.len(),
            words == texts(tokens@).map_values(|t: Seq<char>| undotted(t)),
            p == (|t: Seq<char>| tells(t)),
            texts(kept@) == words.take(i as int).filter(p),
        decreases tokens.len() - i,
    {
        proof {
            lemma_filter_take(words, p, i as int);
        }
        let t = undot(tokens[i].as_str());
        if chars(t.as_str()).len() > 0 && !is_decoration(t.as_str()) {
            let ghost was = kept@;
            let ghost word = t@;
            kept.push(t);
            proof {
                assert(texts(kept@) =~= texts(was).push(word));
            }
        }
        i += 1;
    }
    proof {
        assert(words.take(i as int) =~= words);
    }
    s = join(&kept, "-");
    let at_edge = |c: char| -> (b: bool)
        ensures
            b == edge(c),
        {
            c == '-' || c == '.' || c == '_'
        };
    strip_ends(s.as_str(), at_edge, true, true, Ghost(|c: char| edge(c)))
}

/// A canonical name is one for every build of a model: a publisher, an
/// extension and case are no part of it. It is in lower case, and no separator
/// stands at either end.
pub proof fn a_canonical_name_leaves_out_what_varies(p: Seq<char>, x: Seq<char>)
    ensures
        !p.contains('/') && !x.contains('/') ==> canonical(p + "/"@ + x) == canonical(x),
        canonical(x + ".gguf"@) == canonical(x),
        canonical(uppered(x)) == canonical(x),
        canonical(lowered(x)) == canonical(x),
        lower_case(canonical(x)),
        canonical(x).len() > 0 ==> !edge(canonical(x)[0]) && !edge(canonical(x).last()),
{
    if !p.contains('/') && !x.contains('/') {
        lemma_publisher(p, x);
    }
    lemma_extension(x);
    lemma_case(x);
    lemma_plain(x);
}

/// The canonical names of artifacts, each once, in the order first seen. An
/// artifact with no name left belongs to no model.
pub open spec fn names_of(artifacts: Seq<Artifact>) -> Seq<Seq<char>>
    decreases artifacts.len(),
{
    if artifacts.len() == 0 {
        Seq::empty()
    } else {
        let before = names_of(artifacts.drop_last());
        let name = canonical(artifacts.last().name_hint@);
        if name.len() == 0 || before.contains(name) {
            before
        } else {
            before.push(name)
        }
    }
}

pub open spec fn known_as(a: Artifact, name: Seq<char>) -> bool {
    canonical(a.name_hint@) == name
}

/// The artifacts that go by a name.
pub open spec fn builds_of(artifacts: Seq<Artifact>, name: Seq<char>) -> Seq<ArtifactId> {
    artifacts.filter(|a: Artifact| known_as(a, name)).map_values(|a: Artifact| a.id)
}

/// A model, in texts: its name, its builds, and what the claim rests on.
#[verifier::ext_equal]
pub struct Family {
    pub canonical: Seq<char>,
    pub ids: Seq<ArtifactId>,
    pub basis: Option<Seq<char>>,
}

/// What a claim rests on, where it was inferred.
pub open spec fn basis_of(p: Provenance) -> Option<Seq<char>> {
    match p {
        Provenance::Inferred { basis } => Some(basis@),
        Provenance::Recorded => None,
    }
}

pub open spec fn family(m: ModelIdentity) -> Family {
    Family {
        canonical: m.canonical@,
        ids: m.artifacts@,
        basis: basis_of(m.provenance),
    }
}

pub open spec fn families(v: Seq<ModelIdentity>) -> Seq<Family> {
    v.map_values(|m: ModelIdentity| family(m))
}

pub open spec fn named_family(artifacts: Seq<Artifact>, name: Seq<char>) -> Family {
    Family {
        canonical: name,
        ids: builds_of(artifacts, name),
        basis: Some("normalised filename"@),
    }
}

/// The names in order.
pub open spec fn sorted_names(artifacts: Seq<Artifact>) -> Seq<Seq<char>> {
    stable_sort(names_of(artifacts), |a: Seq<char>, b: Seq<char>| text_le(a, b))
}

/// One model for each canonical name, in the order of the names.
pub open spec fn grouped(artifacts: Seq<Artifact>) -> Seq<Family> {
    sorted_names(artifacts).map_values(|n: Seq<char>| named_family(artifacts, n))
}

fn holds_text(names: &Vec<String>, name: &str) -> (r: bool)
    ensures
        r == texts(names@).contains(name@),
{
    let mut i: usize = 0;
    while i < names.len()
        invariant
            i <= names@.len(),
            forall|k: int| 0 <= k < i ==> #[trigger] texts(names@)[k] != name@,
        decreases names.len() - i,
    {
        if same(names[i].as_str(), name) {
            proof {
                assert(texts(names@)[i as int] == name@);
            }
            return true;
        }
        i += 1;
    }
    false
}

/// One model for each canonical name, in the order of the names.
pub fn group(artifacts: &[Artifact]) -> (r: Vec<ModelIdentity>)
    ensures
        families(r@) == grouped(artifacts@),
{
    let mut names: Vec<String> = Vec::new();
    let mut canon: Vec<String> = Vec::new();
    let mut i: usize = 0;
    proof {
        assert(texts(names@) =~= names_of(artifacts@.take(0)));
    }
    while i < artifacts.len()
        invariant
            i <= artifacts@.len(),
            texts(names@) == names_of(artifacts@.take(i as int)),
            canon@.len() == i,
            forall|k: int|
                0 <= k < i ==> (#[trigger] canon@[k])@ == canonical(artifacts@[k].name_hint@),
        decreases artifacts.len() - i,
    {
        let name = canonical_name(artifacts[i].name_hint.as_str());
        proof {
            assert(artifacts@.take(i + 1).drop_last() =~= artifacts@.take(i as int));
        }
        if chars(name.as_str()).len() > 0 && !holds_text(&names, name.as_str()) {
            let ghost was = names@;
            names.push(name.clone());
            proof {
                assert(texts(names@) =~= texts(was).push(name@));
            }
        }
        canon.push(name);
        i += 1;
    }
    proof {
        assert(artifacts@.take(i as int) =~= artifacts@);
    }
    let le = |a: &String, b: &String| -> (r: bool)
        ensures
            r == text_le(a@, b@),
        {
            !is_before(b.as_str(), a.as_str())
        };
    let ghost over = |a: String, b: String| text_le(a@, b@);
    let ghost read = |s: String| s@;
    let ghost loose = names@;
    let names = sort_with(names, le, Ghost(over));
    proof {
        lemma_sort_map(loose, read, over, |a: Seq<char>, b: Seq<char>| text_le(a, b));
        assert(loose.map_values(read) =~= texts(loose));
        assert(names@.map_values(read) =~= texts(names@));
        assert(texts(names@) == sorted_names(artifacts@));
    }
    let mut out: Vec<ModelIdentity> = Vec::new();
    let mut n: usize = 0;
    proof {
        assert(families(out@) =~= grouped(artifacts@).take(0));
    }
    while n < names.len()
        invariant
            n <= names@.len(),
            texts(names@) == sorted_names(artifacts@),
            canon@.len() == artifacts@.len(),
            forall|k: int|
                0 <= k < canon@.len() ==> (#[trigger] canon@[k])@ == canonical(
                    artifacts@[k].name_hint@,
                ),
            families(out@) == grouped(artifacts@).take(n as int),
        decreases names.len() - n,
    {
        let ghost name = names@[n as int]@;
        let ghost p = |a: Artifact| known_as(a, name);
        let mut ids: Vec<ArtifactId> = Vec::new();
        let mut k: usize = 0;
        proof {
            assert(ids@ =~= artifacts@.take(0).filter(p).map_values(|a: Artifact| a.id));
        }
        while k < artifacts.len()
            invariant
                k <= artifacts@.len(),
                n < names@.len(),
                name == names@[n as int]@,
                p == (|a: Artifact| known_as(a, name)),
                canon@.len() == artifacts@.len(),
                forall|k: int|
                    0 <= k < canon@.len() ==> (#[trigger] canon@[k])@ == canonical(
                        artifacts@[k].name_hint@,
                    ),
                ids@ == artifacts@.take(k as int).filter(p).map_values(|a: Artifact| a.id),
            decreases artifacts.len() - k,
        {
            proof {
                lemma_filter_take(artifacts@, p, k as int);
            }
            if same(canon[k].as_str(), names[n].as_str()) {
                ids.push(artifacts[k].id.clone());
            }
            proof {
                assert(ids@ =~= artifacts@.take(k + 1).filter(p).map_values(|a: Artifact| a.id));
            }
            k += 1;
        }
        proof {
            assert(artifacts@.take(k as int) =~= artifacts@);
        }
        let ghost was = out@;
        let m = ModelIdentity {
            canonical: names[n].clone(),
            artifacts: ids,
            provenance: Provenance::Inferred { basis: "normalised filename".to_owned() },
        };
        proof {
            assert(texts(names@)[n as int] == name);
            assert(family(m) =~= named_family(artifacts@, name));
            assert(families(was.push(m)) =~= families(was).push(family(m)));
            assert(grouped(artifacts@).take(n + 1) =~= grouped(artifacts@).take(n as int).push(
                family(m),
            ));
        }
        out.push(m);
        n += 1;
    }
    proof {
        assert(grouped(artifacts@).take(n as int) =~= grouped(artifacts@));
    }
    out
}

/// The last model that holds an id, where any does.
pub open spec fn owner(models: Seq<Family>, id: Seq<char>) -> Option<int>
    decreases models.len(),
{
    if models.len() == 0 {
        None
    } else if holds(models.last().ids, id) {
        Some(models.len() - 1)
    } else {
        owner(models.drop_last(), id)
    }
}

/// The models that the ids of one allocation belong to.
pub open spec fn owners(models: Seq<Family>, ids: Seq<ArtifactId>) -> Seq<int> {
    ids.filter_map(|id: ArtifactId| owner(models, id@))
}

/// The labels with everything labelled as `a` is labelled as `b` is.
pub open spec fn relabelled(labels: Seq<int>, a: int, b: int) -> Seq<int> {
    labels.map_values(
        |x: int|
            if x == labels[a] {
                labels[b]
            } else {
                x
            },
    )
}

/// The labels once the first `n` of some models are united with the first.
pub open spec fn united(labels: Seq<int>, together: Seq<int>, n: nat) -> Seq<int>
    decreases n,
{
    if n <= 1 {
        labels
    } else {
        relabelled(united(labels, together, (n - 1) as nat), together[0], together[n - 1])
    }
}

/// The labels of the models once the first `n` allocations have joined them:
/// two models are one exactly when they carry one label.
pub open spec fn labelled(models: Seq<Family>, groups: Seq<Seq<ArtifactId>>, n: nat) -> Seq<int>
    decreases n,
{
    if n == 0 {
        Seq::new(models.len(), |i: int| i)
    } else {
        let together = owners(models, groups[n - 1]);
        united(labelled(models, groups, (n - 1) as nat), together, together.len())
    }
}

/// Two models that turned out to be one. The longer name wins: it is the more
/// specific one, and the short form is usually a truncation.
pub open spec fn joined_with(e: Family, g: Family) -> Family {
    Family {
        canonical: if byte_len(g.canonical) > byte_len(e.canonical) {
            g.canonical
        } else {
            e.canonical
        },
        ids: e.ids + g.ids,
        basis: Some("normalised filename, unified by shared allocation"@),
    }
}

/// The first `n` models that carry a label, made one.
pub open spec fn gathered(models: Seq<Family>, labels: Seq<int>, label: int, n: nat) -> Option<
    Family,
>
    decreases n,
{
    if n == 0 {
        None
    } else {
        let before = gathered(models, labels, label, (n - 1) as nat);
        if labels[n - 1] == label {
            match before {
                Some(e) => Some(joined_with(e, models[n - 1])),
                None => Some(models[n - 1]),
            }
        } else {
            before
        }
    }
}

/// What carries a label, where anything does and holds an artifact.
pub open spec fn under_label(models: Seq<Family>, labels: Seq<int>, label: int) -> Option<Family> {
    match gathered(models, labels, label, models.len()) {
        Some(f) => if f.ids.len() > 0 {
            Some(f)
        } else {
            None
        },
        None => None,
    }
}

/// The labels below `n`.
pub open spec fn below(n: nat) -> Seq<int> {
    Seq::new(n, |i: int| i)
}

/// The models by name, with those that share an allocation made one.
pub open spec fn unified(models: Seq<Family>, groups: Seq<Seq<ArtifactId>>) -> Seq<Family> {
    let labels = labelled(models, shared(groups), shared(groups).len());
    below(models.len()).filter_map(|l: int| under_label(models, labels, l))
}

fn owner_of(models: &Vec<ModelIdentity>, id: &str) -> (r: Option<usize>)
    ensures
        match r {
            Some(i) => owner(families(models@), id@) == Some(i as int) && i < models.len(),
            None => owner(families(models@), id@) is None,
        },
{
    let mut n: usize = models.len();
    proof {
        assert(families(models@).take(n as int) =~= families(models@));
    }
    while n > 0
        invariant
            n <= models@.len(),
            owner(families(models@), id@) == owner(families(models@).take(n as int), id@),
        decreases n,
    {
        proof {
            assert(families(models@).take(n as int).drop_last() =~= families(models@).take(n - 1));
            assert(families(models@).take(n as int).last() == family(models@[n - 1]));
        }
        if holds_id(&models[n - 1].artifacts, id) {
            return Some(n - 1);
        }
        n -= 1;
    }
    None
}

/// The labels of the models, as numbers.
pub open spec fn numbers(v: Seq<usize>) -> Seq<int> {
    v.map_values(|x: usize| x as int)
}

fn relabel(labels: Vec<usize>, a: usize, b: usize) -> (r: Vec<usize>)
    requires
        a < labels@.len(),
        b < labels@.len(),
        forall|i: int| 0 <= i < labels@.len() ==> #[trigger] labels@[i] < labels@.len(),
    ensures
        r@.len() == labels@.len(),
        numbers(r@) == relabelled(numbers(labels@), a as int, b as int),
        forall|i: int| 0 <= i < r@.len() ==> #[trigger] r@[i] < r@.len(),
{
    let from: usize = labels[a];
    let to: usize = labels[b];
    let mut out: Vec<usize> = Vec::new();
    let mut i: usize = 0;
    while i < labels.len()
        invariant
            i <= labels@.len(),
            out@.len() == i,
            to < labels@.len(),
            forall|k: int| 0 <= k < labels@.len() ==> #[trigger] labels@[k] < labels@.len(),
            forall|k: int|
                0 <= k < i ==> #[trigger] out@[k] == if labels@[k] == from {
                    to
                } else {
                    labels@[k]
                },
            forall|k: int| 0 <= k < i ==> #[trigger] out@[k] < labels@.len(),
        decreases labels.len() - i,
    {
        out.push(
            if labels[i] == from {
                to
            } else {
                labels[i]
            },
        );
        i += 1;
    }
    proof {
        assert(numbers(out@) =~= relabelled(numbers(labels@), a as int, b as int));
    }
    out
}

fn labels_of(models: &Vec<ModelIdentity>, groups: &Vec<Vec<ArtifactId>>) -> (r: Vec<usize>)
    ensures
        numbers(r@) == labelled(families(models@), lists(groups@), groups@.len()),
        r@.len() == models@.len(),
        forall|i: int| 0 <= i < r@.len() ==> #[trigger] r@[i] < r@.len(),
{
    let ghost fams = families(models@);
    let ghost all = lists(groups@);
    let mut labels: Vec<usize> = Vec::new();
    let mut i: usize = 0;
    while i < models.len()
        invariant
            i <= models@.len(),
            labels@.len() == i,
            forall|k: int| 0 <= k < i ==> #[trigger] labels@[k] == k,
        decreases models.len() - i,
    {
        labels.push(i);
        i += 1;
    }
    proof {
        assert(numbers(labels@) =~= labelled(fams, all, 0));
    }
    let mut n: usize = 0;
    while n < groups.len()
        invariant
            n <= groups@.len(),
            fams == families(models@),
            all == lists(groups@),
            numbers(labels@) == labelled(fams, all, n as nat),
            labels@.len() == models@.len(),
            forall|i: int| 0 <= i < labels@.len() ==> #[trigger] labels@[i] < labels@.len(),
        decreases groups.len() - n,
    {
        let ids = &groups[n];
        let ghost f = |id: ArtifactId| owner(fams, id@);
        let ghost before = numbers(labels@);
        let mut first: Option<usize> = None;
        let ghost mut done: Seq<int> = Seq::empty();
        let mut k: usize = 0;
        proof {
            assert(ids@.take(0).filter_map(f) =~= Seq::<int>::empty());
        }
        while k < ids.len()
            invariant
                k <= ids@.len(),
                fams == families(models@),
                f == (|id: ArtifactId| owner(fams, id@)),
                labels@.len() == models@.len(),
                forall|i: int| 0 <= i < labels@.len() ==> #[trigger] labels@[i] < labels@.len(),
                done == ids@.take(k as int).filter_map(f),
                numbers(labels@) == united(before, done, done.len()),
                match first {
                    Some(x) => done.len() > 0 && done[0] == x && x < models@.len(),
                    None => done.len() == 0,
                },
            decreases ids.len() - k,
        {
            proof {
                ids@.lemma_filter_map_take_succ(f, k as int);
            }
            let ghost was = done;
            if let Some(x) = owner_of(models, ids[k].as_str()) {
                proof {
                    done = was.push(x as int);
                    assert(done =~= ids@.take(k + 1).filter_map(f));
                    lemma_united_prefix(before, was, done, was.len());
                }
                match first {
                    Some(y) => {
                        labels = relabel(labels, y, x);
                    },
                    None => {
                        first = Some(x);
                    },
                }
            } else {
                proof {
                    assert(done =~= ids@.take(k + 1).filter_map(f));
                }
            }
            k += 1;
        }
        proof {
            assert(ids@.take(k as int) =~= ids@);
            assert(all[n as int] == ids@);
        }
        n += 1;
    }
    labels
}

/// What comes later in the list changes nothing of the first unions.
proof fn lemma_united_prefix(labels: Seq<int>, a: Seq<int>, b: Seq<int>, n: nat)
    requires
        n <= a.len() <= b.len(),
        forall|i: int| 0 <= i < a.len() ==> #[trigger] a[i] == b[i],
    ensures
        united(labels, a, n) == united(labels, b, n),
    decreases n,
{
    if n > 1 {
        lemma_united_prefix(labels, a, b, (n - 1) as nat);
    }
}

/// Two models that turned out to be one.
fn absorb(existing: ModelIdentity, g: &ModelIdentity) -> (r: ModelIdentity)
    ensures
        family(r) == joined_with(family(existing), family(*g)),
{
    let canonical = if width(g.canonical.as_str()) > width(existing.canonical.as_str()) {
        g.canonical.clone()
    } else {
        existing.canonical
    };
    let mut artifacts = existing.artifacts;
    let mut more = crate::inventory::graph::copied(&g.artifacts);
    artifacts.append(&mut more);
    let r = ModelIdentity {
        canonical,
        artifacts,
        provenance: Provenance::Inferred {
            basis: "normalised filename, unified by shared allocation".to_owned(),
        },
    };
    proof {
        assert(family(r) =~= joined_with(family(existing), family(*g)));
    }
    r
}

fn copied_model(m: &ModelIdentity) -> (r: ModelIdentity)
    ensures
        family(r) == family(*m),
{
    ModelIdentity {
        canonical: m.canonical.clone(),
        artifacts: crate::inventory::graph::copied(&m.artifacts),
        provenance: m.provenance.clone(),
    }
}

/// Group by name, then merge any groups joined by an alias edge.
///
/// Two paths that resolve to one allocation are the same model however they
/// are named, which matters because they routinely are not. This is the one
/// identity signal that is *not* inference.
pub fn group_with_aliases(artifacts: &[Artifact], graph: &Graph) -> (r: Vec<ModelIdentity>)
    ensures
        families(r@) == unified(grouped(artifacts@), graph.groups()),
{
    let models = group(artifacts);
    let ghost fams = families(models@);
    let groups = graph.alias_groups();
    let labels = labels_of(&models, &groups);
    let ghost marks = numbers(labels@);
    proof {
        assert(lists(groups@).len() == groups@.len());
    }
    let ghost f = |l: int| under_label(fams, marks, l);
    let mut out: Vec<ModelIdentity> = Vec::new();
    let mut l: usize = 0;
    proof {
        assert(below(fams.len()).take(0).filter_map(f) =~= Seq::<Family>::empty());
        assert(families(out@) =~= Seq::<Family>::empty());
    }
    while l < models.len()
        invariant
            l <= models@.len(),
            fams == families(models@),
            marks == numbers(labels@),
            labels@.len() == models@.len(),
            f == (|l: int| under_label(fams, marks, l)),
            families(out@) == below(fams.len()).take(l as int).filter_map(f),
        decreases models.len() - l,
    {
        proof {
            below(fams.len()).lemma_filter_map_take_succ(f, l as int);
        }
        let mut held: Option<ModelIdentity> = None;
        let mut i: usize = 0;
        while i < models.len()
            invariant
                i <= models@.len(),
                fams == families(models@),
                marks == numbers(labels@),
                labels@.len() == models@.len(),
                match held {
                    Some(m) => gathered(fams, marks, l as int, i as nat) == Some(family(m)),
                    None => gathered(fams, marks, l as int, i as nat) is None,
                },
            decreases models.len() - i,
        {
            proof {
                assert(marks[i as int] == labels@[i as int]);
                assert(fams[i as int] == family(models@[i as int]));
            }
            if labels[i] == l {
                held = Some(
                    match held {
                        Some(existing) => absorb(existing, &models[i]),
                        None => copied_model(&models[i]),
                    },
                );
            }
            i += 1;
        }
        let ghost was = out@;
        if let Some(m) = held {
            if m.artifacts.len() > 0 {
                out.push(m);
                proof {
                    assert(families(out@) =~= families(was).push(family(m)));
                }
            }
        }
        proof {
            assert(families(out@) =~= below(fams.len()).take(l + 1).filter_map(f));
        }
        l += 1;
    }
    proof {
        assert(below(fams.len()).take(l as int) =~= below(fams.len()));
    }
    out
}

/// The names are those of the artifacts, none empty and none missing.
proof fn lemma_names_of(artifacts: Seq<Artifact>)
    ensures
        forall|i: int|
            0 <= i < artifacts.len() && canonical((#[trigger] artifacts[i]).name_hint@).len() > 0
                ==> names_of(artifacts).contains(canonical(artifacts[i].name_hint@)),
    decreases artifacts.len(),
{
    if artifacts.len() > 0 {
        let front = artifacts.drop_last();
        lemma_names_of(front);
        let before = names_of(front);
        let all = names_of(artifacts);
        assert forall|i: int|
            0 <= i < artifacts.len() && canonical((#[trigger] artifacts[i]).name_hint@).len()
                > 0 implies all.contains(canonical(artifacts[i].name_hint@)) by {
            let name = canonical(artifacts[i].name_hint@);
            if i < front.len() {
                assert(front[i] == artifacts[i]);
                let k = before.index_of(name);
                assert(all[k] == name);
            } else if before.contains(name) {
                let k = before.index_of(name);
                assert(all[k] == name);
            } else {
                assert(all[before.len() as int] == name);
            }
        }
    }
}

/// Every artifact that has a name belongs to the model of that name.
pub proof fn every_named_artifact_has_a_model(artifacts: Seq<Artifact>, i: int)
    requires
        0 <= i < artifacts.len(),
        canonical(artifacts[i].name_hint@).len() > 0,
    ensures
        exists|m: int|
            0 <= m < grouped(artifacts).len() && (#[trigger] grouped(artifacts)[m]).canonical
                == canonical(artifacts[i].name_hint@) && holds(
                grouped(artifacts)[m].ids,
                artifacts[i].id@,
            ),
{
    let name = canonical(artifacts[i].name_hint@);
    let le = |a: Seq<char>, b: Seq<char>| text_le(a, b);
    lemma_names_of(artifacts);
    lemma_stable_sort_contains(names_of(artifacts), le, name);
    let m = sorted_names(artifacts).index_of(name);
    let p = |a: Artifact| known_as(a, name);
    lemma_filter_members(artifacts, p);
    assert(artifacts.contains(artifacts[i]));
    assert(p(artifacts[i]));
    assert(artifacts.filter(p).contains(artifacts[i]));
    let k = artifacts.filter(p).index_of(artifacts[i]);
    assert(builds_of(artifacts, name)[k] == artifacts[i].id);
    assert(grouped(artifacts)[m] == named_family(artifacts, name));
}

proof fn lemma_owner(models: Seq<Family>, id: Seq<char>)
    requires
        exists|m: int| 0 <= m < models.len() && holds((#[trigger] models[m]).ids, id),
    ensures
        owner(models, id) is Some,
        0 <= owner(models, id)->0 < models.len(),
        holds(models[owner(models, id)->0].ids, id),
    decreases models.len(),
{
    let m = choose|m: int| 0 <= m < models.len() && holds((#[trigger] models[m]).ids, id);
    if !holds(models.last().ids, id) {
        assert(m < models.len() - 1);
        assert(models.drop_last()[m] == models[m]);
        lemma_owner(models.drop_last(), id);
    }
}

/// Uniting keeps labels labels, keeps what was one, and makes one of what is
/// to be united.
proof fn lemma_united(labels: Seq<int>, together: Seq<int>, n: nat)
    requires
        n <= together.len(),
        forall|k: int| 0 <= k < together.len() ==> 0 <= #[trigger] together[k] < labels.len(),
        forall|k: int| 0 <= k < labels.len() ==> 0 <= #[trigger] labels[k] < labels.len(),
    ensures
        united(labels, together, n).len() == labels.len(),
        forall|k: int|
            0 <= k < labels.len() ==> 0 <= #[trigger] united(labels, together, n)[k] < labels.len(),
        forall|x: int, y: int|
            #![trigger united(labels, together, n)[x], united(labels, together, n)[y]]
            0 <= x < labels.len() && 0 <= y < labels.len() && labels[x] == labels[y] ==> united(
                labels,
                together,
                n,
            )[x] == united(labels, together, n)[y],
        forall|k: int|
            #![trigger together[k]]
            0 <= k < n ==> united(labels, together, n)[together[k]] == united(labels, together, n)[
                together[0]
            ],
    decreases n,
{
    if n > 1 {
        let m = (n - 1) as nat;
        lemma_united(labels, together, m);
        let before = united(labels, together, m);
        let after = united(labels, together, n);
        let a = together[0];
        let b = together[m as int];
        assert(after == relabelled(before, a, b));
        assert forall|k: int| #![trigger together[k]] 0 <= k < n implies after[together[k]]
            == after[a] by {
            if k < m {
                assert(before[together[k]] == before[a]);
            }
        }
    }
}

proof fn lemma_owners_in_range(models: Seq<Family>, ids: Seq<ArtifactId>)
    ensures
        forall|k: int|
            0 <= k < owners(models, ids).len() ==> 0 <= #[trigger] owners(models, ids)[k]
                < models.len(),
{
    let f = |id: ArtifactId| owner(models, id@);
    lemma_filter_map_members(ids, f);
    assert forall|k: int| 0 <= k < owners(models, ids).len() implies 0 <= #[trigger] owners(
        models,
        ids,
    )[k] < models.len() by {
        let i = choose|i: int|
            0 <= i < ids.len() && f(#[trigger] ids[i]) == Some(#[trigger] ids.filter_map(f)[k]);
        lemma_owner_in_range(models, ids[i]@);
    }
}

proof fn lemma_owner_in_range(models: Seq<Family>, id: Seq<char>)
    ensures
        owner(models, id) matches Some(o) ==> 0 <= o < models.len(),
    decreases models.len(),
{
    if models.len() > 0 {
        lemma_owner_in_range(models.drop_last(), id);
    }
}

proof fn lemma_labelled(models: Seq<Family>, groups: Seq<Seq<ArtifactId>>, n: nat)
    requires
        n <= groups.len(),
    ensures
        labelled(models, groups, n).len() == models.len(),
        forall|k: int|
            0 <= k < models.len() ==> 0 <= #[trigger] labelled(models, groups, n)[k] < models.len(),
        forall|g: int, a: int, b: int|
            #![trigger owners(models, groups[g])[a], owners(models, groups[g])[b]]
            0 <= g < n && 0 <= a < owners(models, groups[g]).len() && 0 <= b < owners(
                models,
                groups[g],
            ).len() ==> labelled(models, groups, n)[owners(models, groups[g])[a]] == labelled(
                models,
                groups,
                n,
            )[owners(models, groups[g])[b]],
    decreases n,
{
    if n > 0 {
        let m = (n - 1) as nat;
        lemma_labelled(models, groups, m);
        let before = labelled(models, groups, m);
        let after = labelled(models, groups, n);
        let together = owners(models, groups[m as int]);
        lemma_owners_in_range(models, groups[m as int]);
        lemma_united(before, together, together.len());
        assert forall|g: int, a: int, b: int|
            #![trigger owners(models, groups[g])[a], owners(models, groups[g])[b]]
            0 <= g < n && 0 <= a < owners(models, groups[g]).len() && 0 <= b < owners(
                models,
                groups[g],
            ).len() implies after[owners(models, groups[g])[a]] == after[owners(
            models,
            groups[g],
        )[b]] by {
            lemma_owners_in_range(models, groups[g]);
            let x = owners(models, groups[g])[a];
            let y = owners(models, groups[g])[b];
            if g < m {
                assert(before[x] == before[y]);
                assert(after[x] == after[y]);
            } else {
                assert(after[together[a]] == after[together[0]]);
                assert(after[together[b]] == after[together[0]]);
            }
        }
    }
}

/// Whatever carries a label is gathered under it.
proof fn lemma_gathered(models: Seq<Family>, labels: Seq<int>, label: int, n: nat, x: int)
    requires
        0 <= x < n <= models.len(),
        labels.len() == models.len(),
        labels[x] == label,
    ensures
        gathered(models, labels, label, n) is Some,
        forall|id: Seq<char>|
            holds(models[x].ids, id) ==> #[trigger] holds(
                gathered(models, labels, label, n)->0.ids,
                id,
            ),
    decreases n,
{
    let m = (n - 1) as nat;
    let before = gathered(models, labels, label, m);
    let after = gathered(models, labels, label, n)->0;
    if x < m {
        lemma_gathered(models, labels, label, m, x);
        assert forall|id: Seq<char>| holds(models[x].ids, id) implies #[trigger] holds(
            after.ids,
            id,
        ) by {
            let e = before->0;
            assert(holds(e.ids, id));
            let k = choose|k: int| 0 <= k < e.ids.len() && (#[trigger] e.ids[k])@ == id;
            assert(after.ids[k] == e.ids[k]);
        }
    } else {
        assert forall|id: Seq<char>| holds(models[x].ids, id) implies #[trigger] holds(
            after.ids,
            id,
        ) by {
            let k = choose|k: int|
                0 <= k < models[x].ids.len() && (#[trigger] models[x].ids[k])@ == id;
            if let Some(e) = before {
                assert(after.ids[e.ids.len() + k] == models[x].ids[k]);
            } else {
                assert(after.ids[k] == models[x].ids[k]);
            }
        }
    }
}

/// The models that hold two ids of one allocation carry one label.
proof fn lemma_one_label(artifacts: Seq<Artifact>, models: Seq<Family>, i: int, j: int)
    requires
        0 <= i < artifacts.len(),
        0 <= j < artifacts.len(),
        artifacts[i].key is Some,
        artifacts[i].key == artifacts[j].key,
        artifacts[i].id@ != artifacts[j].id@,
        owner(models, artifacts[i].id@) is Some,
        owner(models, artifacts[j].id@) is Some,
    ensures
        ({
            let sharing = shared(groups_of(artifacts));
            let labels = labelled(models, sharing, sharing.len());
            labels[owner(models, artifacts[i].id@)->0] == labels[owner(
                models,
                artifacts[j].id@,
            )->0]
        }),
{
    let groups = groups_of(artifacts);
    let sharing = shared(groups);
    let x = owner(models, artifacts[i].id@)->0;
    let y = owner(models, artifacts[j].id@)->0;
    let labels = labelled(models, sharing, sharing.len());
    let p = |s: Seq<ArtifactId>| s.len() > 1;
    let f = |id: ArtifactId| owner(models, id@);
    let ids = lemma_common_group(artifacts, i, j);
    let u = ids.index_of(artifacts[i].id);
    let v = ids.index_of(artifacts[j].id);
    assert(u != v);
    assert(ids.len() > 1);
    assert(sharing.contains(ids)) by {
        lemma_filter_members(groups, p);
        assert(p(ids));
    }
    let s = sharing.index_of(ids);
    let together = owners(models, ids);
    assert(together.contains(x) && together.contains(y)) by {
        lemma_filter_map_members(ids, f);
        assert(f(ids[u]) == Some(x) && f(ids[v]) == Some(y));
    }
    let c = together.index_of(x);
    let d = together.index_of(y);
    lemma_labelled(models, sharing, sharing.len());
    assert(owners(models, sharing[s]) == together);
    assert(labels[owners(models, sharing[s])[c]] == labels[owners(models, sharing[s])[d]]);
}

proof fn lemma_common_group(artifacts: Seq<Artifact>, i: int, j: int) -> (ids: Seq<ArtifactId>)
    requires
        0 <= i < artifacts.len(),
        0 <= j < artifacts.len(),
        artifacts[i].key is Some,
        artifacts[i].key == artifacts[j].key,
    ensures
        groups_of(artifacts).contains(ids),
        ids.contains(artifacts[i].id),
        ids.contains(artifacts[j].id),
{
    let groups = groups_of(artifacts);
    a_group_is_an_allocation(artifacts);
    let one = artifacts[i];
    let two = artifacts[j];
    let g = choose|g: int|
        0 <= g < groups.len() && (#[trigger] groups[g]).contains(one.id) && groups[g].contains(
            two.id,
        );
    groups[g]
}

/// Two paths that reach one allocation belong to one model, however they are
/// named: a shared allocation is proof of identity that unlike names cannot
/// override. (A path whose name leaves nothing belongs to no model at all.)
pub proof fn a_shared_allocation_is_one_model(artifacts: Seq<Artifact>, i: int, j: int)
    requires
        0 <= i < artifacts.len(),
        0 <= j < artifacts.len(),
        artifacts[i].key is Some,
        artifacts[i].key == artifacts[j].key,
        canonical(artifacts[i].name_hint@).len() > 0,
        canonical(artifacts[j].name_hint@).len() > 0,
    ensures
        exists|m: int|
            0 <= m < unified(
                grouped(artifacts),
                groups_of(artifacts),
            ).len() && holds(
                (#[trigger] unified(
                    grouped(artifacts),
                    groups_of(artifacts),
                )[m]).ids,
                artifacts[i].id@,
            ) && holds(
                unified(grouped(artifacts), groups_of(artifacts))[m].ids,
                artifacts[j].id@,
            ),
{
    let models = grouped(artifacts);
    let groups = groups_of(artifacts);
    let sharing = shared(groups);
    let labels = labelled(models, sharing, sharing.len());
    let a = artifacts[i].id@;
    let b = artifacts[j].id@;
    every_named_artifact_has_a_model(artifacts, i);
    every_named_artifact_has_a_model(artifacts, j);
    lemma_owner(models, a);
    lemma_owner(models, b);
    lemma_labelled(models, sharing, sharing.len());
    let x = owner(models, a)->0;
    let y = owner(models, b)->0;
    if a != b {
        lemma_one_label(artifacts, models, i, j);
    }
    let l = labels[x];
    lemma_gathered(models, labels, l, models.len(), x);
    lemma_gathered(models, labels, l, models.len(), y);
    let whole = gathered(models, labels, l, models.len())->0;
    assert(holds(whole.ids, a) && holds(whole.ids, b));
    let f = |l: int| under_label(models, labels, l);
    assert(f(l) == Some(whole));
    let marks = below(models.len());
    lemma_filter_map_members(marks, f);
    assert(marks[l] == l);
    assert(marks.filter_map(f).contains(whole));
    let m = marks.filter_map(f).index_of(whole);
    assert(unified(models, groups)[m] == whole);
}

/// No name occurs twice.
proof fn lemma_names_apart(artifacts: Seq<Artifact>)
    ensures
        names_of(artifacts).no_duplicates(),
    decreases artifacts.len(),
{
    if artifacts.len() > 0 {
        lemma_names_apart(artifacts.drop_last());
    }
}

/// An id belongs to one of the models that the names make.
proof fn lemma_one_name_each(artifacts: Seq<Artifact>, id: Seq<char>, a: int, b: int)
    requires
        ids_distinct(artifacts),
        0 <= a < grouped(artifacts).len(),
        0 <= b < grouped(artifacts).len(),
        holds(grouped(artifacts)[a].ids, id),
        holds(grouped(artifacts)[b].ids, id),
    ensures
        a == b,
{
    let names = sorted_names(artifacts);
    lemma_names_apart(artifacts);
    lemma_sort_keeps_apart(
        names_of(artifacts),
        |a: Seq<char>, b: Seq<char>| text_le(a, b),
    );
    let x = lemma_who(artifacts, names[a], id);
    let y = lemma_who(artifacts, names[b], id);
    assert(x == y);
    assert(names[a] == names[b]);
}

/// The artifact behind an id of the builds of a name.
proof fn lemma_who(artifacts: Seq<Artifact>, name: Seq<char>, id: Seq<char>) -> (i: int)
    requires
        holds(builds_of(artifacts, name), id),
    ensures
        0 <= i < artifacts.len(),
        artifacts[i].id@ == id,
        known_as(artifacts[i], name),
{
    let p = |a: Artifact| known_as(a, name);
    let builds = artifacts.filter(p);
    let ids = builds_of(artifacts, name);
    let k = choose|k: int| 0 <= k < ids.len() && (#[trigger] ids[k])@ == id;
    lemma_filter_members(artifacts, p);
    assert(builds.contains(builds[k]));
    artifacts.index_of(builds[k])
}

/// What is gathered under a label comes from the models that carry it.
proof fn lemma_gathered_from(
    models: Seq<Family>,
    labels: Seq<int>,
    label: int,
    n: nat,
    id: Seq<char>,
) -> (x: int)
    requires
        n <= models.len(),
        labels.len() == models.len(),
        gathered(models, labels, label, n) is Some,
        holds(gathered(models, labels, label, n)->0.ids, id),
    ensures
        0 <= x < n,
        labels[x] == label,
        holds(models[x].ids, id),
    decreases n,
{
    let m = (n - 1) as nat;
    let before = gathered(models, labels, label, m);
    let after = gathered(models, labels, label, n)->0;
    if labels[m as int] != label {
        lemma_gathered_from(models, labels, label, m, id)
    } else if before is None {
        m as int
    } else {
        let k = choose|k: int| 0 <= k < after.ids.len() && (#[trigger] after.ids[k])@ == id;
        let e = before->0;
        if k < e.ids.len() {
            assert(e.ids[k]@ == id);
            lemma_gathered_from(models, labels, label, m, id)
        } else {
            assert(models[m as int].ids[k - e.ids.len()]@ == id);
            m as int
        }
    }
}

/// No artifact belongs to two models.
pub proof fn an_artifact_has_one_model(
    artifacts: Seq<Artifact>,
    groups: Seq<Seq<ArtifactId>>,
    id: Seq<char>,
    a: int,
    b: int,
)
    requires
        ids_distinct(artifacts),
        0 <= a < unified(grouped(artifacts), groups).len(),
        0 <= b < unified(grouped(artifacts), groups).len(),
        holds(unified(grouped(artifacts), groups)[a].ids, id),
        holds(unified(grouped(artifacts), groups)[b].ids, id),
    ensures
        a == b,
{
    let models = grouped(artifacts);
    let sharing = shared(groups);
    let labels = labelled(models, sharing, sharing.len());
    lemma_labelled(models, sharing, sharing.len());
    if a != b {
        let (lo, hi) = if a < b {
            (a, b)
        } else {
            (b, a)
        };
        let f = |l: int| under_label(models, labels, l);
        let marks = below(models.len());
        let (l, r) = lemma_filter_map_order(marks, f, lo, hi);
        let x = lemma_gathered_from(models, labels, l, models.len(), id);
        let y = lemma_gathered_from(models, labels, r, models.len(), id);
        lemma_one_name_each(artifacts, id, x, y);
    }
}

/// Whether two artifacts are told to be one model by themselves: they go by one
/// name, or reach one allocation.
pub open spec fn linked(artifacts: Seq<Artifact>, i: int, j: int) -> bool {
    &&& 0 <= i < artifacts.len()
    &&& 0 <= j < artifacts.len()
    &&& canonical(artifacts[i].name_hint@) == canonical(artifacts[j].name_hint@) || (
    artifacts[i].key is Some && artifacts[i].key == artifacts[j].key)
}

/// Whether each artifact of a path is linked to the next.
pub open spec fn is_path(artifacts: Seq<Artifact>, path: Seq<int>) -> bool {
    &&& path.len() > 0
    &&& forall|a: int| 0 <= a < path.len() ==> 0 <= #[trigger] path[a] < artifacts.len()
    &&& forall|a: int, b: int|
        0 <= a < path.len() && 0 <= b < path.len() && b == a + 1 ==> linked(
            artifacts,
            #[trigger] path[a],
            #[trigger] path[b],
        )
}

/// Whether a chain of names and allocations joins two artifacts.
pub open spec fn chained(artifacts: Seq<Artifact>, i: int, j: int) -> bool {
    exists|path: Seq<int>| #[trigger] is_path(artifacts, path) && path[0] == i && path.last() == j
}

proof fn lemma_link_chains(artifacts: Seq<Artifact>, i: int, j: int)
    requires
        linked(artifacts, i, j),
    ensures
        chained(artifacts, i, j),
{
    let path = seq![i, j];
    assert(is_path(artifacts, path));
    assert(path.last() == j);
}

proof fn lemma_chains_join(artifacts: Seq<Artifact>, i: int, j: int, k: int)
    requires
        chained(artifacts, i, j),
        chained(artifacts, j, k),
    ensures
        chained(artifacts, i, k),
{
    let p = choose|p: Seq<int>| #[trigger] is_path(artifacts, p) && p[0] == i && p.last() == j;
    let q = choose|q: Seq<int>| #[trigger] is_path(artifacts, q) && q[0] == j && q.last() == k;
    let rest = q.drop_first();
    let path = p + rest;
    assert(p[p.len() - 1] == j);
    assert(is_path(artifacts, path)) by {
        assert forall|a: int| 0 <= a < path.len() implies 0 <= #[trigger] path[a]
            < artifacts.len() by {
            if a < p.len() {
                assert(path[a] == p[a]);
            } else {
                assert(path[a] == q[a - p.len() + 1]);
            }
        }
        assert forall|a: int, b: int|
            0 <= a < path.len() && 0 <= b < path.len() && b == a + 1 implies linked(
            artifacts,
            #[trigger] path[a],
            #[trigger] path[b],
        ) by {
            if b < p.len() {
                assert(path[a] == p[a] && path[b] == p[b]);
            } else {
                assert(path[b] == q[b - p.len() + 1]);
                if a < p.len() {
                    assert(path[a] == p[a]);
                    assert(path[a] == q[0]);
                } else {
                    assert(path[a] == q[a - p.len() + 1]);
                }
                assert(path[a] == q[b - p.len()]);
            }
        }
    }
    assert(path[0] == p[0]);
    if rest.len() == 0 {
        assert(path =~= p);
        assert(q[q.len() - 1] == q[0]);
    } else {
        assert(path.last() == q.last());
    }
}

/// Whether an artifact is one of a model's.
pub open spec fn member(models: Seq<Family>, artifacts: Seq<Artifact>, x: int, p: int) -> bool {
    &&& 0 <= x < models.len()
    &&& 0 <= p < artifacts.len()
    &&& holds(models[x].ids, artifacts[p].id@)
}

/// Whether models that carry one label hold only artifacts that chains join.
spec fn labels_are_chains(
    artifacts: Seq<Artifact>,
    models: Seq<Family>,
    labels: Seq<int>,
) -> bool {
    forall|x: int, y: int, p: int, q: int|
        #[trigger] member(models, artifacts, x, p) && #[trigger] member(models, artifacts, y, q)
            && labels[x] == labels[y] ==> chained(artifacts, p, q)
}

/// The members of a model by name go by its name.
proof fn lemma_member_name(artifacts: Seq<Artifact>, x: int, p: int)
    requires
        ids_distinct(artifacts),
        member(grouped(artifacts), artifacts, x, p),
    ensures
        known_as(artifacts[p], sorted_names(artifacts)[x]),
{
    let i = lemma_who(artifacts, sorted_names(artifacts)[x], artifacts[p].id@);
    if i != p {
        let (a, b) = if i < p {
            (i, p)
        } else {
            (p, i)
        };
        assert(artifacts[a].id@ != artifacts[b].id@);
    }
}

/// Joining the labels of two models with linked members keeps labels chains.
proof fn lemma_relabelled_chains(
    artifacts: Seq<Artifact>,
    models: Seq<Family>,
    labels: Seq<int>,
    a: int,
    b: int,
    u: int,
    v: int,
)
    requires
        labels.len() == models.len(),
        labels_are_chains(artifacts, models, labels),
        member(models, artifacts, a, u),
        member(models, artifacts, b, v),
        linked(artifacts, u, v),
    ensures
        labels_are_chains(artifacts, models, relabelled(labels, a, b)),
{
    let after = relabelled(labels, a, b);
    lemma_link_chains(artifacts, u, v);
    assert(linked(artifacts, v, u));
    lemma_link_chains(artifacts, v, u);
    assert forall|x: int, y: int, p: int, q: int|
        #[trigger] member(models, artifacts, x, p) && #[trigger] member(models, artifacts, y, q)
            && after[x] == after[y] implies chained(artifacts, p, q) by {
        if labels[x] != labels[y] {
            if labels[x] == labels[a] {
                lemma_chains_join(artifacts, p, u, v);
                lemma_chains_join(artifacts, p, v, q);
            } else {
                lemma_chains_join(artifacts, p, v, u);
                lemma_chains_join(artifacts, p, u, q);
            }
        }
    }
}

/// The model that owns an id holds it.
proof fn lemma_owner_holds(models: Seq<Family>, id: Seq<char>)
    requires
        owner(models, id) is Some,
    ensures
        0 <= owner(models, id)->0 < models.len(),
        holds(models[owner(models, id)->0].ids, id),
    decreases models.len(),
{
    if !holds(models.last().ids, id) {
        lemma_owner_holds(models.drop_last(), id);
    }
}

/// The artifact of a group that one of its owners holds.
proof fn lemma_owned(
    artifacts: Seq<Artifact>,
    models: Seq<Family>,
    g: int,
    k: int,
) -> (u: int)
    requires
        0 <= g < groups_of(artifacts).len(),
        0 <= k < owners(models, groups_of(artifacts)[g]).len(),
    ensures
        member(models, artifacts, owners(models, groups_of(artifacts)[g])[k], u),
        artifacts[u].key == Some(keys_of(artifacts)[g]),
{
    let ids = groups_of(artifacts)[g];
    let f = |id: ArtifactId| owner(models, id@);
    lemma_filter_map_members(ids, f);
    let i = choose|i: int|
        0 <= i < ids.len() && f(#[trigger] ids[i]) == Some(#[trigger] ids.filter_map(f)[k]);
    lemma_owner_holds(models, ids[i]@);
    a_group_is_an_allocation(artifacts);
    assert(groups_of(artifacts)[g][i] == ids[i]);
    choose|u: int|
        0 <= u < artifacts.len() && (#[trigger] artifacts[u]).id == groups_of(artifacts)[g][i]
            && artifacts[u].key == Some(keys_of(artifacts)[g])
}

proof fn lemma_united_chains(
    artifacts: Seq<Artifact>,
    models: Seq<Family>,
    labels: Seq<int>,
    g: int,
    n: nat,
)
    requires
        labels.len() == models.len(),
        labels_are_chains(artifacts, models, labels),
        0 <= g < groups_of(artifacts).len(),
        n <= owners(models, groups_of(artifacts)[g]).len(),
    ensures
        labels_are_chains(
            artifacts,
            models,
            united(labels, owners(models, groups_of(artifacts)[g]), n),
        ),
        united(labels, owners(models, groups_of(artifacts)[g]), n).len() == labels.len(),
    decreases n,
{
    let together = owners(models, groups_of(artifacts)[g]);
    if n > 1 {
        lemma_united_chains(artifacts, models, labels, g, (n - 1) as nat);
        let u = lemma_owned(artifacts, models, g, 0);
        let v = lemma_owned(artifacts, models, g, n - 1);
        lemma_relabelled_chains(
            artifacts,
            models,
            united(labels, together, (n - 1) as nat),
            together[0],
            together[n - 1],
            u,
            v,
        );
    }
}

proof fn lemma_labelled_chains(artifacts: Seq<Artifact>, n: nat)
    requires
        ids_distinct(artifacts),
        n <= shared(groups_of(artifacts)).len(),
    ensures
        labels_are_chains(
            artifacts,
            grouped(artifacts),
            labelled(grouped(artifacts), shared(groups_of(artifacts)), n),
        ),
        labelled(grouped(artifacts), shared(groups_of(artifacts)), n).len() == grouped(
            artifacts,
        ).len(),
    decreases n,
{
    let models = grouped(artifacts);
    let groups = groups_of(artifacts);
    let sharing = shared(groups);
    if n == 0 {
        let labels = labelled(models, sharing, 0);
        assert forall|x: int, y: int, p: int, q: int|
            #[trigger] member(models, artifacts, x, p) && #[trigger] member(
                models,
                artifacts,
                y,
                q,
            ) && labels[x] == labels[y] implies chained(artifacts, p, q) by {
            lemma_member_name(artifacts, x, p);
            lemma_member_name(artifacts, y, q);
            assert(linked(artifacts, p, q));
            lemma_link_chains(artifacts, p, q);
        }
    } else {
        lemma_labelled_chains(artifacts, (n - 1) as nat);
        let p = |s: Seq<ArtifactId>| s.len() > 1;
        lemma_filter_members(groups, p);
        assert(groups.contains(sharing[n - 1]));
        let g = groups.index_of(sharing[n - 1]);
        lemma_united_chains(
            artifacts,
            models,
            labelled(models, sharing, (n - 1) as nat),
            g,
            owners(models, groups[g]).len(),
        );
    }
}

/// Two artifacts are one model only where something says so: a chain of
/// artifacts leads from one to the other, each going by the next one's name or
/// reaching its allocation.
pub proof fn one_model_only_by_names_and_allocations(
    artifacts: Seq<Artifact>,
    m: int,
    i: int,
    j: int,
)
    requires
        ids_distinct(artifacts),
        0 <= i < artifacts.len(),
        0 <= j < artifacts.len(),
        0 <= m < unified(grouped(artifacts), groups_of(artifacts)).len(),
        holds(unified(grouped(artifacts), groups_of(artifacts))[m].ids, artifacts[i].id@),
        holds(unified(grouped(artifacts), groups_of(artifacts))[m].ids, artifacts[j].id@),
    ensures
        chained(artifacts, i, j),
{
    let models = grouped(artifacts);
    let groups = groups_of(artifacts);
    let sharing = shared(groups);
    let labels = labelled(models, sharing, sharing.len());
    lemma_labelled_chains(artifacts, sharing.len());
    let f = |l: int| under_label(models, labels, l);
    let marks = below(models.len());
    lemma_filter_map_members(marks, f);
    let l = choose|l: int|
        0 <= l < marks.len() && f(#[trigger] marks[l]) == Some(#[trigger] marks.filter_map(f)[m]);
    let x = lemma_gathered_from(models, labels, l, models.len(), artifacts[i].id@);
    let y = lemma_gathered_from(models, labels, l, models.len(), artifacts[j].id@);
    assert(member(models, artifacts, x, i));
    assert(member(models, artifacts, y, j));
}

} // verus!
