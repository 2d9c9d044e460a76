//! What a name says of a file and of the model behind it.
use vstd::prelude::*;

use crate::inventory::artifact::{bits_of, depths, format_of, marked, marked_loosely, Format};
use crate::inventory::identity::{
    bare, before_tag, bit_name, canonical, decoration, edge, past_publisher, quant_char,
    quant_tail, telling, tells, undotted,
};
use crate::inventory::naming::{lemma_lowered_parts, lemma_lowered_without, lemma_not_cut};
use crate::seqs::{first_index, lemma_filter_members, lemma_filter_take, lemma_first_index};
use crate::text::{
    all_digits, ascii_digit, ascii_letter, ends, has, joined, lemma_split_len, lower_char, lowered,
    split, upper_char, uppered,
};

verus! {

/// Whether a word is written as a quantisation is from a place on: a digit, and
/// then digits, letters and underscores.
pub open spec fn quantised_from(d: Seq<char>, n: int) -> bool {
    &&& n < d.len()
    &&& ascii_digit(d[n])
    &&& forall|i: int|
        n < i < d.len() ==> ascii_digit(#[trigger] d[i]) || ascii_letter(d[i]) || d[i] == '_'
}

/// Whether a word says how a model was built and not which it is: a
/// quantisation, `q4_k_m` or `iq2_xxs`; a width, `4bit`; or the name of a
/// container, a method or a precision.
pub open spec fn built_how(d: Seq<char>) -> bool {
    ||| d.len() > 0 && d[0] == 'q' && quantised_from(d, 1)
    ||| d.len() > 1 && d[0] == 'i' && d[1] == 'q' && quantised_from(d, 2)
    ||| exists|w: Seq<char>| w.len() > 0 && all_digits(w) && d == #[trigger] (w + "bit"@)
    ||| seq![
        "gguf"@,
        "mlx"@,
        "imatrix"@,
        "awq"@,
        "gptq"@,
        "fp8"@,
        "bnb"@,
        "bitsandbytes"@,
        "bf16"@,
        "fp16"@,
        "f16"@,
        "int4"@,
        "int8"@,
        "ud"@,
        "mtp"@,
    ].contains(d)
}

#[verifier::rlimit(40)]
proof fn lemma_built_how(d: Seq<char>)
    ensures
        decoration(d) <==> built_how(d),
{
    reveal_strlit("iq");
    reveal_strlit("q");
    reveal_strlit("bit");
    let iq = crate::text::after_prefix(d, "iq"@);
    let q = crate::text::after_prefix(d, "q"@);
    assert(iq is Some <==> d.len() > 1 && d[0] == 'i' && d[1] == 'q') by {
        if d.len() > 1 && d[0] == 'i' && d[1] == 'q' {
            assert(d.subrange(0, 2) =~= "iq"@);
        }
        if iq is Some {
            assert(d.subrange(0, 2)[0] == "iq"@[0] && d.subrange(0, 2)[1] == "iq"@[1]);
        }
    }
    assert(q is Some <==> d.len() > 0 && d[0] == 'q') by {
        if d.len() > 0 && d[0] == 'q' {
            assert(d.subrange(0, 1) =~= "q"@);
        }
        if q is Some {
            assert(d.subrange(0, 1)[0] == "q"@[0]);
        }
    }
    if let Some(r) = iq {
        lemma_tail(d, r, 2);
    }
    if let Some(r) = q {
        lemma_tail(d, r, 1);
    }
    if bit_name(d) {
        let w = crate::text::before_suffix(d, "bit"@)->0;
        assert(d =~= w + "bit"@) by {
            assert(d.subrange(d.len() - 3, d.len() as int) == "bit"@);
            assert forall|i: int| 0 <= i < d.len() implies #[trigger] d[i] == (w + "bit"@)[i] by {
                if i >= d.len() - 3 {
                    assert(d.subrange(d.len() - 3, d.len() as int)[i - (d.len() - 3)] == d[i]);
                }
            }
        }
    }
    if exists|w: Seq<char>| w.len() > 0 && all_digits(w) && d == #[trigger] (w + "bit"@) {
        let w = choose|w: Seq<char>| w.len() > 0 && all_digits(w) && d == #[trigger] (w + "bit"@);
        assert(d.subrange(d.len() - 3, d.len() as int) =~= "bit"@);
        assert(d.take(d.len() - 3) =~= w);
    }
}

proof fn lemma_tail(d: Seq<char>, r: Seq<char>, n: int)
    requires
        0 <= n <= d.len(),
        r == d.skip(n),
    ensures
        quant_tail(r) <==> quantised_from(d, n),
{
    if quant_tail(r) {
        assert forall|i: int| n < i < d.len() implies ascii_digit(#[trigger] d[i]) || ascii_letter(
            d[i],
        ) || d[i] == '_' by {
            assert(quant_char(r[i - n]));
        }
    }
    if quantised_from(d, n) {
        assert(r[0] == d[n]);
        assert forall|i: int| 1 <= i < r.len() implies quant_char(#[trigger] r[i]) by {
            assert(d[i + n] == r[i]);
        }
    }
}

/// What is joined again where it was split is what it was.
proof fn lemma_join_split(s: Seq<char>, c: char)
    ensures
        joined(split(s, c), seq![c]) == s,
    decreases s.len(),
{
    lemma_split_len(s, c);
    if s.len() == 0 {
        assert(split(s, c)[0] =~= s);
    } else {
        let t = s.drop_last();
        lemma_split_len(t, c);
        lemma_join_split(t, c);
        let pieces = split(t, c);
        let all = split(s, c);
        if s.last() == c {
            assert(all.drop_last() =~= pieces);
            assert(joined(all, seq![c]) =~= s);
        } else {
            let front = pieces.drop_last();
            assert(all.drop_last() =~= front);
            assert(all.last() == pieces.last().push(s.last()));
            if front.len() == 0 {
                assert(pieces[0] == t);
                assert(all[0] =~= s);
            } else {
                assert(joined(all, seq![c]) =~= joined(pieces, seq![c]).push(s.last()));
                assert(t.push(s.last()) =~= s);
            }
        }
    }
}

/// What has no separator in it goes on with the last piece.
proof fn lemma_split_on(s: Seq<char>, d: Seq<char>, c: char)
    requires
        !d.contains(c),
    ensures
        split(s + d, c) == split(s, c).drop_last().push(split(s, c).last() + d),
    decreases d.len(),
{
    lemma_split_len(s, c);
    let pieces = split(s, c);
    if d.len() == 0 {
        assert(s + d =~= s);
        assert(pieces.last() + d =~= pieces.last());
        assert(pieces.drop_last().push(pieces.last()) =~= pieces);
    } else {
        let e = d.drop_last();
        assert(!e.contains(c)) by {
            if e.contains(c) {
                let i = e.index_of(c);
                assert(d[i] == c);
            }
        }
        lemma_split_on(s, e, c);
        assert((s + d).drop_last() =~= s + e);
        assert((s + d).last() == d.last());
        assert(d.last() != c) by {
            assert(d[d.len() - 1] == d.last());
        }
        let before = split(s + e, c);
        assert(before.drop_last() =~= pieces.drop_last());
        assert(before.last().push(d.last()) =~= pieces.last() + d);
    }
}

/// One word more is one piece more.
pub(crate) proof fn lemma_one_word_more(s: Seq<char>, d: Seq<char>)
    requires
        !d.contains('-'),
    ensures
        split(s + "-"@ + d, '-') == split(s, '-').push(d),
{
    reveal_strlit("-");
    let t = s + "-"@;
    assert(t.drop_last() =~= s);
    assert(t.last() == '-');
    lemma_split_on(t, d, '-');
    assert(Seq::<char>::empty() + d =~= d);
    assert(split(t, '-').drop_last() =~= split(s, '-'));
}

proof fn lemma_no_dot(d: Seq<char>)
    requires
        !d.contains('.'),
    ensures
        undotted(d) == d,
{
    let e = Seq::<char>::empty();
    lemma_split_on(e, d, '.');
    assert(e + d =~= d);
    assert(split(e, '.').drop_last() =~= Seq::<Seq<char>>::empty());
    assert(split(d, '.') =~= seq![d]);
    let none = split(d, '.').skip(1);
    assert(none =~= Seq::<Seq<char>>::empty());
    lemma_filter_members(none, |t: Seq<char>| !decoration(t));
    assert(seq![d] + none.filter(|t: Seq<char>| !decoration(t)) =~= seq![d]);
}

/// Whether a name ends in one of the extensions that come off it.
pub open spec fn has_extension(s: Seq<char>) -> bool {
    ends(s, ".gguf"@) || ends(s, ".safetensors"@) || ends(s, ".npz"@) || ends(s, ".json"@)
}

proof fn lemma_as_it_is(s: Seq<char>)
    requires
        !s.contains('/'),
        !s.contains(':'),
        !has_extension(s),
    ensures
        bare(before_tag(past_publisher(s))) == s,
{
    reveal_strlit("/");
    reveal_strlit(":");
    assert("/"@ =~= seq!['/']);
    assert(":"@ =~= seq![':']);
    lemma_not_cut(s, "/"@, '/');
    lemma_not_cut(s, ":"@, ':');
}

/// How a model was built is no part of its name: another word that says so,
/// behind any name, leaves the canonical name as it was.
#[verifier::rlimit(40)]
pub proof fn how_it_was_built_does_not_matter(x: Seq<char>, d: Seq<char>)
    requires
        built_how(d),
        lowered(d) == d,
        forall|i: int|
            0 <= i < d.len() ==> #[trigger] d[i] != '-' && d[i] != '.' && d[i] != '/' && d[i] != ':',
        !x.contains('/'),
        !x.contains(':'),
        !has_extension(lowered(x)),
    ensures
        canonical(x + "-"@ + d) == canonical(x),
{
    reveal_strlit("-");
    let y = lowered(x);
    let z = y + "-"@ + d;
    lemma_lowered_parts(x + "-"@, d);
    lemma_lowered_parts(x, "-"@);
    assert(lowered("-"@) =~= "-"@);
    lemma_lowered_without(x, '/');
    lemma_lowered_without(x, ':');
    assert forall|c: char| (c == '/' || c == ':') implies !z.contains(c) by {
        if z.contains(c) {
            let i = z.index_of(c);
            if i < y.len() {
                assert(y[i] == c);
            } else if i > y.len() {
                assert(d[i - y.len() - 1] == c);
            }
        }
    }
    lemma_built_how(d);
    assert(d.len() > 0) by {
        lemma_not_empty(d);
    }
    assert(!has_extension(z)) by {
        reveal_strlit(".gguf");
        reveal_strlit(".safetensors");
        reveal_strlit(".npz");
        reveal_strlit(".json");
        assert(z.subrange(z.len() - d.len(), z.len() as int) =~= d);
        lemma_no_extension(z, d, ".gguf"@);
        lemma_no_extension(z, d, ".safetensors"@);
        lemma_no_extension(z, d, ".npz"@);
        lemma_no_extension(z, d, ".json"@);
    }
    lemma_as_it_is(y);
    lemma_as_it_is(z);
    assert(!d.contains('-'));
    assert(!d.contains('.'));
    lemma_one_word_more(y, d);
    lemma_no_dot(d);
    let f = |t: Seq<char>| undotted(t);
    let p = |t: Seq<char>| tells(t);
    let words = split(y, '-').map_values(f);
    let more = split(z, '-').map_values(f);
    assert(more =~= words.push(d));
    words.lemma_filter_push(d, p);
    assert(telling(z) == telling(y));
}

proof fn lemma_not_empty(d: Seq<char>)
    requires
        built_how(d),
    ensures
        d.len() > 0,
{
    reveal_strlit("bit");
    reveal_strlit("gguf");
    reveal_strlit("mlx");
    reveal_strlit("imatrix");
    reveal_strlit("awq");
    reveal_strlit("gptq");
    reveal_strlit("fp8");
    reveal_strlit("bnb");
    reveal_strlit("bitsandbytes");
    reveal_strlit("bf16");
    reveal_strlit("fp16");
    reveal_strlit("f16");
    reveal_strlit("int4");
    reveal_strlit("int8");
    reveal_strlit("ud");
    reveal_strlit("mtp");
}

/// What ends in a word without a dot ends in no extension, which is dotted and
/// otherwise without a hyphen.
proof fn lemma_no_extension(z: Seq<char>, d: Seq<char>, e: Seq<char>)
    requires
        d.len() > 0,
        d.len() < z.len(),
        z.subrange(z.len() - d.len(), z.len() as int) == d,
        z[z.len() - d.len() - 1] == '-',
        e.len() > 1,
        e[0] == '.',
        forall|i: int| 0 <= i < e.len() ==> #[trigger] e[i] != '-',
        forall|i: int| 0 <= i < d.len() ==> #[trigger] d[i] != '.',
    ensures
        !ends(z, e),
{
    if ends(z, e) {
        let n = z.len() - e.len();
        assert(z.subrange(n, n + e.len()) == e);
        if e.len() <= d.len() {
            assert(z.subrange(n, n + e.len())[0] == z[n]);
            assert(d[n - (z.len() - d.len())] == z[n]);
        } else {
            let h = z.len() - d.len() - 1;
            assert(z.subrange(n, n + e.len())[h - n] == z[h]);
        }
    }
}

/// A name with nothing in it that could be left out is its own canonical name.
#[verifier::rlimit(40)]
pub proof fn a_plain_name_is_its_own(x: Seq<char>)
    requires
        x.len() > 0,
        lowered(x) == x,
        !x.contains('/'),
        !x.contains(':'),
        !has_extension(x),
        !edge(x[0]),
        !edge(x.last()),
        forall|k: int|
            0 <= k < split(x, '-').len() ==> (#[trigger] split(x, '-')[k]).len() > 0 && !built_how(
                split(x, '-')[k],
            ),
        forall|k: int, j: int|
            #![trigger split(split(x, '-')[k], '.')[j]]
            0 <= k < split(x, '-').len() && 0 < j < split(split(x, '-')[k], '.').len() ==> !built_how(
                split(split(x, '-')[k], '.')[j],
            ),
    ensures
        canonical(x) == x,
{
    reveal_strlit("-");
    reveal_strlit(".");
    assert("-"@ =~= seq!['-']);
    assert("."@ =~= seq!['.']);
    lemma_as_it_is(x);
    let words = split(x, '-');
    let f = |t: Seq<char>| undotted(t);
    let p = |t: Seq<char>| tells(t);
    assert forall|k: int| 0 <= k < words.len() implies undotted(#[trigger] words[k]) == words[k]
        && tells(words[k]) by {
        let w = words[k];
        let pieces = split(w, '.');
        let q = |t: Seq<char>| !decoration(t);
        lemma_split_len(w, '.');
        let rest = pieces.skip(1);
        assert forall|j: int| 0 <= j < rest.len() implies q(#[trigger] rest[j]) by {
            assert(rest[j] == pieces[j + 1]);
            assert(!built_how(split(split(x, '-')[k], '.')[j + 1]));
            lemma_built_how(rest[j]);
        }
        lemma_all_kept(rest, q);
        assert(seq![pieces[0]] + rest =~= pieces);
        lemma_join_split(w, '.');
        lemma_built_how(w);
    }
    assert(words.map_values(f) =~= words);
    assert forall|k: int| 0 <= k < words.len() implies p(#[trigger] words[k]) by {}
    lemma_all_kept(words, p);
    lemma_join_split(x, '-');
    assert(telling(x) == x);
}

proof fn lemma_all_kept(s: Seq<Seq<char>>, p: spec_fn(Seq<char>) -> bool)
    requires
        forall|k: int| 0 <= k < s.len() ==> p(#[trigger] s[k]),
    ensures
        s.filter(p) == s,
    decreases s.len(),
{
    if s.len() == 0 {
        lemma_filter_members(s, p);
        assert(s.filter(p) =~= s);
    } else {
        let n = s.len() - 1;
        let t = s.take(n);
        assert forall|k: int| 0 <= k < t.len() implies p(#[trigger] t[k]) by {
            assert(t[k] == s[k]);
        }
        lemma_all_kept(t, p);
        lemma_filter_take(s, p, n);
        assert(s.take(n + 1) =~= s);
        assert(t.push(s[n]) =~= s);
    }
}

/// A file's format is what its name ends in, in any case: a GGUF, safetensors or
/// an MLX archive, and nothing else.
pub proof fn a_format_is_what_the_name_ends_in(x: Seq<char>)
    ensures
        format_of(x) == Format::Gguf <==> ends(lowered(x), ".gguf"@),
        format_of(x) is Safetensors <==> ends(lowered(x), ".safetensors"@),
        format_of(x) == Format::Mlx <==> ends(lowered(x), ".npz"@),
        format_of(x) == Format::Other <==> !(ends(lowered(x), ".gguf"@) || ends(
            lowered(x),
            ".safetensors"@,
        ) || ends(lowered(x), ".npz"@)),
        format_of(uppered(x)) == format_of(x),
{
    reveal_strlit(".gguf");
    reveal_strlit(".safetensors");
    reveal_strlit(".npz");
    let l = lowered(x);
    assert(lowered(uppered(x)) =~= l) by {
        assert forall|i: int| 0 <= i < x.len() implies #[trigger] lowered(uppered(x))[i] == l[i] by {
            assert(uppered(x)[i] == upper_char(x[i]));
            assert(lower_char(upper_char(x[i])) == lower_char(x[i]));
        }
    }
    if ends(l, ".gguf"@) {
        assert(l.subrange(l.len() - 5, l.len() as int)[4] == l.last());
    }
    if ends(l, ".safetensors"@) {
        assert(l.subrange(l.len() - 12, l.len() as int)[11] == l.last());
    }
    if ends(l, ".npz"@) {
        assert(l.subrange(l.len() - 4, l.len() as int)[3] == l.last());
    }
}

/// The width a name carries is two, three, four, five, six or eight bits, the
/// first of them that it marks: as `Q4_` or `-4BIT`, or, only where none is
/// marked so, by a `Q4` at its end or a `4BIT` anywhere.
pub proof fn a_width_is_what_the_name_marks(x: Seq<char>, b: u8)
    ensures
        bits_of(x) matches Some(n) ==> {
            &&& n == 2 || n == 3 || n == 4 || n == 5 || n == 6 || n == 8
            &&& marks(x, n) || marks_loosely(x, n)
        },
        (b == 2 || b == 3 || b == 4 || b == 5 || b == 6 || b == 8) && marks(x, b) ==> bits_of(
            x,
        ) is Some && bits_of(x)->0 <= b && marks(x, bits_of(x)->0),
        (b == 2 || b == 3 || b == 4 || b == 5 || b == 6 || b == 8) && marks_loosely(x, b) ==> bits_of(
            x,
        ) is Some && (marks(x, bits_of(x)->0) || bits_of(x)->0 <= b),
{
    let u = uppered(x);
    let p = |n: u8| marked(u, n);
    let q = |n: u8| marked_loosely(u, n);
    lemma_first_index(depths(), p);
    lemma_first_index(depths(), q);
    let f = first_index(depths(), p);
    let g = first_index(depths(), q);
    if f < depths().len() {
        assert(p(depths()[f]));
    } else if g < depths().len() {
        assert(q(depths()[g]));
    }
    if b == 2 || b == 3 || b == 4 || b == 5 || b == 6 || b == 8 {
        let k: int = if b == 8 {
            5
        } else {
            b - 2
        };
        assert(depths()[k] == b);
        if marks(x, b) {
            assert(p(depths()[k]));
            assert(f <= k);
        }
        if marks_loosely(x, b) {
            assert(q(depths()[k]));
            assert(g <= k);
        }
    }
}

/// A width as it is written.
pub open spec fn digit_of(b: u8) -> Seq<char> {
    if b == 2 {
        "2"@
    } else if b == 3 {
        "3"@
    } else if b == 4 {
        "4"@
    } else if b == 5 {
        "5"@
    } else if b == 6 {
        "6"@
    } else {
        "8"@
    }
}

pub open spec fn marks(x: Seq<char>, b: u8) -> bool {
    has(uppered(x), "Q"@ + digit_of(b) + "_"@) || has(uppered(x), "-"@ + digit_of(b) + "BIT"@)
}

pub open spec fn marks_loosely(x: Seq<char>, b: u8) -> bool {
    ends(uppered(x), "Q"@ + digit_of(b)) || has(uppered(x), digit_of(b) + "BIT"@)
}

} // verus!
