//! Why a canonical name is one for every build of a model.
use vstd::prelude::*;

use crate::inventory::identity::{
    bare, before_tag, canonical, decoration, edge, past_publisher, telling, tells, undotted,
};
use crate::seqs::lemma_filter_members;
use crate::text::{
    cut_first, ends, find_from, joined, lemma_find_from, lemma_split_len, lower_char, lowered,
    occurs, split, strip_back, strip_front, trimmed_end, upper_char, uppered,
};

verus! {

/// Whether a text holds no ASCII upper-case letter.
pub open spec fn lower_case(s: Seq<char>) -> bool {
    forall|i: int| 0 <= i < s.len() ==> !(65 <= (#[trigger] s[i]) as u32 <= 90)
}

/// Whether every text of a list is in lower case.
pub open spec fn all_lower(v: Seq<Seq<char>>) -> bool {
    forall|i: int| 0 <= i < v.len() ==> lower_case(#[trigger] v[i])
}

proof fn lemma_lowered(s: Seq<char>)
    ensures
        lower_case(lowered(s)),
{
    assert forall|i: int| 0 <= i < lowered(s).len() implies !(65 <= (#[trigger] lowered(
        s,
    )[i]) as u32 <= 90) by {
        assert(lowered(s)[i] == lower_char(s[i]));
    }
}

proof fn lemma_split_lower(s: Seq<char>, sep: char)
    requires
        lower_case(s),
    ensures
        all_lower(split(s, sep)),
    decreases s.len(),
{
    if s.len() > 0 {
        let t = s.drop_last();
        assert(lower_case(t)) by {
            assert forall|i: int| 0 <= i < t.len() implies !(65 <= (#[trigger] t[i]) as u32
                <= 90) by {
                assert(t[i] == s[i]);
            }
        }
        lemma_split_lower(t, sep);
        lemma_split_len(t, sep);
        let pieces = split(t, sep);
        let open = pieces.last().push(s.last());
        assert(lower_case(pieces[pieces.len() - 1]));
        assert(lower_case(open)) by {
            assert forall|i: int| 0 <= i < open.len() implies !(65 <= (#[trigger] open[i]) as u32
                <= 90) by {
                if i < open.len() - 1 {
                    assert(open[i] == pieces.last()[i]);
                } else {
                    assert(open[i] == s[s.len() - 1]);
                }
            }
        }
        let all = split(s, sep);
        assert forall|k: int| 0 <= k < all.len() implies lower_case(#[trigger] all[k]) by {
            if k < pieces.len() - 1 {
                assert(all[k] == pieces[k]);
            }
        }
    }
}

proof fn lemma_joined_lower(v: Seq<Seq<char>>, sep: Seq<char>)
    requires
        all_lower(v),
        lower_case(sep),
    ensures
        lower_case(joined(v, sep)),
    decreases v.len(),
{
    if v.len() == 1 {
        assert(lower_case(v[0]));
    } else if v.len() > 1 {
        let front = v.drop_last();
        assert forall|k: int| 0 <= k < front.len() implies lower_case(#[trigger] front[k]) by {
            assert(front[k] == v[k]);
        }
        lemma_joined_lower(front, sep);
        assert(lower_case(v[v.len() - 1]));
        let a = joined(front, sep);
        let all = a + sep + v.last();
        assert forall|i: int| 0 <= i < all.len() implies !(65 <= (#[trigger] all[i]) as u32
            <= 90) by {
            if i < a.len() {
                assert(all[i] == a[i]);
            } else if i < a.len() + sep.len() {
                assert(all[i] == sep[i - a.len()]);
            } else {
                assert(all[i] == v.last()[i - a.len() - sep.len()]);
            }
        }
    }
}

proof fn lemma_undotted_lower(word: Seq<char>)
    requires
        lower_case(word),
    ensures
        lower_case(undotted(word)),
{
    reveal_strlit(".");
    let pieces = split(word, '.');
    lemma_split_lower(word, '.');
    lemma_split_len(word, '.');
    let rest = pieces.skip(1);
    let p = |t: Seq<char>| !decoration(t);
    lemma_filter_members(rest, p);
    let kept = seq![pieces[0]] + rest.filter(p);
    assert forall|k: int| 0 <= k < kept.len() implies lower_case(#[trigger] kept[k]) by {
        if k == 0 {
            assert(lower_case(pieces[0]));
        } else {
            assert(kept[k] == rest.filter(p)[k - 1]);
            assert(rest.contains(kept[k]));
            let i = rest.index_of(kept[k]);
            assert(pieces[i + 1] == kept[k]);
        }
    }
    lemma_joined_lower(kept, "."@);
}

proof fn lemma_telling_lower(s: Seq<char>)
    requires
        lower_case(s),
    ensures
        lower_case(telling(s)),
{
    reveal_strlit("-");
    let pieces = split(s, '-');
    lemma_split_lower(s, '-');
    let words = pieces.map_values(|t: Seq<char>| undotted(t));
    let p = |t: Seq<char>| tells(t);
    lemma_filter_members(words, p);
    let kept = words.filter(p);
    assert forall|k: int| 0 <= k < kept.len() implies lower_case(#[trigger] kept[k]) by {
        assert(words.contains(kept[k]));
        let i = words.index_of(kept[k]);
        assert(lower_case(pieces[i]));
        lemma_undotted_lower(pieces[i]);
        assert(words[i] == undotted(pieces[i]));
    }
    lemma_joined_lower(kept, "-"@);
}

proof fn lemma_trimmed_lower(s: Seq<char>, p: Seq<char>)
    requires
        lower_case(s),
    ensures
        lower_case(trimmed_end(s, p)),
    decreases s.len(),
{
    if p.len() > 0 && ends(s, p) {
        let t = s.take(s.len() - p.len());
        assert forall|i: int| 0 <= i < t.len() implies !(65 <= (#[trigger] t[i]) as u32 <= 90) by {
            assert(t[i] == s[i]);
        }
        lemma_trimmed_lower(t, p);
    }
}

/// What stripping both ends leaves has nothing to strip at either end, and is
/// made of what was there.
proof fn lemma_stripped(s: Seq<char>)
    ensures
        ({
            let r = strip_back(strip_front(s, |c: char| edge(c)), |c: char| edge(c));
            &&& r.len() > 0 ==> !edge(r[0]) && !edge(r.last())
            &&& lower_case(s) ==> lower_case(r)
        }),
{
    let p = |c: char| edge(c);
    lemma_front(s);
    lemma_back(strip_front(s, p));
}

proof fn lemma_front(s: Seq<char>)
    ensures
        ({
            let r = strip_front(s, |c: char| edge(c));
            &&& r.len() > 0 ==> !edge(r[0])
            &&& lower_case(s) ==> lower_case(r)
        }),
    decreases s.len(),
{
    if s.len() > 0 && edge(s[0]) {
        let t = s.drop_first();
        if lower_case(s) {
            assert forall|i: int| 0 <= i < t.len() implies !(65 <= (#[trigger] t[i]) as u32
                <= 90) by {
                assert(t[i] == s[i + 1]);
            }
        }
        lemma_front(t);
    }
}

proof fn lemma_back(s: Seq<char>)
    ensures
        ({
            let r = strip_back(s, |c: char| edge(c));
            &&& r.len() > 0 ==> !edge(r.last())
            &&& r.len() > 0 ==> r[0] == s[0]
            &&& lower_case(s) ==> lower_case(r)
        }),
    decreases s.len(),
{
    if s.len() > 0 && edge(s.last()) {
        let t = s.drop_last();
        if lower_case(s) {
            assert forall|i: int| 0 <= i < t.len() implies !(65 <= (#[trigger] t[i]) as u32
                <= 90) by {
                assert(t[i] == s[i]);
            }
        }
        lemma_back(t);
    }
}

/// Where a character does not stand, a text is not cut.
pub(crate) proof fn lemma_not_cut(s: Seq<char>, p: Seq<char>, c: char)
    requires
        p == seq![c],
        !s.contains(c),
    ensures
        cut_first(s, p) is None,
{
    lemma_find_from(s, p, 0);
    if let Some(i) = find_from(s, p, 0) {
        assert(s.subrange(i, i + 1)[0] == p[0]);
        assert(s[i] == c);
    }
}

/// A text is cut at the first of a character, whatever follows.
proof fn lemma_cut_at(a: Seq<char>, b: Seq<char>, p: Seq<char>, c: char)
    requires
        p == seq![c],
        !a.contains(c),
    ensures
        cut_first(a + p + b, p) == Some((a, b)),
{
    let s = a + p + b;
    let n = a.len() as int;
    lemma_find_from(s, p, 0);
    assert(s.subrange(n, n + 1) =~= p);
    assert(occurs(s, p, n));
    let i = find_from(s, p, 0)->0;
    assert(s.subrange(i, i + 1)[0] == p[0]);
    assert(s[i] == c);
    if i < n {
        assert(a[i] == c);
    }
    assert(i == n);
    assert(s.take(n) =~= a);
    assert(s.skip(n + 1) =~= b);
}

/// The first of a character in a text, and what stands on either side.
proof fn lemma_parted(s: Seq<char>, c: char) -> (r: (Seq<char>, Seq<char>))
    requires
        s.contains(c),
    ensures
        s == r.0 + seq![c] + r.1,
        !r.0.contains(c),
    decreases s.len(),
{
    if s[0] == c {
        let r = (Seq::<char>::empty(), s.drop_first());
        assert(s =~= r.0 + seq![c] + r.1);
        r
    } else {
        let t = s.drop_first();
        let i = s.index_of(c);
        assert(t[i - 1] == c);
        let (a, b) = lemma_parted(t, c);
        let r = (seq![s[0]] + a, b);
        assert(s =~= seq![s[0]] + t);
        assert(r.0 + seq![c] + r.1 =~= seq![s[0]] + (a + seq![c] + b));
        assert(!r.0.contains(c)) by {
            if r.0.contains(c) {
                let k = r.0.index_of(c);
                assert(k > 0);
                assert(a[k - 1] == c);
            }
        }
        r
    }
}

pub(crate) proof fn lemma_lowered_parts(a: Seq<char>, b: Seq<char>)
    ensures
        lowered(a + b) == lowered(a) + lowered(b),
{
    assert(lowered(a + b) =~= lowered(a) + lowered(b));
}

/// Lowering brings in no character that is no letter.
pub(crate) proof fn lemma_lowered_without(s: Seq<char>, c: char)
    requires
        !s.contains(c),
        c == '/' || c == ':',
    ensures
        !lowered(s).contains(c),
{
    if lowered(s).contains(c) {
        let i = lowered(s).index_of(c);
        assert(lower_char(s[i]) == c);
        assert(s[i] == c);
    }
}

/// A publisher is no part of a name.
pub(crate) proof fn lemma_publisher(p: Seq<char>, x: Seq<char>)
    requires
        !p.contains('/'),
        !x.contains('/'),
    ensures
        canonical(p + "/"@ + x) == canonical(x),
{
    reveal_strlit("/");
    assert("/"@ =~= seq!['/']);
    lemma_lowered_parts(p + "/"@, x);
    lemma_lowered_parts(p, "/"@);
    assert(lowered("/"@) =~= "/"@);
    lemma_lowered_without(p, '/');
    lemma_lowered_without(x, '/');
    lemma_cut_at(lowered(p), lowered(x), "/"@, '/');
    lemma_not_cut(lowered(x), "/"@, '/');
}

/// An extension is no part of a name.
pub(crate) proof fn lemma_extension(x: Seq<char>)
    ensures
        canonical(x + ".gguf"@) == canonical(x),
{
    reveal_strlit("/");
    reveal_strlit(":");
    reveal_strlit(".gguf");
    assert("/"@ =~= seq!['/']);
    assert(":"@ =~= seq![':']);
    let e = ".gguf"@;
    let whole = lowered(x);
    lemma_lowered_parts(x, e);
    assert(lowered(e) =~= e);
    if whole.contains('/') {
        let (a, b) = lemma_parted(whole, '/');
        lemma_cut_at(a, b, "/"@, '/');
        assert(whole + e =~= a + "/"@ + (b + e));
        lemma_cut_at(a, b + e, "/"@, '/');
    } else {
        assert(!(whole + e).contains('/')) by {
            if (whole + e).contains('/') {
                let i = (whole + e).index_of('/');
                if i < whole.len() {
                    assert(whole[i] == '/');
                } else {
                    assert(e[i - whole.len()] == '/');
                }
            }
        }
        lemma_not_cut(whole, "/"@, '/');
        lemma_not_cut(whole + e, "/"@, '/');
    }
    let y = past_publisher(whole);
    assert(past_publisher(whole + e) == y + e);
    if y.contains(':') {
        let (a, b) = lemma_parted(y, ':');
        lemma_cut_at(a, b, ":"@, ':');
        assert(y + e =~= a + ":"@ + (b + e));
        lemma_cut_at(a, b + e, ":"@, ':');
    } else {
        assert(!(y + e).contains(':')) by {
            if (y + e).contains(':') {
                let i = (y + e).index_of(':');
                if i < y.len() {
                    assert(y[i] == ':');
                } else {
                    assert(e[i - y.len()] == ':');
                }
            }
        }
        lemma_not_cut(y, ":"@, ':');
        lemma_not_cut(y + e, ":"@, ':');
        let s = y + e;
        assert(s.subrange(s.len() - e.len(), s.len() as int) =~= e);
        assert(ends(s, e));
        assert(s.take(s.len() - e.len()) =~= y);
        assert(trimmed_end(s, e) == trimmed_end(y, e));
    }
}

/// Case is no part of a name.
pub(crate) proof fn lemma_case(x: Seq<char>)
    ensures
        canonical(uppered(x)) == canonical(x),
        canonical(lowered(x)) == canonical(x),
{
    assert forall|i: int| 0 <= i < x.len() implies #[trigger] lowered(uppered(x))[i] == lowered(
        x,
    )[i] by {
        assert(uppered(x)[i] == upper_char(x[i]));
        assert(lower_char(upper_char(x[i])) == lower_char(x[i]));
    }
    assert(lowered(uppered(x)) =~= lowered(x));
    assert forall|i: int| 0 <= i < x.len() implies #[trigger] lowered(lowered(x))[i] == lowered(
        x,
    )[i] by {
        assert(lower_char(lower_char(x[i])) == lower_char(x[i]));
    }
    assert(lowered(lowered(x)) =~= lowered(x));
}

/// A canonical name is in lower case and has no separator at either end.
pub(crate) proof fn lemma_plain(raw: Seq<char>)
    ensures
        lower_case(canonical(raw)),
        canonical(raw).len() > 0 ==> !edge(canonical(raw)[0]) && !edge(canonical(raw).last()),
{
    let a = lowered(raw);
    lemma_lowered(raw);
    let b = past_publisher(a);
    assert(lower_case(b)) by {
        lemma_cut_lower(a, "/"@);
    }
    let c = before_tag(b);
    assert(lower_case(c)) by {
        lemma_cut_lower(b, ":"@);
    }
    lemma_trimmed_lower(c, ".gguf"@);
    lemma_trimmed_lower(trimmed_end(c, ".gguf"@), ".safetensors"@);
    lemma_trimmed_lower(trimmed_end(trimmed_end(c, ".gguf"@), ".safetensors"@), ".npz"@);
    lemma_trimmed_lower(
        trimmed_end(trimmed_end(trimmed_end(c, ".gguf"@), ".safetensors"@), ".npz"@),
        ".json"@,
    );
    lemma_telling_lower(bare(c));
    lemma_stripped(telling(bare(c)));
}

proof fn lemma_cut_lower(s: Seq<char>, p: Seq<char>)
    requires
        lower_case(s),
    ensures
        cut_first(s, p) matches Some((a, b)) ==> lower_case(a) && lower_case(b),
{
    lemma_find_from(s, p, 0);
    if let Some((a, b)) = cut_first(s, p) {
        let i = find_from(s, p, 0)->0;
        assert forall|k: int| 0 <= k < a.len() implies !(65 <= (#[trigger] a[k]) as u32 <= 90) by {
            assert(a[k] == s[k]);
        }
        assert forall|k: int| 0 <= k < b.len() implies !(65 <= (#[trigger] b[k]) as u32 <= 90) by {
            assert(b[k] == s[k + i + p.len()]);
        }
    }
}

} // verus!
