//! Text, as sequences of characters.
//!
//! Every message this crate prints and every name it takes apart goes through
//! here, so that contracts elsewhere can say exactly which characters come out.
use vstd::prelude::*;

verus! {

/// `String::push` puts one character behind the text.
pub assume_specification[ String::push ](s: &mut String, ch: char)
    ensures
        final(s)@ == old(s)@.push(ch),
;

/// What `String::from_utf8_lossy` makes of a run of bytes.
pub uninterp spec fn lossy(bytes: Seq<u8>) -> Seq<char>;

/// `String::from_utf8_lossy`: text out of bytes, with every sequence that is
/// not UTF-8 replaced. The result depends on the bytes alone, and bytes that
/// are UTF-8 come out as the text they encode. What stands in for the others is
/// not stated here beyond that.
#[verifier::external_body]
pub(crate) fn from_utf8_lossy(bytes: &[u8]) -> (r: String)
    ensures
        r@ == lossy(bytes@),
        vstd::utf8::valid_utf8(bytes@) ==> r@ == vstd::utf8::decode_utf8(bytes@),
{
    String::from_utf8_lossy(bytes).into_owned()
}

/// The texts a list of strings holds.
pub open spec fn texts(v: Seq<String>) -> Seq<Seq<char>> {
    v.map_values(|s: String| s@)
}

/// The text of an optional string.
pub open spec fn opt_text(s: Option<String>) -> Option<Seq<char>> {
    match s {
        Some(t) => Some(t@),
        None => None,
    }
}

/// The characters of a string, in order.
pub fn chars(s: &str) -> (cs: Vec<char>)
    ensures
        cs@ == s@,
{
    let mut out: Vec<char> = Vec::new();
    for c in it: s.chars()
        invariant
            out@ == s@.take(it.index() as int),
            it.seq() == s@,
    {
        proof {
            assert(s@.take(it.index() + 1) =~= s@.take(it.index() as int).push(c));
        }
        out.push(c);
    }
    proof {
        assert(s@.take(s@.len() as int) =~= s@);
    }
    out
}

/// The string made of `cs[from..to]`.
pub fn from_chars(cs: &Vec<char>, from: usize, to: usize) -> (s: String)
    requires
        from <= to <= cs.len(),
    ensures
        s@ == cs@.subrange(from as int, to as int),
{
    let mut out = String::new();
    let mut i: usize = from;
    while i < to
        invariant
            from <= i <= to <= cs.len(),
            out@ == cs@.subrange(from as int, i as int),
        decreases to - i,
    {
        proof {
            assert(cs@.subrange(from as int, i + 1) =~= cs@.subrange(from as int, i as int).push(
                cs@[i as int],
            ));
        }
        out.push(cs[i]);
        i += 1;
    }
    out
}

/// Whether two strings hold the same text.
pub fn same(a: &str, b: &str) -> (r: bool)
    ensures
        r == (a@ == b@),
{
    let x = chars(a);
    let y = chars(b);
    if x.len() != y.len() {
        return false;
    }
    let mut i: usize = 0;
    while i < x.len()
        invariant
            i <= x.len() == y.len(),
            x@ == a@,
            y@ == b@,
            forall|j: int| 0 <= j < i ==> x@[j] == y@[j],
        decreases x.len() - i,
    {
        if x[i] != y[i] {
            return false;
        }
        i += 1;
    }
    proof {
        assert(a@ =~= b@);
    }
    true
}

/// Whether two optional strings hold the same text, or both hold none.
pub fn same_opt(a: &Option<String>, b: &Option<String>) -> (r: bool)
    ensures
        r == (opt_text(*a) == opt_text(*b)),
{
    match (a, b) {
        (Some(x), Some(y)) => same(x.as_str(), y.as_str()),
        (None, None) => true,
        _ => false,
    }
}

pub fn cat2(a: &str, b: &str) -> (r: String)
    ensures
        r@ == a@ + b@,
{
    let mut s = a.to_owned();
    s.append(b);
    s
}

pub fn cat3(a: &str, b: &str, c: &str) -> (r: String)
    ensures
        r@ == a@ + b@ + c@,
{
    let mut s = cat2(a, b);
    s.append(c);
    s
}

pub fn cat4(a: &str, b: &str, c: &str, d: &str) -> (r: String)
    ensures
        r@ == a@ + b@ + c@ + d@,
{
    let mut s = cat3(a, b, c);
    s.append(d);
    s
}

pub fn cat5(a: &str, b: &str, c: &str, d: &str, e: &str) -> (r: String)
    ensures
        r@ == a@ + b@ + c@ + d@ + e@,
{
    let mut s = cat4(a, b, c, d);
    s.append(e);
    s
}

pub fn cat6(a: &str, b: &str, c: &str, d: &str, e: &str, f: &str) -> (r: String)
    ensures
        r@ == a@ + b@ + c@ + d@ + e@ + f@,
{
    let mut s = cat5(a, b, c, d, e);
    s.append(f);
    s
}

pub fn cat7(a: &str, b: &str, c: &str, d: &str, e: &str, f: &str, g: &str) -> (r: String)
    ensures
        r@ == a@ + b@ + c@ + d@ + e@ + f@ + g@,
{
    let mut s = cat6(a, b, c, d, e, f);
    s.append(g);
    s
}

/// The texts in order, `sep` between each two.
pub open spec fn joined(parts: Seq<Seq<char>>, sep: Seq<char>) -> Seq<char>
    decreases parts.len(),
{
    if parts.len() == 0 {
        Seq::empty()
    } else if parts.len() == 1 {
        parts[0]
    } else {
        joined(parts.drop_last(), sep) + sep + parts.last()
    }
}

pub fn join(parts: &Vec<String>, sep: &str) -> (r: String)
    ensures
        r@ == joined(texts(parts@), sep@),
{
    if parts.len() == 0 {
        return String::new();
    }
    let mut out = parts[0].clone();
    let mut i: usize = 1;
    let ghost all = texts(parts@);
    proof {
        assert(all.take(1).len() == 1);
    }
    while i < parts.len()
        invariant
            1 <= i <= parts.len(),
            all == texts(parts@),
            out@ == joined(all.take(i as int), sep@),
        decreases parts.len() - i,
    {
        proof {
            assert(all.take(i + 1).drop_last() =~= all.take(i as int));
            assert(all.take(i + 1).last() == parts@[i as int]@);
        }
        out.append(sep);
        out.append(parts[i].as_str());
        i += 1;
    }
    proof {
        assert(all.take(i as int) =~= all);
    }
    out
}

/// The text cut at every `sep`: a separator opens a new piece, and any other
/// character belongs to the piece that is open.
pub open spec fn split(s: Seq<char>, sep: char) -> Seq<Seq<char>>
    decreases s.len(),
{
    if s.len() == 0 {
        seq![Seq::empty()]
    } else {
        let pieces = split(s.drop_last(), sep);
        if s.last() == sep {
            pieces.push(Seq::empty())
        } else {
            pieces.drop_last().push(pieces.last().push(s.last()))
        }
    }
}

pub proof fn lemma_split_len(s: Seq<char>, sep: char)
    ensures
        split(s, sep).len() >= 1,
    decreases s.len(),
{
    if s.len() > 0 {
        lemma_split_len(s.drop_last(), sep);
    }
}

pub fn split_on(s: &str, sep: char) -> (pieces: Vec<String>)
    ensures
        texts(pieces@) == split(s@, sep),
        pieces.len() >= 1,
{
    let cs = chars(s);
    let mut out: Vec<String> = Vec::new();
    let mut open = String::new();
    let mut i: usize = 0;
    proof {
        assert(texts(out@).push(open@) =~= split(cs@.take(0), sep));
    }
    while i < cs.len()
        invariant
            i <= cs.len(),
            texts(out@).push(open@) == split(cs@.take(i as int), sep),
        decreases cs.len() - i,
    {
        let ghost before = texts(out@).push(open@);
        proof {
            assert(cs@.take(i + 1).drop_last() =~= cs@.take(i as int));
            assert(before.drop_last() =~= texts(out@));
        }
        if cs[i] == sep {
            let ghost was = out@;
            let piece = open;
            out.push(piece);
            open = String::new();
            proof {
                assert(texts(out@) =~= texts(was).push(piece@));
            }
        } else {
            open.push(cs[i]);
        }
        i += 1;
    }
    proof {
        assert(cs@.take(i as int) =~= s@);
        assert(texts(out@.push(open)) =~= texts(out@).push(open@));
    }
    out.push(open);
    out
}

/// Whether `p` stands in `s` at place `i`.
pub open spec fn occurs(s: Seq<char>, p: Seq<char>, i: int) -> bool {
    0 <= i && i + p.len() <= s.len() && s.subrange(i, i + p.len()) == p
}

/// Whether `p` stands anywhere in `s`.
pub open spec fn has(s: Seq<char>, p: Seq<char>) -> bool {
    exists|i: int| occurs(s, p, i)
}

/// Whether `p` stands in `cs` at place `i`.
pub fn occurs_at(cs: &Vec<char>, p: &Vec<char>, i: usize) -> (r: bool)
    ensures
        r == occurs(cs@, p@, i as int),
{
    if i > cs.len() || p.len() > cs.len() - i {
        return false;
    }
    let mut j: usize = 0;
    while j < p.len()
        invariant
            j <= p.len(),
            i + p.len() <= cs.len(),
            forall|k: int| 0 <= k < j ==> cs@[i + k] == p@[k],
        decreases p.len() - j,
    {
        if cs[i + j] != p[j] {
            proof {
                assert(cs@.subrange(i as int, i + p@.len())[j as int] != p@[j as int]);
            }
            return false;
        }
        j += 1;
    }
    proof {
        assert(cs@.subrange(i as int, i + p@.len()) =~= p@);
    }
    true
}

/// The first place at or behind `from` where `p` stands in `s`, or `None`.
pub open spec fn find_from(s: Seq<char>, p: Seq<char>, from: int) -> Option<int>
    decreases s.len() - from + 1,
{
    if from < 0 || from + p.len() > s.len() {
        None
    } else if occurs(s, p, from) {
        Some(from)
    } else {
        find_from(s, p, from + 1)
    }
}

pub proof fn lemma_find_from(s: Seq<char>, p: Seq<char>, from: int)
    requires
        0 <= from,
    ensures
        match find_from(s, p, from) {
            Some(i) => from <= i && occurs(s, p, i) && forall|j: int|
                from <= j < i ==> !#[trigger] occurs(s, p, j),
            None => forall|j: int| from <= j ==> !#[trigger] occurs(s, p, j),
        },
    decreases s.len() - from + 1,
{
    if from + p.len() <= s.len() && !occurs(s, p, from) {
        lemma_find_from(s, p, from + 1);
    }
}

pub fn find_chars(cs: &Vec<char>, p: &Vec<char>, from: usize) -> (r: Option<usize>)
    ensures
        match r {
            Some(i) => find_from(cs@, p@, from as int) == Some(i as int),
            None => find_from(cs@, p@, from as int) is None,
        },
{
    let mut i: usize = from;
    while i <= cs.len() && p.len() <= cs.len() - i
        invariant
            find_from(cs@, p@, from as int) == find_from(cs@, p@, i as int),
        decreases cs.len() + 1 - i,
    {
        if occurs_at(cs, p, i) {
            return Some(i);
        }
        if i == cs.len() {
            proof {
                assert(find_from(cs@, p@, i + 1) is None);
            }
            return None;
        }
        i += 1;
    }
    None
}

pub fn contains(s: &str, p: &str) -> (r: bool)
    ensures
        r == has(s@, p@),
{
    let cs = chars(s);
    let ps = chars(p);
    proof {
        lemma_find_from(s@, p@, 0);
    }
    match find_chars(&cs, &ps, 0) {
        Some(_) => true,
        None => {
            proof {
                assert forall|i: int| !occurs(s@, p@, i) by {
                    if 0 <= i {
                        assert(!occurs(s@, p@, i));
                    }
                }
            }
            false
        },
    }
}

pub open spec fn starts(s: Seq<char>, p: Seq<char>) -> bool {
    occurs(s, p, 0)
}

pub open spec fn ends(s: Seq<char>, p: Seq<char>) -> bool {
    occurs(s, p, s.len() - p.len())
}

pub fn starts_with(s: &str, p: &str) -> (r: bool)
    ensures
        r == starts(s@, p@),
{
    occurs_at(&chars(s), &chars(p), 0)
}

pub fn ends_with(s: &str, p: &str) -> (r: bool)
    ensures
        r == ends(s@, p@),
{
    let cs = chars(s);
    let ps = chars(p);
    if ps.len() > cs.len() {
        return false;
    }
    occurs_at(&cs, &ps, cs.len() - ps.len())
}

/// What is left of `s` behind the prefix `p`.
pub open spec fn after_prefix(s: Seq<char>, p: Seq<char>) -> Option<Seq<char>> {
    if starts(s, p) {
        Some(s.skip(p.len() as int))
    } else {
        None
    }
}

/// What is left of `s` before the suffix `p`.
pub open spec fn before_suffix(s: Seq<char>, p: Seq<char>) -> Option<Seq<char>> {
    if ends(s, p) {
        Some(s.take(s.len() - p.len()))
    } else {
        None
    }
}

pub fn strip_prefix(s: &str, p: &str) -> (r: Option<String>)
    ensures
        opt_text(r) == after_prefix(s@, p@),
{
    let cs = chars(s);
    let ps = chars(p);
    if occurs_at(&cs, &ps, 0) {
        proof {
            assert(s@.skip(p@.len() as int) =~= s@.subrange(p@.len() as int, s@.len() as int));
        }
        Some(from_chars(&cs, ps.len(), cs.len()))
    } else {
        None
    }
}

pub fn strip_suffix(s: &str, p: &str) -> (r: Option<String>)
    ensures
        opt_text(r) == before_suffix(s@, p@),
{
    let cs = chars(s);
    let ps = chars(p);
    if ps.len() <= cs.len() && occurs_at(&cs, &ps, cs.len() - ps.len()) {
        Some(from_chars(&cs, 0, cs.len() - ps.len()))
    } else {
        None
    }
}

/// The two sides of the first `p` in `s`.
pub open spec fn cut_first(s: Seq<char>, p: Seq<char>) -> Option<(Seq<char>, Seq<char>)> {
    match find_from(s, p, 0) {
        Some(i) => Some((s.take(i), s.skip(i + p.len()))),
        None => None,
    }
}

/// The text of an optional pair of strings.
pub open spec fn opt_texts(r: Option<(String, String)>) -> Option<(Seq<char>, Seq<char>)> {
    match r {
        Some((a, b)) => Some((a@, b@)),
        None => None,
    }
}

pub fn split_once(s: &str, p: &str) -> (r: Option<(String, String)>)
    ensures
        opt_texts(r) == cut_first(s@, p@),
{
    let cs = chars(s);
    let ps = chars(p);
    proof {
        lemma_find_from(s@, p@, 0);
    }
    match find_chars(&cs, &ps, 0) {
        Some(i) => {
            proof {
                assert(occurs(s@, p@, i as int));
                assert(i + ps.len() <= cs.len());
                assert(s@.skip(i + p@.len()) =~= s@.subrange(i + p@.len(), s@.len() as int));
                assert(s@.take(i as int) =~= s@.subrange(0, i as int));
            }
            Some((from_chars(&cs, 0, i), from_chars(&cs, i + ps.len(), cs.len())))
        },
        None => None,
    }
}

/// The last place at or before `from` where `p` stands in `s`, or `None`.
pub open spec fn rfind_from(s: Seq<char>, p: Seq<char>, from: int) -> Option<int>
    decreases from + 1,
{
    if from < 0 {
        None
    } else if occurs(s, p, from) {
        Some(from)
    } else {
        rfind_from(s, p, from - 1)
    }
}

/// The two sides of the last `p` in `s`.
pub open spec fn cut_last(s: Seq<char>, p: Seq<char>) -> Option<(Seq<char>, Seq<char>)> {
    match rfind_from(s, p, s.len() - p.len()) {
        Some(i) => Some((s.take(i), s.skip(i + p.len()))),
        None => None,
    }
}

pub fn rsplit_once(s: &str, p: &str) -> (r: Option<(String, String)>)
    ensures
        opt_texts(r) == cut_last(s@, p@),
{
    let cs = chars(s);
    let ps = chars(p);
    if ps.len() > cs.len() {
        return None;
    }
    let mut i: usize = cs.len() - ps.len();
    loop
        invariant
            i + ps.len() <= cs.len(),
            cs@ == s@,
            ps@ == p@,
            rfind_from(s@, p@, s@.len() - p@.len()) == rfind_from(s@, p@, i as int),
        decreases i,
    {
        if occurs_at(&cs, &ps, i) {
            proof {
                assert(s@.skip(i + p@.len()) =~= s@.subrange(i + p@.len(), s@.len() as int));
                assert(s@.take(i as int) =~= s@.subrange(0, i as int));
            }
            return Some((from_chars(&cs, 0, i), from_chars(&cs, i + ps.len(), cs.len())));
        }
        if i == 0 {
            proof {
                assert(rfind_from(s@, p@, -1) is None);
            }
            return None;
        }
        i -= 1;
    }
}

/// Unicode's `White_Space` property.
pub open spec fn blank(c: char) -> bool {
    let u = c as u32;
    ||| 9 <= u <= 13
    ||| u == 32 || u == 0x85 || u == 0xa0 || u == 0x1680
    ||| 0x2000 <= u <= 0x200a
    ||| u == 0x2028 || u == 0x2029 || u == 0x202f || u == 0x205f || u == 0x3000
}

pub fn is_blank(c: char) -> (r: bool)
    ensures
        r == blank(c),
{
    let u: u32 = c as u32;
    (9 <= u && u <= 13) || u == 32 || u == 0x85 || u == 0xa0 || u == 0x1680 || (0x2000 <= u && u
        <= 0x200a) || u == 0x2028 || u == 0x2029 || u == 0x202f || u == 0x205f || u == 0x3000
}

/// `s` without the leading characters that `p` holds of.
pub open spec fn strip_front(s: Seq<char>, p: spec_fn(char) -> bool) -> Seq<char>
    decreases s.len(),
{
    if s.len() > 0 && p(s[0]) {
        strip_front(s.drop_first(), p)
    } else {
        s
    }
}

/// `s` without the trailing characters that `p` holds of.
pub open spec fn strip_back(s: Seq<char>, p: spec_fn(char) -> bool) -> Seq<char>
    decreases s.len(),
{
    if s.len() > 0 && p(s.last()) {
        strip_back(s.drop_last(), p)
    } else {
        s
    }
}

/// `s` without white space at either end.
pub open spec fn trimmed(s: Seq<char>) -> Seq<char> {
    strip_back(strip_front(s, |c: char| blank(c)), |c: char| blank(c))
}

/// Strips the characters that `p` holds of from the chosen ends.
pub fn strip_ends<F: Fn(char) -> bool>(
    s: &str,
    p: F,
    front: bool,
    back: bool,
    Ghost(spec): Ghost<spec_fn(char) -> bool>,
) -> (r: String)
    requires
        forall|c: char| #[trigger] p.requires((c,)),
        forall|c: char, b: bool| p.ensures((c,), b) ==> b == spec(c),
    ensures
        r@ == ({
            let t = if front {
                strip_front(s@, spec)
            } else {
                s@
            };
            if back {
                strip_back(t, spec)
            } else {
                t
            }
        }),
{
    let cs = chars(s);
    let mut from: usize = 0;
    proof {
        assert(s@.skip(0) =~= s@);
    }
    if front {
        while from < cs.len() && p(cs[from])
            invariant
                from <= cs.len(),
                cs@ == s@,
                forall|c: char| #[trigger] p.requires((c,)),
                forall|c: char, b: bool| p.ensures((c,), b) ==> b == spec(c),
                strip_front(s@, spec) == strip_front(s@.skip(from as int), spec),
            decreases cs.len() - from,
        {
            proof {
                assert(s@.skip(from as int).drop_first() =~= s@.skip(from + 1));
            }
            from += 1;
        }
    }
    let ghost t = s@.skip(from as int);
    let mut to: usize = cs.len();
    proof {
        assert(t =~= s@.subrange(from as int, to as int));
    }
    if back {
        while to > from && p(cs[to - 1])
            invariant
                from <= to <= cs.len(),
                cs@ == s@,
                forall|c: char| #[trigger] p.requires((c,)),
                forall|c: char, b: bool| p.ensures((c,), b) ==> b == spec(c),
                strip_back(t, spec) == strip_back(s@.subrange(from as int, to as int), spec),
            decreases to,
        {
            proof {
                assert(s@.subrange(from as int, to as int).drop_last() =~= s@.subrange(
                    from as int,
                    to - 1,
                ));
            }
            to -= 1;
        }
    }
    from_chars(&cs, from, to)
}

pub fn trim(s: &str) -> (r: String)
    ensures
        r@ == trimmed(s@),
{
    let p = |c: char| -> (b: bool)
        ensures
            b == blank(c),
    {
        is_blank(c)
    };
    strip_ends(s, p, true, true, Ghost(|c: char| blank(c)))
}

/// The ASCII lower-case form of a character; others are left alone.
pub open spec fn lower_char(c: char) -> char {
    let u = c as u32;
    if 65 <= u <= 90 {
        (u + 32) as char
    } else {
        c
    }
}

/// The ASCII upper-case form of a character; others are left alone.
pub open spec fn upper_char(c: char) -> char {
    let u = c as u32;
    if 97 <= u <= 122 {
        (u - 32) as char
    } else {
        c
    }
}

pub open spec fn lowered(s: Seq<char>) -> Seq<char> {
    s.map_values(|c: char| lower_char(c))
}

pub open spec fn uppered(s: Seq<char>) -> Seq<char> {
    s.map_values(|c: char| upper_char(c))
}

fn to_lower_char(c: char) -> (r: char)
    ensures
        r == lower_char(c),
{
    let u: u32 = c as u32;
    if 65 <= u && u <= 90 {
        let b: u8 = (u + 32) as u8;
        b as char
    } else {
        c
    }
}

fn to_upper_char(c: char) -> (r: char)
    ensures
        r == upper_char(c),
{
    let u: u32 = c as u32;
    if 97 <= u && u <= 122 {
        let b: u8 = (u - 32) as u8;
        b as char
    } else {
        c
    }
}

pub fn lower(s: &str) -> (r: String)
    ensures
        r@ == lowered(s@),
{
    let cs = chars(s);
    let mut out = String::new();
    let mut i: usize = 0;
    while i < cs.len()
        invariant
            i <= cs.len(),
            out@ =~= lowered(cs@.take(i as int)),
        decreases cs.len() - i,
    {
        out.push(to_lower_char(cs[i]));
        i += 1;
    }
    proof {
        assert(cs@.take(i as int) =~= s@);
    }
    out
}

pub fn upper(s: &str) -> (r: String)
    ensures
        r@ == uppered(s@),
{
    let cs = chars(s);
    let mut out = String::new();
    let mut i: usize = 0;
    while i < cs.len()
        invariant
            i <= cs.len(),
            out@ =~= uppered(cs@.take(i as int)),
        decreases cs.len() - i,
    {
        out.push(to_upper_char(cs[i]));
        i += 1;
    }
    proof {
        assert(cs@.take(i as int) =~= s@);
    }
    out
}

/// `s` with every `p` taken out and `by` put in, from left to right.
pub open spec fn replaced(s: Seq<char>, p: Seq<char>, by: Seq<char>) -> Seq<char>
    recommends
        p.len() > 0,
    decreases s.len(),
{
    if p.len() == 0 {
        s
    } else {
        match find_from(s, p, 0) {
            Some(i) => if 0 <= i && i + p.len() <= s.len() {
                s.take(i) + by + replaced(s.skip(i + p.len()), p, by)
            } else {
                s
            },
            None => s,
        }
    }
}

/// Replaces every non-overlapping `p`, left to right.
pub fn replace(s: &str, p: &str, by: &str) -> (r: String)
    requires
        p@.len() > 0,
    ensures
        r@ == replaced(s@, p@, by@),
{
    let ps = chars(p);
    let mut rest = chars(s);
    let mut out = String::new();
    proof {
        assert(out@ + replaced(rest@, p@, by@) =~= replaced(s@, p@, by@));
    }
    loop
        invariant
            ps@ == p@,
            p@.len() > 0,
            out@ + replaced(rest@, p@, by@) == replaced(s@, p@, by@),
        decreases rest.len(),
    {
        proof {
            lemma_find_from(rest@, p@, 0);
        }
        match find_chars(&rest, &ps, 0) {
            Some(i) => {
                let ghost was = out@;
                let head = from_chars(&rest, 0, i);
                let tail = rest.split_off(i + ps.len());
                proof {
                    assert((rest@ + tail@).skip(i + p@.len()) =~= tail@);
                    assert((rest@ + tail@).take(i as int) =~= head@);
                    assert(was + (head@ + by@ + replaced(tail@, p@, by@)) =~= was + head@ + by@
                        + replaced(tail@, p@, by@));
                }
                out.append(head.as_str());
                out.append(by);
                rest = tail;
            },
            None => {
                let tail = from_chars(&rest, 0, rest.len());
                proof {
                    assert(tail@ =~= rest@);
                }
                out.append(tail.as_str());
                return out;
            },
        }
    }
}

/// The decimal digit for `d`.
pub open spec fn digit(d: int) -> char {
    (48 + d) as char
}

/// `n` in decimal, without leading zeros.
pub open spec fn decimal(n: nat) -> Seq<char>
    decreases n,
{
    if n < 10 {
        seq![digit(n as int)]
    } else {
        decimal(n / 10).push(digit((n % 10) as int))
    }
}

pub fn number(n: u64) -> (r: String)
    ensures
        r@ == decimal(n as nat),
{
    number_wide(n as u128)
}

/// A wide number in decimal.
pub fn number_wide(n: u128) -> (r: String)
    ensures
        r@ == decimal(n as nat),
    decreases n,
{
    if n < 10 {
        let mut s = String::new();
        let b: u8 = 48 + n as u8;
        s.push(b as char);
        proof {
            assert(s@ =~= decimal(n as nat));
        }
        s
    } else {
        let mut s = number_wide(n / 10);
        let b: u8 = 48 + (n % 10) as u8;
        s.push(b as char);
        s
    }
}

/// Whether `c` is one of the ten ASCII digits.
pub open spec fn ascii_digit(c: char) -> bool {
    let u = c as u32;
    48 <= u <= 57
}

pub fn is_digit(c: char) -> (r: bool)
    ensures
        r == ascii_digit(c),
{
    let u: u32 = c as u32;
    48 <= u && u <= 57
}

/// Whether `c` is an ASCII letter.
pub open spec fn ascii_letter(c: char) -> bool {
    let u = c as u32;
    65 <= u <= 90 || 97 <= u <= 122
}

pub fn is_letter(c: char) -> (r: bool)
    ensures
        r == ascii_letter(c),
{
    let u: u32 = c as u32;
    (65 <= u && u <= 90) || (97 <= u && u <= 122)
}

/// Whether every character is an ASCII digit.
pub open spec fn all_digits(s: Seq<char>) -> bool {
    forall|i: int| 0 <= i < s.len() ==> ascii_digit(#[trigger] s[i])
}

/// The number a run of digits writes.
pub open spec fn value_of(s: Seq<char>) -> nat
    decreases s.len(),
{
    if s.len() == 0 {
        0
    } else {
        (value_of(s.drop_last()) * 10 + (s.last() as u32 - 48)) as nat
    }
}

/// What follows an optional leading `+`.
pub open spec fn past_plus(s: Seq<char>) -> Seq<char> {
    if s.len() > 0 && s[0] == '+' {
        s.skip(1)
    } else {
        s
    }
}

/// An unsigned decimal number: an optional `+`, then at least one digit and nothing else.
pub open spec fn unsigned(s: Seq<char>) -> Option<nat> {
    let body = past_plus(s);
    if body.len() > 0 && all_digits(body) {
        Some(value_of(body))
    } else {
        None
    }
}

proof fn lemma_value_grows(s: Seq<char>, i: int)
    requires
        0 <= i <= s.len(),
        all_digits(s),
    ensures
        value_of(s.take(i)) <= value_of(s),
    decreases s.len(),
{
    if i == s.len() {
        assert(s.take(i) =~= s);
    } else {
        let t = s.drop_last();
        assert(all_digits(t)) by {
            assert forall|k: int| 0 <= k < t.len() implies ascii_digit(#[trigger] t[k]) by {
                assert(t[k] == s[k]);
            }
        }
        assert(t.take(i) =~= s.take(i));
        lemma_value_grows(t, i);
        assert(ascii_digit(s[s.len() - 1]));
    }
}

/// Reads an unsigned decimal number that is at most `max`.
pub fn parse_unsigned(s: &str, max: u64) -> (r: Option<u64>)
    ensures
        r == match unsigned(s@) {
            Some(n) => if n <= max {
                Some(n as u64)
            } else {
                None
            },
            None => None,
        },
{
    let cs = chars(s);
    let from: usize = if cs.len() > 0 && cs[0] == '+' {
        1
    } else {
        0
    };
    let ghost body = past_plus(s@);
    proof {
        assert(body =~= s@.skip(from as int));
    }
    if from == cs.len() {
        return None;
    }
    let mut i: usize = from;
    while i < cs.len()
        invariant
            from <= i <= cs.len(),
            cs@ == s@,
            body == past_plus(s@),
            body == s@.skip(from as int),
            forall|k: int| 0 <= k < i - from ==> ascii_digit(#[trigger] body[k]),
        decreases cs.len() - i,
    {
        if !is_digit(cs[i]) {
            proof {
                assert(!ascii_digit(body[i - from]));
            }
            return None;
        }
        i += 1;
    }
    let mut n: u64 = 0;
    let mut j: usize = from;
    proof {
        assert(body.take(0).len() == 0);
    }
    while j < cs.len()
        invariant
            from <= j <= cs.len(),
            cs@ == s@,
            body == past_plus(s@),
            body == s@.skip(from as int),
            all_digits(body),
            n == value_of(body.take(j - from)),
            n <= max,
        decreases cs.len() - j,
    {
        let d: u64 = (cs[j] as u32) as u64;
        proof {
            assert(ascii_digit(body[j - from]));
            assert(body.take(j + 1 - from).drop_last() =~= body.take(j - from));
            lemma_value_grows(body, j + 1 - from);
            assert(value_of(body.take(j + 1 - from)) == n * 10 + (d - 48));
        }
        let next: u128 = n as u128 * 10 + (d - 48) as u128;
        if next > max as u128 {
            return None;
        }
        n = next as u64;
        j += 1;
    }
    proof {
        assert(body.take(j - from) =~= body);
    }
    Some(n)
}

/// `n` copies of one character.
pub open spec fn run_of(c: char, n: nat) -> Seq<char> {
    Seq::new(n, |i: int| c)
}

/// `s` with spaces behind it, up to `width` characters.
pub open spec fn padded_right(s: Seq<char>, width: nat) -> Seq<char> {
    if s.len() < width {
        s + run_of(' ', (width - s.len()) as nat)
    } else {
        s
    }
}

/// `s` with spaces before it, up to `width` characters.
pub open spec fn padded_left(s: Seq<char>, width: nat) -> Seq<char> {
    if s.len() < width {
        run_of(' ', (width - s.len()) as nat) + s
    } else {
        s
    }
}

pub fn repeat(c: char, n: usize) -> (r: String)
    ensures
        r@ == run_of(c, n as nat),
{
    let mut out = String::new();
    let mut i: usize = 0;
    while i < n
        invariant
            i <= n,
            out@ =~= run_of(c, i as nat),
        decreases n - i,
    {
        out.push(c);
        i += 1;
    }
    out
}

pub fn pad_right(s: &str, width: usize) -> (r: String)
    ensures
        r@ == padded_right(s@, width as nat),
{
    let n: usize = s.unicode_len();
    if n < width {
        cat2(s, repeat(' ', width - n).as_str())
    } else {
        s.to_owned()
    }
}

pub fn pad_left(s: &str, width: usize) -> (r: String)
    ensures
        r@ == padded_left(s@, width as nat),
{
    let n: usize = s.unicode_len();
    if n < width {
        cat2(repeat(' ', width - n).as_str(), s)
    } else {
        s.to_owned()
    }
}

/// Whether `a` stands strictly before `b`: code point by code point, a prefix first.
pub open spec fn text_lt(a: Seq<char>, b: Seq<char>) -> bool
    decreases a.len(),
{
    if b.len() == 0 {
        false
    } else if a.len() == 0 {
        true
    } else if a[0] != b[0] {
        (a[0] as int) < (b[0] as int)
    } else {
        text_lt(a.drop_first(), b.drop_first())
    }
}

/// Whether `a` may stand before `b`.
pub open spec fn text_le(a: Seq<char>, b: Seq<char>) -> bool {
    !text_lt(b, a)
}

/// The code point of a character.
fn code_point(c: char) -> (u: u32)
    ensures
        u as int == c as int,
{
    c as u32
}

/// Whether `a` stands strictly before `b`.
pub fn is_before(a: &str, b: &str) -> (r: bool)
    ensures
        r == text_lt(a@, b@),
{
    let x = chars(a);
    let y = chars(b);
    let mut i: usize = 0;
    proof {
        assert(a@.skip(0) =~= a@);
        assert(b@.skip(0) =~= b@);
    }
    loop
        invariant
            i <= x.len(),
            i <= y.len(),
            x@ == a@,
            y@ == b@,
            text_lt(a@, b@) == text_lt(a@.skip(i as int), b@.skip(i as int)),
        decreases x.len() - i,
    {
        if i == y.len() {
            return false;
        }
        if i == x.len() {
            return true;
        }
        if x[i] != y[i] {
            return code_point(x[i]) < code_point(y[i]);
        }
        proof {
            assert(a@.skip(i as int).drop_first() =~= a@.skip(i + 1));
            assert(b@.skip(i as int).drop_first() =~= b@.skip(i + 1));
        }
        i += 1;
    }
}

/// `s` without any `p` it ends in.
pub open spec fn trimmed_end(s: Seq<char>, p: Seq<char>) -> Seq<char>
    decreases s.len(),
{
    if p.len() > 0 && ends(s, p) {
        trimmed_end(s.take(s.len() - p.len()), p)
    } else {
        s
    }
}

/// Strips `p` from the end for as long as it is there.
pub fn trim_end_matches(s: &str, p: &str) -> (r: String)
    requires
        p@.len() > 0,
    ensures
        r@ == trimmed_end(s@, p@),
{
    let mut left = s.to_owned();
    loop
        invariant
            p@.len() > 0,
            trimmed_end(s@, p@) == trimmed_end(left@, p@),
        decreases left@.len(),
    {
        match strip_suffix(left.as_str(), p) {
            Some(rest) => {
                proof {
                    assert(rest@ == left@.take(left@.len() - p@.len()));
                }
                left = rest;
            },
            None => {
                return left;
            },
        }
    }
}

/// How many bytes a character takes in UTF-8.
pub open spec fn width_of(c: char) -> nat {
    let u = c as u32;
    if u < 0x80 {
        1
    } else if u < 0x800 {
        2
    } else if u < 0x1_0000 {
        3
    } else {
        4
    }
}

/// How many bytes a text takes in UTF-8.
pub open spec fn byte_len(s: Seq<char>) -> nat {
    crate::seqs::total(s, |c: char| width_of(c))
}

fn char_width(c: char) -> (n: u128)
    ensures
        n == width_of(c),
        n <= 4,
{
    let u: u32 = c as u32;
    if u < 0x80 {
        1
    } else if u < 0x800 {
        2
    } else if u < 0x1_0000 {
        3
    } else {
        4
    }
}

/// How many bytes a text takes in UTF-8.
pub fn width(s: &str) -> (n: u128)
    ensures
        n == byte_len(s@),
{
    let cs = chars(s);
    let ghost f = |c: char| width_of(c);
    let mut n: u128 = 0;
    let mut i: usize = 0;
    while i < cs.len()
        invariant
            i <= cs@.len(),
            f == (|c: char| width_of(c)),
            n == crate::seqs::total(cs@.take(i as int), f),
            n <= 4 * i,
        decreases cs.len() - i,
    {
        proof {
            crate::seqs::lemma_total_take(cs@, f, i as int);
        }
        n = n + char_width(cs[i]);
        i += 1;
    }
    proof {
        assert(cs@.take(i as int) =~= s@);
    }
    n
}

/// What stands before the first blank.
pub open spec fn until_blank(s: Seq<char>) -> Seq<char>
    decreases s.len(),
{
    if s.len() == 0 || blank(s[0]) {
        Seq::empty()
    } else {
        seq![s[0]] + until_blank(s.drop_first())
    }
}

/// The first word of a text, where it has one.
pub open spec fn first_word_of(s: Seq<char>) -> Option<Seq<char>> {
    let t = strip_front(s, |c: char| blank(c));
    if t.len() == 0 {
        None
    } else {
        Some(until_blank(t))
    }
}

/// The first word of a text, where it has one.
pub fn first_word(s: &str) -> (r: Option<String>)
    ensures
        opt_text(r) == first_word_of(s@),
{
    let p = |c: char| -> (b: bool)
        ensures
            b == blank(c),
        {
            is_blank(c)
        };
    let t = strip_ends(s, p, true, false, Ghost(|c: char| blank(c)));
    let cs = chars(t.as_str());
    if cs.len() == 0 {
        return None;
    }
    let mut i: usize = 0;
    proof {
        assert(cs@.take(0) + until_blank(cs@.skip(0)) =~= until_blank(cs@)) by {
            assert(cs@.skip(0) =~= cs@);
        }
    }
    while i < cs.len() && !is_blank(cs[i])
        invariant
            i <= cs@.len(),
            until_blank(cs@) == cs@.take(i as int) + until_blank(cs@.skip(i as int)),
        decreases cs.len() - i,
    {
        proof {
            let rest = cs@.skip(i as int);
            assert(rest[0] == cs@[i as int]);
            assert(rest.drop_first() =~= cs@.skip(i + 1));
            assert(cs@.take(i as int) + (seq![rest[0]] + until_blank(rest.drop_first()))
                =~= cs@.take(i + 1) + until_blank(cs@.skip(i + 1)));
        }
        i += 1;
    }
    proof {
        assert(until_blank(cs@.skip(i as int)) =~= Seq::empty());
        assert(cs@.subrange(0, i as int) =~= cs@.take(i as int) + Seq::<char>::empty());
    }
    Some(from_chars(&cs, 0, i))
}

} // verus!
