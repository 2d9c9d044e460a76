//! Ollama's transport: the same admission, a different way of moving bytes.
//!
//! Every other provider here takes a file drop. Ollama does not: its store is
//! written by its own pull, which takes a GGUF repo straight from Hugging Face
//! under an `hf.co/<repo>:<QUANT>` name. The repo that was searched for and the
//! repo Ollama fetches are the same id.
use vstd::prelude::*;

use crate::adapters::lmstudio::{signed, signed_text};
use crate::decimals::{are_digits, digits_value, scale_digits, scaled, ten_to};
use crate::intake::download::Progress;
use crate::intake::run::{format_name, name_of_format, Build};
use crate::inventory::artifact::Format;
use crate::text::{
    after_prefix, all_digits, ascii_digit, ascii_letter, before_suffix, blank, cat2, cat3, cat4,
    cat5, chars, cut_first, cut_last, from_chars, is_blank, is_digit, is_letter, join, joined,
    number, opt_text, rsplit_once, same, split, split_on, split_once, strip_back, strip_ends,
    strip_front, strip_prefix, strip_suffix, texts, trim, trimmed, upper, uppered, value_of,
};

verus! {

/// Ollama's CLI. Its whole intake surface.
pub const BINARY: &'static str = "ollama";

/// Why a build cannot be pulled through a repo id, or the name that pulls it.
pub open spec fn pull_name(repo_id: Seq<char>, build: Build) -> Result<Seq<char>, Seq<char>> {
    let files = build.files@;
    if files.len() == 0 {
        Err("this build has no files"@)
    } else if files[0].format != Format::Gguf {
        Err(
            "ollama pulls GGUF from Hugging Face; `"@ + files[0].name@ + "` is "@ + format_name(
                files[0].format,
            )
                + ", which reaches Ollama through its own library rather than through a repo id"@,
        )
    } else if files.len() > 1 {
        Err(
            "`"@ + files[0].name@ + "` is a "@ + crate::text::decimal(files.len())
                + "-part build, and an hf.co pull resolves to a single file; nothing would be able to load one part"@,
        )
    } else {
        Ok(
            match tag_in(files[0].name@) {
                Some(tag) => "hf.co/"@ + repo_id + ":"@ + tag,
                None => "hf.co/"@ + repo_id,
            },
        )
    }
}

/// The `hf.co/...` name that pulls this build, or why it cannot be pulled.
///
/// The quantisation tag is carried because omitting it lets Ollama choose its
/// own default: a different build from the one that was priced and admitted.
/// A build whose name carries no quantisation is pulled untagged, because
/// inventing a tag would name a build that may not exist in the repo.
pub fn transport_for(repo_id: &str, build: &Build) -> (r: Result<String, String>)
    ensures
        match r {
            Ok(s) => pull_name(repo_id@, *build) == Ok::<Seq<char>, Seq<char>>(s@),
            Err(e) => pull_name(repo_id@, *build) == Err::<Seq<char>, Seq<char>>(e@),
        },
{
    if build.files.len() == 0 {
        return Err("this build has no files".to_owned());
    }
    let first = &build.files[0];
    if first.format != Format::Gguf {
        return Err(
            cat5(
                "ollama pulls GGUF from Hugging Face; `",
                first.name.as_str(),
                "` is ",
                name_of_format(first.format),
                ", which reaches Ollama through its own library rather than through a repo id",
            ),
        );
    }
    if build.files.len() > 1 {
        return Err(
            cat5(
                "`",
                first.name.as_str(),
                "` is a ",
                number(build.files.len() as u64).as_str(),
                "-part build, and an hf.co pull resolves to a single file; nothing would be able to load one part",
            ),
        );
    }
    Ok(
        match quantisation(first.name.as_str()) {
            Some(tag) => cat4("hf.co/", repo_id, ":", tag.as_str()),
            None => cat2("hf.co/", repo_id),
        },
    )
}

/// `Q4_K_M`, `IQ2_XXS`, `BF16`. A digit after the `Q` is what separates a
/// quantisation from a word that merely starts with one.
pub open spec fn quant_shaped(segment: Seq<char>) -> bool {
    let u = uppered(segment);
    u == "BF16"@ || u == "F16"@ || u == "F32"@ || match after_prefix(u, "IQ"@) {
        Some(b) => b.len() > 0 && ascii_digit(b[0]),
        None => match after_prefix(u, "Q"@) {
            Some(b) => b.len() > 0 && ascii_digit(b[0]),
            None => false,
        },
    }
}

fn starts_with_digit(s: &str) -> (r: bool)
    ensures
        r == (s@.len() > 0 && ascii_digit(s@[0])),
{
    let cs = chars(s);
    cs.len() > 0 && is_digit(cs[0])
}

fn is_quant_shaped(segment: &str) -> (r: bool)
    ensures
        r == quant_shaped(segment@),
{
    let u = upper(segment);
    if same(u.as_str(), "BF16") || same(u.as_str(), "F16") || same(u.as_str(), "F32") {
        return true;
    }
    match strip_prefix(u.as_str(), "IQ") {
        Some(b) => starts_with_digit(b.as_str()),
        None => match strip_prefix(u.as_str(), "Q") {
            Some(b) => starts_with_digit(b.as_str()),
            None => false,
        },
    }
}

/// The last quantisation among segments, where there is one.
pub open spec fn last_quant(segments: Seq<Seq<char>>) -> Option<int>
    decreases segments.len(),
{
    if segments.len() == 0 {
        None
    } else if quant_shaped(segments.last()) {
        Some(segments.len() - 1)
    } else {
        last_quant(segments.drop_last())
    }
}

/// Where a tag starts: at the last quantisation, or at the `UD` before it.
pub open spec fn tag_start(segments: Seq<Seq<char>>) -> Option<int> {
    match last_quant(segments) {
        Some(i) => if i > 0 && uppered(segments[i - 1]) == "UD"@ {
            Some(i - 1)
        } else {
            Some(i)
        },
        None => None,
    }
}

/// The quantisation tag of a file name.
pub open spec fn tag_in(name: Seq<char>) -> Option<Seq<char>> {
    match before_suffix(name, ".gguf"@) {
        Some(stem) => {
            let segments = split(stem, '-');
            match tag_start(segments) {
                Some(i) => Some(uppered(joined(segments.skip(i), "-"@))),
                None => None,
            }
        },
        None => None,
    }
}

/// The quantisation label out of a GGUF filename: `...-Q4_K_M.gguf` ->
/// `Q4_K_M`.
///
/// Taken from the **last** quant-shaped segment, because a repo name can carry
/// something that looks like one and the tag that matters is the file's own,
/// which is always last. A `UD` before it is part of the published tag.
pub fn quantisation(file_name: &str) -> (r: Option<String>)
    ensures
        opt_text(r) == tag_in(file_name@),
{
    let stem = match strip_suffix(file_name, ".gguf") {
        Some(s) => s,
        None => {
            return None;
        },
    };
    let segments = split_on(stem.as_str(), '-');
    let ghost all = texts(segments@);
    let mut n: usize = segments.len();
    proof {
        assert(all.take(n as int) =~= all);
    }
    while n > 0 && !is_quant_shaped(segments[n - 1].as_str())
        invariant
            n <= segments@.len(),
            all == texts(segments@),
            last_quant(all) == last_quant(all.take(n as int)),
        decreases n,
    {
        proof {
            assert(all.take(n as int).drop_last() =~= all.take(n - 1));
            assert(all.take(n as int).last() == segments@[n - 1]@);
        }
        n -= 1;
    }
    if n == 0 {
        return None;
    }
    proof {
        assert(all.take(n as int).last() == segments@[n - 1]@);
        assert(last_quant(all) == Some(n - 1));
    }
    let from: usize = if n > 1 && same(upper(segments[n - 2].as_str()).as_str(), "UD") {
        n - 2
    } else {
        n - 1
    };
    proof {
        if n > 1 {
            assert(all[n - 2] == segments@[n - 2]@);
        }
    }
    let mut kept: Vec<String> = Vec::new();
    let mut i: usize = from;
    proof {
        assert(texts(kept@) =~= all.subrange(from as int, i as int));
    }
    while i < segments.len()
        invariant
            from <= i <= segments@.len(),
            all == texts(segments@),
            texts(kept@) == all.subrange(from as int, i as int),
        decreases segments.len() - i,
    {
        let ghost was = kept@;
        kept.push(segments[i].clone());
        proof {
            assert(texts(kept@) =~= texts(was).push(all[i as int]));
            assert(all.subrange(from as int, i + 1) =~= all.subrange(from as int, i as int).push(
                all[i as int],
            ));
        }
        i += 1;
    }
    proof {
        assert(all.subrange(from as int, i as int) =~= all.skip(from as int));
    }
    Some(upper(join(&kept, "-").as_str()))
}

/// The command that pulls a model.
pub fn pull_argv(model: &str) -> (r: Vec<String>)
    ensures
        texts(r@) == seq!["ollama"@, "pull"@, model@],
{
    let mut out: Vec<String> = Vec::new();
    out.push("ollama".to_owned());
    out.push("pull".to_owned());
    out.push(model.to_owned());
    proof {
        assert(texts(out@) =~= seq!["ollama"@, "pull"@, model@]);
    }
    out
}

/// Whether a byte ends an update.
pub open spec fn ends_update(b: u8) -> bool {
    b == 13 || b == 10
}

/// An update that says something; a blank one is dropped.
pub open spec fn worth_saying(line: Seq<char>) -> Option<Seq<char>> {
    if trimmed(line).len() == 0 {
        None
    } else {
        Some(line)
    }
}

/// Updates, and one more where it says something.
pub open spec fn and_then(done: Seq<Seq<char>>, line: Seq<char>) -> Seq<Seq<char>> {
    match worth_saying(line) {
        Some(line) => done.push(line),
        None => done,
    }
}

/// What the bytes so far come to: the finished updates, and the open one.
pub open spec fn updates(bytes: Seq<u8>) -> (Seq<Seq<char>>, Seq<char>)
    decreases bytes.len(),
{
    if bytes.len() == 0 {
        (Seq::empty(), Seq::empty())
    } else {
        let (done, open) = updates(bytes.drop_last());
        let b = bytes.last();
        if ends_update(b) {
            (and_then(done, open), Seq::empty())
        } else {
            (done, open.push(b as char))
        }
    }
}

/// Every update in some bytes, the last one whether or not it was ended.
pub open spec fn all_updates(bytes: Seq<u8>) -> Seq<Seq<char>> {
    let (done, open) = updates(bytes);
    and_then(done, open)
}

/// A stream of progress as it is read, byte by byte: the update that is still
/// open.
#[derive(Debug)]
pub struct Updates {
    pub open: String,
}

impl Updates {
    pub fn new() -> (u: Updates)
        ensures
            u.open@ == Seq::<char>::empty(),
    {
        let u = Updates { open: String::new() };
        proof {
            assert(u.open@ =~= Seq::<char>::empty());
        }
        u
    }

    /// Takes in a byte, and gives the update it ends.
    pub fn feed(&mut self, byte: u8) -> (r: Option<String>)
        ensures
            if ends_update(byte) {
                final(self).open@ == Seq::<char>::empty() && opt_text(r) == worth_saying(
                    old(self).open@,
                )
            } else {
                final(self).open@ == old(self).open@.push(byte as char) && r is None
            },
    {
        if byte == 13 || byte == 10 {
            let line = self.open.clone();
            self.open = String::new();
            proof {
                assert(self.open@ =~= Seq::<char>::empty());
            }
            if chars(trim(line.as_str()).as_str()).len() > 0 {
                Some(line)
            } else {
                None
            }
        } else {
            self.open.push(byte as char);
            None
        }
    }

    /// The update that was open when the stream ended.
    pub fn rest(self) -> (r: Option<String>)
        ensures
            opt_text(r) == worth_saying(self.open@),
    {
        if chars(trim(self.open.as_str()).as_str()).len() > 0 {
            Some(self.open)
        } else {
            None
        }
    }
}

/// Ollama redraws one progress line with `\r`. Split on both, so a redrawn bar
/// yields one entry per update rather than one enormous final line.
pub fn split_progress(bytes: &[u8]) -> (r: Vec<String>)
    ensures
        texts(r@) == all_updates(bytes@),
{
    let mut out: Vec<String> = Vec::new();
    let mut stream = Updates::new();
    let mut i: usize = 0;
    proof {
        assert(texts(out@) =~= Seq::empty());
    }
    while i < bytes.len()
        invariant
            i <= bytes@.len(),
            (texts(out@), stream.open@) == updates(bytes@.take(i as int)),
        decreases bytes.len() - i,
    {
        proof {
            assert(bytes@.take(i + 1).drop_last() =~= bytes@.take(i as int));
        }
        let ghost was = out@;
        if let Some(line) = stream.feed(bytes[i]) {
            out.push(line);
            proof {
                assert(texts(out@) =~= texts(was).push(line@));
            }
        }
        i += 1;
    }
    proof {
        assert(bytes@.take(i as int) =~= bytes@);
    }
    let ghost was = out@;
    if let Some(line) = stream.rest() {
        out.push(line);
        proof {
            assert(texts(out@) =~= texts(was).push(line@));
        }
    }
    out
}

/// A digit or a point.
pub open spec fn numeric(c: char) -> bool {
    ascii_digit(c) || c == '.'
}

fn is_numeric(c: char) -> (r: bool)
    ensures
        r == numeric(c),
{
    is_digit(c) || c == '.'
}

/// The digits in front of the point and those behind it, of a number with at
/// least one digit and at most one point.
pub open spec fn decimal_parts(s: Seq<char>) -> Option<(Seq<char>, Seq<char>)> {
    let (a, b) = match cut_first(s, "."@) {
        Some((x, y)) => (x, y),
        None => (s, Seq::empty()),
    };
    if all_digits(a) && all_digits(b) && a.len() + b.len() > 0 {
        Some((a, b))
    } else {
        None
    }
}

/// The power of two a unit stands for, in either case and with or without the
/// `i`.
pub open spec fn unit_power(unit: Seq<char>) -> Option<nat> {
    let u = uppered(unit);
    if u == "B"@ {
        Some(0)
    } else if u == "KB"@ || u == "KIB"@ {
        Some(10)
    } else if u == "MB"@ || u == "MIB"@ {
        Some(20)
    } else if u == "GB"@ || u == "GIB"@ {
        Some(30)
    } else if u == "TB"@ || u == "TIB"@ {
        Some(40)
    } else {
        None
    }
}

/// A size in whole bytes, by its number and its unit.
pub open spec fn size_in_bytes(number: Seq<char>, unit: Seq<char>) -> Option<u64> {
    match (decimal_parts(number), unit_power(unit)) {
        (Some((a, b)), Some(k)) => Some(scaled(value_of(a + b), ten_to(b.len()), k)),
        _ => None,
    }
}

/// Digits by their characters and by their worth write the same number.
proof fn lemma_same_value(s: Seq<char>, v: Seq<u8>)
    requires
        all_digits(s),
        v.len() == s.len(),
        forall|i: int| 0 <= i < s.len() ==> (#[trigger] v[i]) == s[i] as u32 - 48,
    ensures
        value_of(s) == digits_value(v),
    decreases s.len(),
{
    if s.len() > 0 {
        let t = s.drop_last();
        let w = v.drop_last();
        assert(all_digits(t)) by {
            assert forall|i: int| 0 <= i < t.len() implies ascii_digit(#[trigger] t[i]) by {
                assert(t[i] == s[i]);
            }
        }
        assert forall|i: int| 0 <= i < t.len() implies (#[trigger] w[i]) == t[i] as u32 - 48 by {
            assert(w[i] == v[i]);
            assert(t[i] == s[i]);
        }
        lemma_same_value(t, w);
        assert(ascii_digit(s[s.len() - 1]));
        assert(v[v.len() - 1] == s[s.len() - 1] as u32 - 48);
    }
}

/// The digits of a text, where it is nothing but digits.
fn digits(s: &str) -> (r: Option<Vec<u8>>)
    ensures
        match r {
            Some(v) => all_digits(s@) && are_digits(v@) && v@.len() == s@.len() && forall|i: int|
                0 <= i < v@.len() ==> (#[trigger] v@[i]) == s@[i] as u32 - 48,
            None => !all_digits(s@),
        },
{
    let cs = chars(s);
    let mut out: Vec<u8> = Vec::new();
    let mut i: usize = 0;
    while i < cs.len()
        invariant
            i <= cs@.len(),
            cs@ == s@,
            out@.len() == i,
            forall|k: int| 0 <= k < i ==> ascii_digit(#[trigger] s@[k]),
            forall|k: int|
                0 <= k < i ==> (#[trigger] out@[k]) < 10 && out@[k] == s@[k] as u32 - 48,
        decreases cs.len() - i,
    {
        if !is_digit(cs[i]) {
            proof {
                assert(!ascii_digit(s@[i as int]));
            }
            return None;
        }
        proof {
            assert(ascii_digit(s@[i as int]));
        }
        let u: u32 = cs[i] as u32;
        out.push((u - 48) as u8);
        i += 1;
    }
    Some(out)
}

fn power_of_unit(unit: &str) -> (r: Option<u64>)
    ensures
        match r {
            Some(k) => unit_power(unit@) == Some(k as nat) && k <= 40,
            None => unit_power(unit@) is None,
        },
{
    let u = upper(unit);
    let u = u.as_str();
    if same(u, "B") {
        Some(0)
    } else if same(u, "KB") || same(u, "KIB") {
        Some(10)
    } else if same(u, "MB") || same(u, "MIB") {
        Some(20)
    } else if same(u, "GB") || same(u, "GIB") {
        Some(30)
    } else if same(u, "TB") || same(u, "TIB") {
        Some(40)
    } else {
        None
    }
}

fn bytes_of(number: &str, unit: &str) -> (r: Option<u64>)
    ensures
        r == size_in_bytes(number@, unit@),
{
    let (a, b) = match split_once(number, ".") {
        Some((a, b)) => (a, b),
        None => (number.to_owned(), String::new()),
    };
    proof {
        if cut_first(number@, "."@) is None {
            assert(b@ =~= Seq::empty());
        }
    }
    let whole = match digits(a.as_str()) {
        Some(v) => v,
        None => {
            return None;
        },
    };
    let part = match digits(b.as_str()) {
        Some(v) => v,
        None => {
            return None;
        },
    };
    if whole.len() == 0 && part.len() == 0 {
        return None;
    }
    let k = match power_of_unit(unit) {
        Some(k) => k,
        None => {
            return None;
        },
    };
    proof {
        let all = a@ + b@;
        let v = whole@ + part@;
        assert forall|i: int| 0 <= i < all.len() implies (#[trigger] v[i]) == all[i] as u32 - 48 by {
            if i < a@.len() {
                assert(v[i] == whole@[i]);
            } else {
                assert(v[i] == part@[i - a@.len()]);
            }
        }
        assert(all_digits(all)) by {
            assert forall|i: int| 0 <= i < all.len() implies ascii_digit(#[trigger] all[i]) by {
                if i < a@.len() {
                    assert(ascii_digit(a@[i]));
                } else {
                    assert(ascii_digit(b@[i - a@.len()]));
                }
            }
        }
        lemma_same_value(all, v);
    }
    Some(scale_digits(&whole, part, k))
}

proof fn lemma_strip_len(s: Seq<char>, p: spec_fn(char) -> bool)
    ensures
        strip_back(s, p).len() <= s.len(),
        strip_front(s, p).len() <= s.len(),
    decreases s.len(),
{
    if s.len() > 0 {
        lemma_strip_len(s.drop_last(), p);
        lemma_strip_len(s.drop_first(), p);
    }
}

/// Cuts off the longest tail whose characters `p` holds of.
fn cut_tail<F: Fn(char) -> bool>(s: &str, p: F, Ghost(spec): Ghost<spec_fn(char) -> bool>) -> (r: (
    String,
    String,
))
    requires
        forall|c: char| #[trigger] p.requires((c,)),
        forall|c: char, b: bool| p.ensures((c,), b) ==> b == spec(c),
    ensures
        r.0@ == strip_back(s@, spec),
        r.1@ == s@.skip(strip_back(s@, spec).len() as int),
{
    let head = strip_ends(s, p, false, true, Ghost(spec));
    proof {
        lemma_strip_len(s@, spec);
    }
    let cs = chars(s);
    let n: usize = chars(head.as_str()).len();
    let tail = from_chars(&cs, n, cs.len());
    proof {
        assert(tail@ =~= s@.skip(n as int));
    }
    (head, tail)
}

/// Cuts off the longest front whose characters `p` holds of.
fn cut_head<F: Fn(char) -> bool>(s: &str, p: F, Ghost(spec): Ghost<spec_fn(char) -> bool>) -> (r: (
    String,
    String,
))
    requires
        forall|c: char| #[trigger] p.requires((c,)),
        forall|c: char, b: bool| p.ensures((c,), b) ==> b == spec(c),
    ensures
        r.0@ == s@.take(s@.len() - strip_front(s@, spec).len()),
        r.1@ == strip_front(s@, spec),
{
    let rest = strip_ends(s, p, true, false, Ghost(spec));
    proof {
        lemma_strip_len(s@, spec);
    }
    let cs = chars(s);
    let n: usize = cs.len() - chars(rest.as_str()).len();
    let head = from_chars(&cs, 0, n);
    proof {
        assert(head@ =~= s@.take(n as int));
    }
    (head, rest)
}

/// The size a text ends in: its last run of digits and points, and what
/// follows that as the unit.
pub open spec fn size_at_end(s: Seq<char>) -> Option<u64> {
    let t = strip_back(s, |c: char| blank(c));
    let u = strip_back(t, |c: char| !numeric(c));
    if u.len() == 0 {
        None
    } else {
        size_in_bytes(
            u.skip(strip_back(u, |c: char| numeric(c)).len() as int),
            trimmed(t.skip(u.len() as int)),
        )
    }
}

fn trailing_size(s: &str) -> (r: Option<u64>)
    ensures
        r == size_at_end(s@),
{
    let blanks = |c: char| -> (b: bool)
        ensures
            b == blank(c),
        { is_blank(c) };
    let others = |c: char| -> (b: bool)
        ensures
            b == !numeric(c),
        { !is_numeric(c) };
    let numbers = |c: char| -> (b: bool)
        ensures
            b == numeric(c),
        { is_numeric(c) };
    let (t, _) = cut_tail(s, blanks, Ghost(|c: char| blank(c)));
    let (u, unit) = cut_tail(t.as_str(), others, Ghost(|c: char| !numeric(c)));
    if chars(u.as_str()).len() == 0 {
        return None;
    }
    let (_, digits) = cut_tail(u.as_str(), numbers, Ghost(|c: char| numeric(c)));
    bytes_of(digits.as_str(), trim(unit.as_str()).as_str())
}

/// The size a text starts with: a run of digits and points that something
/// follows, and the letters behind it as the unit.
pub open spec fn size_at_start(s: Seq<char>) -> Option<u64> {
    let t = strip_front(s, |c: char| blank(c));
    let rest = strip_front(t, |c: char| numeric(c));
    if rest.len() == 0 {
        None
    } else {
        let after = strip_front(rest, |c: char| blank(c));
        let unit = after.take(after.len() - strip_front(after, |c: char| ascii_letter(c)).len());
        size_in_bytes(t.take(t.len() - rest.len()), unit)
    }
}

fn leading_size(s: &str) -> (r: Option<u64>)
    ensures
        r == size_at_start(s@),
{
    let blanks = |c: char| -> (b: bool)
        ensures
            b == blank(c),
        { is_blank(c) };
    let numbers = |c: char| -> (b: bool)
        ensures
            b == numeric(c),
        { is_numeric(c) };
    let gaps = |c: char| -> (b: bool)
        ensures
            b == blank(c),
        { is_blank(c) };
    let letters = |c: char| -> (b: bool)
        ensures
            b == ascii_letter(c),
        { is_letter(c) };
    let (_, t) = cut_head(s, blanks, Ghost(|c: char| blank(c)));
    let (digits, rest) = cut_head(t.as_str(), numbers, Ghost(|c: char| numeric(c)));
    if chars(rest.as_str()).len() == 0 {
        return None;
    }
    let (_, after) = cut_head(rest.as_str(), gaps, Ghost(|c: char| blank(c)));
    let (unit, _) = cut_head(after.as_str(), letters, Ghost(|c: char| ascii_letter(c)));
    bytes_of(digits.as_str(), unit.as_str())
}

/// What a transfer line says: how much is there, and of how much where it says
/// so. `None` for a line that is no transfer line.
pub open spec fn transfer(line: Seq<char>) -> Option<(u64, Option<u64>)> {
    match cut_last(line, "/"@) {
        Some((left, right)) => match size_at_end(left) {
            Some(done) => Some((done, size_at_start(right))),
            None => None,
        },
        None => None,
    }
}

/// `pulling 1a2b3c... 50% ... 1.0 GB/2.0 GB` -> `(done, total)`.
///
/// Sizes rather than the percentage, because a percentage cannot be turned back
/// into bytes and the caller's job table is denominated in them.
pub fn parsed_progress(line: &str) -> (r: Option<(u64, Option<u64>)>)
    ensures
        r == transfer(line@),
{
    match rsplit_once(line, "/") {
        Some((left, right)) => match trailing_size(left.as_str()) {
            Some(done) => Some((done, leading_size(right.as_str()))),
            None => None,
        },
        None => None,
    }
}

/// How many lines of a pull are kept: the last of them are the whole error
/// message when it fails.
pub const TAIL_LINES: usize = 12;

/// The last lines of some, as many as a tail holds.
pub open spec fn last_lines(lines: Seq<String>) -> Seq<String> {
    if lines.len() <= TAIL_LINES {
        lines
    } else {
        lines.skip(lines.len() - TAIL_LINES)
    }
}

/// A tail with one more line.
pub open spec fn lengthened(tail: Seq<String>, line: String) -> Seq<String> {
    if tail.len() < TAIL_LINES {
        tail.push(line)
    } else {
        tail.drop_first().push(line)
    }
}

/// A tail that takes in line after line holds the last of them.
pub proof fn a_tail_holds_the_last_lines(lines: Seq<String>, line: String)
    ensures
        lengthened(last_lines(lines), line) == last_lines(lines.push(line)),
{
    assert(lengthened(last_lines(lines), line) =~= last_lines(lines.push(line)));
}

/// Keeps a line, and no more lines than a tail holds.
pub fn keep_line(tail: &mut Vec<String>, line: String)
    requires
        old(tail)@.len() <= TAIL_LINES,
    ensures
        final(tail)@ == lengthened(old(tail)@, line),
        final(tail)@.len() <= TAIL_LINES,
{
    let ghost was = tail@;
    tail.push(line);
    if tail.len() > TAIL_LINES {
        let _ = tail.remove(0);
        proof {
            assert(tail@ =~= was.drop_first().push(line));
        }
    }
}

/// The last line that says anything.
pub open spec fn last_words(tail: Seq<Seq<char>>) -> Option<Seq<char>>
    decreases tail.len(),
{
    if tail.len() == 0 {
        None
    } else if trimmed(tail.last()).len() > 0 {
        Some(tail.last())
    } else {
        last_words(tail.drop_last())
    }
}

/// What a pull that failed comes to: the last thing it said, or else how it
/// ended.
pub open spec fn failure_text(
    argv: Seq<Seq<char>>,
    tail: Seq<Seq<char>>,
    code: Option<i32>,
) -> Seq<char> {
    match last_words(tail) {
        Some(line) => line,
        None => "`"@ + joined(argv, " "@) + "` exited "@ + signed_text(
            match code {
                Some(n) => n as int,
                None => -1,
            },
        ),
    }
}

/// Why a pull failed: the last thing it said, or else how it ended. A command
/// that was stopped gives no code, and `-1` stands for it.
pub fn pull_failure(argv: &Vec<String>, tail: &Vec<String>, code: Option<i32>) -> (r: String)
    ensures
        r@ == failure_text(texts(argv@), texts(tail@), code),
{
    let ghost all = texts(tail@);
    let mut n: usize = tail.len();
    proof {
        assert(all.take(n as int) =~= all);
    }
    while n > 0
        invariant
            n <= tail@.len(),
            all == texts(tail@),
            last_words(all) == last_words(all.take(n as int)),
        decreases n,
    {
        proof {
            assert(all.take(n as int).drop_last() =~= all.take(n - 1));
            assert(all.take(n as int).last() == tail@[n - 1]@);
        }
        if chars(trim(tail[n - 1].as_str()).as_str()).len() > 0 {
            return tail[n - 1].clone();
        }
        n -= 1;
    }
    let code: i32 = match code {
        Some(c) => c,
        None => -1,
    };
    cat4("`", join(argv, " ").as_str(), "` exited ", signed(code).as_str())
}

/// How starting the command went.
#[derive(Debug)]
pub enum Spawn {
    Running,
    /// There is no such command.
    Missing,
    Failed(String),
}

/// How the command ended.
#[derive(Debug, Clone, Copy)]
pub struct Exit {
    pub success: bool,
    pub code: Option<i32>,
}

/// A pull while it runs: the command, and the last lines it said.
#[derive(Debug)]
pub struct Pull {
    pub argv: Vec<String>,
    pub tail: Vec<String>,
}

impl Pull {
    /// There is a command, and no more lines are kept than a tail holds.
    pub open spec fn wf(self) -> bool {
        self.argv@.len() > 0 && self.tail@.len() <= TAIL_LINES
    }

    /// What is pulled: the command's last word.
    pub open spec fn model(self) -> Seq<char> {
        self.argv@.last()@
    }

    pub fn new(argv: Vec<String>) -> (p: Pull)
        requires
            argv@.len() > 0,
        ensures
            p.wf(),
            p.argv == argv,
            p.tail@ == Seq::<String>::empty(),
    {
        Pull { argv, tail: Vec::new() }
    }

    fn subject(&self) -> (r: String)
        requires
            self.wf(),
        ensures
            r@ == self.model(),
    {
        self.argv[self.argv.len() - 1].clone()
    }

    /// What to report once the command was started, or why there is no pull. A
    /// command that is not there is named, never passed over: nothing may be
    /// reported that was not performed.
    pub fn begun(&self, spawn: Spawn) -> (r: Result<Progress, String>)
        requires
            self.wf(),
        ensures
            match (spawn, r) {
                (Spawn::Running, Ok(Progress::Started { file, bytes_total, target })) => {
                    &&& file@ == self.model()
                    &&& bytes_total is None
                    &&& target@ == "ollama store"@
                },
                (Spawn::Missing, Err(reason)) => reason@ == "`"@ + self.argv@[0]@
                    + "` is not on PATH; Ollama has no other intake surface"@,
                (Spawn::Failed(e), Err(reason)) => reason == e,
                _ => false,
            },
    {
        match spawn {
            Spawn::Running => Ok(
                Progress::Started {
                    file: self.subject(),
                    bytes_total: None,
                    target: "ollama store".to_owned(),
                },
            ),
            Spawn::Missing => Err(
                cat3(
                    "`",
                    self.argv[0].as_str(),
                    "` is not on PATH; Ollama has no other intake surface",
                ),
            ),
            Spawn::Failed(e) => Err(e),
        }
    }

    /// Takes in a line, and says what to report of it: a line that gives sizes
    /// is progress, and everything else is only kept.
    pub fn heard(&mut self, line: String) -> (r: Option<Progress>)
        requires
            old(self).wf(),
        ensures
            final(self).wf(),
            final(self).argv == old(self).argv,
            final(self).tail@ == lengthened(old(self).tail@, line),
            r == match transfer(line@) {
                Some((bytes_done, bytes_total)) => Some(
                    Progress::Advanced { bytes_done, bytes_total },
                ),
                None => None,
            },
    {
        let said = parsed_progress(line.as_str());
        keep_line(&mut self.tail, line);
        match said {
            Some((bytes_done, bytes_total)) => Some(Progress::Advanced { bytes_done, bytes_total }),
            None => None,
        }
    }

    /// What to report once the command is over, and what the pull came to.
    /// Where it could not be waited for there is nothing to report.
    pub fn ended(&self, exit: Result<Exit, String>) -> (r: (Option<Progress>, Result<(), String>))
        requires
            self.wf(),
        ensures
            match exit {
                Err(e) => r.0 is None && r.1 == Err::<(), String>(e),
                Ok(exit) => if exit.success {
                    &&& r.1 is Ok
                    &&& r.0 matches Some(Progress::Finished { file, bytes_done, path })
                    &&& file@ == self.model()
                    &&& bytes_done == 0
                    &&& path@ == self.model()
                } else {
                    &&& r.0 matches Some(Progress::Failed { file, reason })
                    &&& file@ == self.model()
                    &&& reason@ == failure_text(texts(self.argv@), texts(self.tail@), exit.code)
                    &&& r.1 matches Err(e)
                    &&& e@ == reason@
                },
            },
    {
        match exit {
            Err(e) => (None, Err(e)),
            Ok(exit) => if exit.success {
                (
                    Some(
                        Progress::Finished {
                            file: self.subject(),
                            bytes_done: 0,
                            path: self.subject(),
                        },
                    ),
                    Ok(()),
                )
            } else {
                let reason = pull_failure(&self.argv, &self.tail, exit.code);
                (
                    Some(Progress::Failed { file: self.subject(), reason: reason.clone() }),
                    Err(reason),
                )
            },
        }
    }
}

} // verus!
