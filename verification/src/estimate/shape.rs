//! What a model is shaped like, read from the artifact itself.
//!
//! The KV cache is the part of a footprint that scales with the context window,
//! and it scales with the model's geometry: layers, kv heads, head dimension.
//! No provider publishes any of those. The artifact does.
//!
//! Deliberately a few keys wide, not a GGUF parser. It reads a bounded prefix of
//! the header, takes what the estimator needs, and gives up rather than guesses.
use vstd::prelude::*;
use vstd::slice::slice_subrange;

use crate::seqs::{first_match, lemma_first_index_is, lemma_total_take, total};
use crate::text::{
    cat3, contains, cut_last, ends, ends_with, from_utf8_lossy, has, join, joined, lossy, lower,
    lowered, rsplit_once, same, starts, starts_with, texts, trim, trimmed,
};

verus! {

/// The geometry an estimate needs, however the artifact spells it.
#[derive(Debug, PartialEq, Eq)]
pub struct ModelShape {
    pub arch: String,
    pub n_layers: u32,
    /// Key/value heads. Equal to attention heads without grouped-query
    /// attention; defaulting it wrong under-counts the cache several times over.
    pub n_kv_heads: u32,
    pub head_dim: u32,
    /// The artifact's own size on disk. The floor of any estimate.
    pub weights_bytes: u64,
    /// What the model was trained for: a capability figure, never a budget.
    pub trained_context: Option<u32>,
}

impl Clone for ModelShape {
    fn clone(&self) -> (r: Self)
        ensures
            r == *self,
    {
        ModelShape {
            arch: self.arch.clone(),
            n_layers: self.n_layers,
            n_kv_heads: self.n_kv_heads,
            head_dim: self.head_dim,
            weights_bytes: self.weights_bytes,
            trained_context: self.trained_context,
        }
    }
}

/// A shape as it arrives on the command line, before it is checked.
///
/// Separate from `ModelShape` on purpose: every field is optional here and
/// few are there, so the check below is the only way across.
#[derive(Debug)]
pub struct SuppliedShape {
    pub arch: Option<String>,
    pub n_layers: Option<u32>,
    pub n_kv_heads: Option<u32>,
    pub head_dim: Option<u32>,
    pub weights_bytes: Option<u64>,
    pub trained_context: Option<u32>,
}

/// A figure that is there and not zero.
pub open spec fn given(v: Option<u32>) -> bool {
    v matches Some(n) && n > 0
}

/// The names of the figures a supplied shape does not give, in order.
pub open spec fn missing_figures(s: SuppliedShape) -> Seq<Seq<char>> {
    let a = if given(s.n_layers) {
        Seq::<Seq<char>>::empty()
    } else {
        Seq::<Seq<char>>::empty().push("n_layers"@)
    };
    let b = if given(s.n_kv_heads) {
        a
    } else {
        a.push("n_kv_heads"@)
    };
    let c = if given(s.head_dim) {
        b
    } else {
        b.push("head_dim"@)
    };
    if s.weights_bytes matches Some(w) && w > 0 {
        c
    } else {
        c.push("weights_bytes"@)
    }
}

/// Whether a supplied shape names an architecture.
pub open spec fn names_arch(s: SuppliedShape) -> bool {
    s.arch matches Some(a) && trimmed(a@).len() > 0
}

impl ModelShape {
    /// A shape handed in rather than read off an artifact.
    ///
    /// **All the geometry or none.** A missing `n_kv_heads` defaulted to the
    /// attention-head count under-counts the cache, and zero is refused for the
    /// same reason a missing value is. Weights are the floor of every estimate,
    /// so their absence is fatal too.
    pub fn from_supplied(supplied: SuppliedShape) -> (r: Result<ModelShape, String>)
        ensures
            match r {
                Ok(shape) => names_arch(supplied) && missing_figures(supplied).len() == 0
                    && supplied.arch == Some(shape.arch) && supplied.n_layers == Some(
                    shape.n_layers,
                ) && supplied.n_kv_heads == Some(shape.n_kv_heads) && supplied.head_dim == Some(
                    shape.head_dim,
                ) && supplied.weights_bytes == Some(shape.weights_bytes) && shape.trained_context
                    == if given(supplied.trained_context) {
                    supplied.trained_context
                } else {
                    None
                },
                Err(e) => if !names_arch(supplied) {
                    e@ == "shape is missing `arch`"@
                } else {
                    missing_figures(supplied).len() > 0 && e@ == "shape is incomplete: "@ + joined(
                        missing_figures(supplied),
                        ", "@,
                    )
                        + " -- a partial geometry is no geometry, because a defaulted head count under-counts the cache fivefold"@
                },
            },
    {
        let arch = match supplied.arch {
            Some(a) => a,
            None => String::new(),
        };
        if trim(arch.as_str()).as_str().is_empty() {
            proof {
                lemma_trim_empty();
            }
            return Err("shape is missing `arch`".to_owned());
        }
        proof {
            lemma_trim_empty();
        }
        let mut missing: Vec<String> = Vec::new();
        proof {
            assert(texts(missing@) =~= Seq::<Seq<char>>::empty());
        }
        let n_layers = need("n_layers", supplied.n_layers, &mut missing);
        let n_kv_heads = need("n_kv_heads", supplied.n_kv_heads, &mut missing);
        let head_dim = need("head_dim", supplied.head_dim, &mut missing);
        let weights_bytes: u64 = match supplied.weights_bytes {
            Some(v) => v,
            None => 0,
        };
        if weights_bytes == 0 {
            let ghost was = missing@;
            missing.push("weights_bytes".to_owned());
            proof {
                assert(texts(missing@) =~= texts(was).push("weights_bytes"@));
            }
        }
        proof {
            assert(texts(missing@).len() == missing@.len());
        }
        if missing.len() > 0 {
            return Err(
                cat3(
                    "shape is incomplete: ",
                    join(&missing, ", ").as_str(),
                    " -- a partial geometry is no geometry, because a defaulted head count under-counts the cache fivefold",
                ),
            );
        }
        let trained_context = match supplied.trained_context {
            Some(c) => if c > 0 {
                Some(c)
            } else {
                None
            },
            None => None,
        };
        Ok(ModelShape { arch, n_layers, n_kv_heads, head_dim, weights_bytes, trained_context })
    }
}

proof fn lemma_trim_empty()
    ensures
        trimmed(Seq::<char>::empty()) == Seq::<char>::empty(),
{
}

fn need(name: &str, value: Option<u32>, missing: &mut Vec<String>) -> (r: u32)
    ensures
        given(value) ==> Some(r) == value && final(missing)@ == old(missing)@,
        !given(value) ==> texts(final(missing)@) == texts(old(missing)@).push(name@),
{
    match value {
        Some(v) => {
            if v > 0 {
                return v;
            }
        },
        None => {},
    }
    let ghost was = missing@;
    missing.push(name.to_owned());
    proof {
        assert(texts(missing@) =~= texts(was).push(name@));
    }
    0
}

/// Declared if the artifact says so, else embedding width over head count.
pub open spec fn head_width(declared: Option<u32>, embedding: Option<u32>, heads: u32) -> Option<
    u32,
> {
    if given(declared) {
        declared
    } else if embedding is Some && heads > 0 && embedding->0 / heads > 0 {
        Some(embedding->0 / heads)
    } else {
        None
    }
}

/// Declared if the artifact says so, else embedding width over head count.
///
/// A zero head count would divide by zero, so it is refused rather than
/// defaulted.
pub fn head_dim(declared: Option<u32>, embedding: Option<u32>, n_heads: u32) -> (r: Option<u32>)
    ensures
        r == head_width(declared, embedding, n_heads),
{
    if let Some(d) = declared {
        if d > 0 {
            return Some(d);
        }
    }
    match embedding {
        Some(e) => {
            if n_heads == 0 {
                return None;
            }
            let d: u32 = e / n_heads;
            if d > 0 {
                Some(d)
            } else {
                None
            }
        },
        None => None,
    }
}

// --- GGUF ------------------------------------------------------------------
//
// Layout, from the format's own specification:
//
//   "GGUF" | version u32 | tensor_count u64 | kv_count u64 | kv pairs...
//   kv pair: key_len u64 | key bytes | value_type u32 | value
//
// Every value type has a knowable width, so a value this reader does not want
// can be stepped over without being understood.

/// How much of a file to read, escalating, before giving up on the metadata.
///
/// Escalating rather than one large read, because the keys that matter are
/// written before the tokenizer and the walk stops when it reaches it.
pub const HEADER_READ_STEPS: [usize; 3] = [262_144, 8_388_608, 50_331_648];

pub const T_UINT8: u32 = 0;

pub const T_INT8: u32 = 1;

pub const T_UINT16: u32 = 2;

pub const T_INT16: u32 = 3;

pub const T_UINT32: u32 = 4;

pub const T_INT32: u32 = 5;

pub const T_FLOAT32: u32 = 6;

pub const T_BOOL: u32 = 7;

pub const T_STRING: u32 = 8;

pub const T_ARRAY: u32 = 9;

pub const T_UINT64: u32 = 10;

pub const T_INT64: u32 = 11;

pub const T_FLOAT64: u32 = 12;

/// The number a run of bytes writes, least significant first.
pub open spec fn little_endian(b: Seq<u8>) -> nat
    decreases b.len(),
{
    if b.len() == 0 {
        0
    } else {
        b[0] as nat + 256 * little_endian(b.drop_first())
    }
}

proof fn lemma_little_endian_bound(b: Seq<u8>)
    ensures
        b.len() <= 4 ==> little_endian(b) <= u32::MAX,
        b.len() <= 2 ==> little_endian(b) <= u16::MAX,
        b.len() <= 1 ==> little_endian(b) <= u8::MAX,
        b.len() <= 8 ==> little_endian(b) <= u64::MAX,
{
    reveal_with_fuel(little_endian, 9);
}

/// Whether `n` more bytes stand behind place `at`.
pub open spec fn room(b: Seq<u8>, at: int, n: nat) -> bool {
    at + n <= b.len()
}

/// The little-endian number of `n` bytes at place `at`.
pub open spec fn number_at(b: Seq<u8>, at: int, n: nat) -> nat {
    little_endian(b.subrange(at, at + n))
}

/// Width of a fixed-size value; the other types have none.
pub open spec fn width_of(t: u32) -> Option<nat> {
    if t == T_UINT8 || t == T_INT8 || t == T_BOOL {
        Some(1)
    } else if t == T_UINT16 || t == T_INT16 {
        Some(2)
    } else if t == T_UINT32 || t == T_INT32 || t == T_FLOAT32 {
        Some(4)
    } else if t == T_UINT64 || t == T_INT64 || t == T_FLOAT64 {
        Some(8)
    } else {
        None
    }
}

/// Where stepping over a length-prefixed run of bytes ends, and whether it succeeded.
pub open spec fn past_string(b: Seq<u8>, at: int) -> (int, bool) {
    if !room(b, at, 8) {
        (at, false)
    } else if !room(b, at + 8, number_at(b, at, 8)) {
        (at + 8, false)
    } else {
        (at + 8 + number_at(b, at, 8), true)
    }
}

/// Where stepping over `count` length-prefixed runs ends, and whether it succeeded.
pub open spec fn past_strings(b: Seq<u8>, at: int, count: nat) -> (int, bool)
    decreases count,
{
    if count == 0 {
        (at, true)
    } else {
        let (next, ok) = past_string(b, at);
        if ok {
            past_strings(b, next, (count - 1) as nat)
        } else {
            (next, false)
        }
    }
}

/// Where stepping over one value of type `t` ends, and whether it succeeded. A
/// step that fails leaves the place behind what it could still read.
pub open spec fn past_value(b: Seq<u8>, at: int, t: u32) -> (int, bool) {
    match width_of(t) {
        Some(w) => if room(b, at, w) {
            (at + w, true)
        } else {
            (at, false)
        },
        None => if t == T_STRING {
            past_string(b, at)
        } else if t == T_ARRAY {
            if !room(b, at, 4) {
                (at, false)
            } else if !room(b, at + 4, 8) {
                (at + 4, false)
            } else {
                let elem = number_at(b, at, 4) as u32;
                let count = number_at(b, at + 4, 8);
                match width_of(elem) {
                    Some(w) => if room(b, at + 12, count * w) {
                        (at + 12 + count * w, true)
                    } else {
                        (at + 12, false)
                    },
                    None => if elem == T_STRING {
                        past_strings(b, at + 12, count)
                    } else {
                        // A nested array holds nothing this reader needs.
                        (at + 12, false)
                    },
                }
            }
        } else {
            (at, false)
        },
    }
}

/// A value of type `t` narrowed to 32 bits, if `t` is an integer type, and the
/// place behind it; nothing where the bytes run out.
pub open spec fn integer_value(b: Seq<u8>, at: int, t: u32) -> Option<(Option<u32>, int)> {
    let w: nat = if t == T_UINT32 || t == T_INT32 {
        4
    } else if t == T_UINT64 || t == T_INT64 {
        8
    } else if t == T_UINT16 || t == T_INT16 {
        2
    } else if t == T_UINT8 || t == T_INT8 {
        1
    } else {
        0
    };
    let (next, ok) = past_value(b, at, t);
    if !ok {
        None
    } else if w == 0 {
        Some((None, next))
    } else {
        Some((Some((number_at(b, at, w) % 0x1_0000_0000) as u32), next))
    }
}

/// A place in a run of bytes.
pub struct Cursor<'a> {
    pub b: &'a [u8],
    pub at: usize,
}

impl<'a> Cursor<'a> {
    /// The place is inside the bytes, or right behind them.
    pub open spec fn valid(&self) -> bool {
        self.at <= self.b@.len()
    }

    /// The next `n` bytes; nothing moves when there are fewer.
    pub fn take(&mut self, n: usize) -> (r: Option<&'a [u8]>)
        requires
            old(self).valid(),
        ensures
            final(self).valid(),
            final(self).b == old(self).b,
            match r {
                Some(s) => room(old(self).b@, old(self).at as int, n as nat) && s@ == old(
                    self,
                ).b@.subrange(old(self).at as int, old(self).at + n) && final(self).at == old(
                    self,
                ).at + n,
                None => !room(old(self).b@, old(self).at as int, n as nat) && final(self).at
                    == old(self).at,
            },
    {
        let left: usize = self.b.len() - self.at;
        if n > left {
            return None;
        }
        let from: usize = self.at;
        self.at = self.at + n;
        Some(slice_subrange(self.b, from, from + n))
    }

    /// The next `n` bytes stepped over; nothing moves when there are fewer.
    fn step(&mut self, n: u64) -> (ok: bool)
        requires
            old(self).valid(),
        ensures
            final(self).valid(),
            final(self).b == old(self).b,
            ok == room(old(self).b@, old(self).at as int, n as nat),
            final(self).at == if ok {
                old(self).at + n
            } else {
                old(self).at as int
            },
    {
        let left: usize = self.b.len() - self.at;
        if n > left as u64 {
            return false;
        }
        self.at = self.at + n as usize;
        true
    }

    /// The next `n` bytes as a little-endian number.
    fn number(&mut self, n: usize) -> (r: Option<u64>)
        requires
            old(self).valid(),
            n == 1 || n == 2 || n == 4 || n == 8,
        ensures
            final(self).valid(),
            final(self).b == old(self).b,
            match r {
                Some(v) => room(old(self).b@, old(self).at as int, n as nat) && v == number_at(
                    old(self).b@,
                    old(self).at as int,
                    n as nat,
                ) && final(self).at == old(self).at + n,
                None => !room(old(self).b@, old(self).at as int, n as nat) && final(self).at
                    == old(self).at,
            },
    {
        match self.take(n) {
            Some(s) => {
                let mut i: usize = n;
                let mut v: u64 = 0;
                proof {
                    assert(s@.skip(n as int).len() == 0);
                }
                while i > 0
                    invariant
                        i <= n == s@.len(),
                        n <= 8,
                        v == little_endian(s@.skip(i as int)),
                    decreases i,
                {
                    proof {
                        let t = s@.skip(i - 1);
                        assert(t.drop_first() =~= s@.skip(i as int));
                        lemma_little_endian_bound(t);
                        assert(t[0] == s@[i - 1]);
                    }
                    v = s[i - 1] as u64 + 256 * v;
                    i -= 1;
                }
                proof {
                    assert(s@.skip(0) =~= s@);
                }
                Some(v)
            },
            None => None,
        }
    }

    /// A length-prefixed run of bytes as text.
    fn string(&mut self) -> (r: Option<String>)
        requires
            old(self).valid(),
        ensures
            final(self).valid(),
            final(self).b == old(self).b,
            match r {
                Some(s) => string_at(old(self).b@, old(self).at as int) == Some(
                    (s@, final(self).at as int),
                ),
                None => string_at(old(self).b@, old(self).at as int) is None,
            },
    {
        let n = match self.number(8) {
            Some(n) => n,
            None => {
                return None;
            },
        };
        let left: usize = self.b.len() - self.at;
        if n > left as u64 {
            return None;
        }
        match self.take(n as usize) {
            Some(s) => Some(from_utf8_lossy(s)),
            None => None,
        }
    }

    /// Width of a fixed-size value, or `None` for the types that are not fixed.
    pub fn fixed_width(t: u32) -> (r: Option<usize>)
        ensures
            match r {
                Some(w) => width_of(t) == Some(w as nat) && (w == 1 || w == 2 || w == 4 || w == 8),
                None => width_of(t) is None,
            },
    {
        if t == T_UINT8 || t == T_INT8 || t == T_BOOL {
            Some(1)
        } else if t == T_UINT16 || t == T_INT16 {
            Some(2)
        } else if t == T_UINT32 || t == T_INT32 || t == T_FLOAT32 {
            Some(4)
        } else if t == T_UINT64 || t == T_INT64 || t == T_FLOAT64 {
            Some(8)
        } else {
            None
        }
    }

    fn skip_string(&mut self) -> (ok: bool)
        requires
            old(self).valid(),
        ensures
            final(self).valid(),
            final(self).b == old(self).b,
            (final(self).at as int, ok) == past_string(old(self).b@, old(self).at as int),
    {
        match self.number(8) {
            Some(n) => self.step(n),
            None => false,
        }
    }

    /// Step over one value of the given type, whatever it is.
    pub fn skip_value(&mut self, t: u32) -> (r: Option<()>)
        requires
            old(self).valid(),
        ensures
            final(self).valid(),
            final(self).b == old(self).b,
            (final(self).at as int, r is Some) == past_value(
                old(self).b@,
                old(self).at as int,
                t,
            ),
    {
        if let Some(w) = Self::fixed_width(t) {
            return if self.step(w as u64) {
                Some(())
            } else {
                None
            };
        }
        if t == T_STRING {
            return if self.skip_string() {
                Some(())
            } else {
                None
            };
        }
        if t != T_ARRAY {
            return None;
        }
        let elem: u32 = match self.number(4) {
            Some(e) => {
                proof {
                    lemma_little_endian_bound(
                        old(self).b@.subrange(old(self).at as int, old(self).at + 4),
                    );
                }
                e as u32
            },
            None => {
                return None;
            },
        };
        let count: u64 = match self.number(8) {
            Some(c) => c,
            None => {
                return None;
            },
        };
        if let Some(w) = Self::fixed_width(elem) {
            // Checked: a corrupt count must not wrap into a small offset.
            let all: usize = self.b.len();
            proof {
                assert(all as u64 == all);
                assert(count as nat * w as nat == count * w);
            }
            return match count.checked_mul(w as u64) {
                Some(size) => if self.step(size) {
                    Some(())
                } else {
                    None
                },
                None => None,
            };
        }
        if elem != T_STRING {
            return None;
        }
        let ghost from = self.at as int;
        let ghost bytes = self.b@;
        let mut left: u64 = count;
        while left > 0
            invariant
                self.valid(),
                self.b == old(self).b,
                bytes == self.b@,
                past_strings(bytes, from, count as nat) == past_strings(
                    bytes,
                    self.at as int,
                    left as nat,
                ),
                past_value(old(self).b@, old(self).at as int, t) == past_strings(
                    bytes,
                    from,
                    count as nat,
                ),
            decreases left,
        {
            if !self.skip_string() {
                return None;
            }
            left -= 1;
        }
        Some(())
    }

    /// Read a value as u32 when it is an integer type, else step over it;
    /// `None` where the bytes run out.
    pub fn u32_value(&mut self, t: u32) -> (r: Option<Option<u32>>)
        requires
            old(self).valid(),
        ensures
            final(self).valid(),
            final(self).b == old(self).b,
            final(self).at == past_value(old(self).b@, old(self).at as int, t).0,
            match r {
                Some(v) => integer_value(old(self).b@, old(self).at as int, t) == Some(
                    (v, final(self).at as int),
                ),
                None => integer_value(old(self).b@, old(self).at as int, t) is None,
            },
    {
        let w: usize = if t == T_UINT32 || t == T_INT32 {
            4
        } else if t == T_UINT64 || t == T_INT64 {
            8
        } else if t == T_UINT16 || t == T_INT16 {
            2
        } else if t == T_UINT8 || t == T_INT8 {
            1
        } else {
            return match self.skip_value(t) {
                Some(()) => Some(None),
                None => None,
            };
        };
        match self.number(w) {
            Some(v) => Some(Some((v % 0x1_0000_0000) as u32)),
            None => None,
        }
    }
}

/// A length-prefixed run of bytes as text, and the place behind it.
pub open spec fn string_at(b: Seq<u8>, at: int) -> Option<(Seq<char>, int)> {
    let (next, ok) = past_string(b, at);
    if ok {
        Some((lossy(b.subrange(at + 8, next)), next))
    } else {
        None
    }
}

/// Why a header walk stopped, so a reader knows whether reading more would
/// help. Truncation is worth a retry; a file that is not a GGUF never is.
#[derive(Debug, Clone, Copy, PartialEq, Eq, Structural)]
pub enum Stop {
    NotGguf,
    Truncated,
    Incomplete,
}

/// The figures a walk has kept: a key and its value, in the order they came.
pub type Figures = Seq<(Seq<char>, u32)>;

/// The figure kept under `arch.suffix`.
pub open spec fn figure(vals: Figures, arch: Seq<char>, suffix: Seq<char>) -> Option<u32> {
    figure_under(vals, arch + "."@ + suffix)
}

/// Whether a figure was kept under `key`.
pub open spec fn keyed(p: (Seq<char>, u32), key: Seq<char>) -> bool {
    p.0 == key
}

/// The first figure kept under a key.
pub open spec fn figure_under(vals: Figures, key: Seq<char>) -> Option<u32> {
    match first_match(vals, |p: (Seq<char>, u32)| keyed(p, key)) {
        Some(p) => Some(p.1),
        None => None,
    }
}

/// Enough to stop walking: the geometry the estimator cannot do without.
pub open spec fn enough(arch: Option<Seq<char>>, vals: Figures) -> bool {
    arch matches Some(a) && figure(vals, a, "block_count"@) is Some && figure(
        vals,
        a,
        "attention.head_count"@,
    ) is Some && (figure(vals, a, "attention.key_length"@) is Some || figure(
        vals,
        a,
        "embedding_length"@,
    ) is Some)
}

/// Only the numeric hyperparameters are worth keeping.
pub open spec fn worth_keeping(key: Seq<char>) -> bool {
    has(key, "block_count"@) || has(key, "head_count"@) || has(key, "key_length"@) || has(
        key,
        "value_length"@,
    ) || has(key, "embedding_length"@) || ends(key, "context_length"@)
}

/// What a walk over `left` key-value pairs comes to, from place `at` and with
/// what was kept so far: the architecture and the figures, or nothing when the
/// bytes run out. The tokenizer is written after the hyperparameters, so
/// reaching it with everything in hand ends the walk.
pub open spec fn walk(
    b: Seq<u8>,
    at: int,
    left: nat,
    arch: Option<Seq<char>>,
    vals: Figures,
) -> Option<(Option<Seq<char>>, Figures)>
    decreases left,
{
    if left == 0 {
        Some((arch, vals))
    } else {
        match string_at(b, at) {
            None => None,
            Some((key, p)) => if !room(b, p, 4) {
                None
            } else {
                let t = number_at(b, p, 4) as u32;
                if starts(key, "tokenizer."@) && arch is Some && enough(arch, vals) {
                    Some((arch, vals))
                } else if key == "general.architecture"@ {
                    match string_at(b, p + 4) {
                        Some((a, q)) => walk(b, q, (left - 1) as nat, Some(a), vals),
                        None => None,
                    }
                } else if worth_keeping(key) {
                    match integer_value(b, p + 4, t) {
                        Some((v, q)) => walk(
                            b,
                            q,
                            (left - 1) as nat,
                            arch,
                            match v {
                                Some(n) => vals.push((key, n)),
                                None => vals,
                            },
                        ),
                        None => None,
                    }
                } else {
                    let (q, ok) = past_value(b, p + 4, t);
                    if ok {
                        walk(b, q, (left - 1) as nat, arch, vals)
                    } else {
                        None
                    }
                }
            },
        }
    }
}

/// A shape as its header tells it.
#[verifier::ext_equal]
pub struct ShapeFacts {
    pub arch: Seq<char>,
    pub n_layers: u32,
    pub n_kv_heads: u32,
    pub head_dim: u32,
    pub trained_context: Option<u32>,
}

/// The shape that an architecture and its figures give, if they give one.
/// Without grouped-query attention a model publishes no kv head count, and the
/// two are equal.
pub open spec fn facts_of(arch: Option<Seq<char>>, vals: Figures) -> Option<ShapeFacts> {
    match arch {
        None => None,
        Some(a) => match (
            figure(vals, a, "block_count"@),
            figure(vals, a, "attention.head_count"@),
        ) {
            (Some(n_layers), Some(n_heads)) => match head_width(
                figure(vals, a, "attention.key_length"@),
                figure(vals, a, "embedding_length"@),
                n_heads,
            ) {
                Some(head_dim) => Some(
                    ShapeFacts {
                        arch: a,
                        n_layers,
                        n_kv_heads: match figure(vals, a, "attention.head_count_kv"@) {
                            Some(n) => n,
                            None => n_heads,
                        },
                        head_dim,
                        trained_context: figure(vals, a, "context_length"@),
                    },
                ),
                None => None,
            },
            _ => None,
        },
    }
}

/// What a prefix of a file says of a model's shape.
pub open spec fn header_of(b: Seq<u8>) -> Result<ShapeFacts, Stop> {
    if b.len() < 4 {
        Err(Stop::Truncated)
    } else if b.subrange(0, 4) != seq![71u8, 71u8, 85u8, 70u8] {
        Err(Stop::NotGguf)
    } else if b.len() < 24 {
        Err(Stop::Truncated)
    } else {
        match walk(b, 24, number_at(b, 16, 8), None, Seq::empty()) {
            None => Err(Stop::Truncated),
            Some((arch, vals)) => match facts_of(arch, vals) {
                Some(f) => Ok(f),
                None => Err(Stop::Incomplete),
            },
        }
    }
}

/// The texts and values of kept figures.
pub open spec fn figures_of(v: Seq<(String, u32)>) -> Figures {
    v.map_values(|p: (String, u32)| (p.0@, p.1))
}

fn get(vals: &Vec<(String, u32)>, arch: &str, suffix: &str) -> (r: Option<u32>)
    ensures
        r == figure(figures_of(vals@), arch@, suffix@),
{
    let key = cat3(arch, ".", suffix);
    let ghost wanted = key@;
    let ghost q = |p: (Seq<char>, u32)| keyed(p, wanted);
    let mut i: usize = 0;
    while i < vals.len()
        invariant
            i <= vals.len(),
            wanted == key@,
            wanted == arch@ + "."@ + suffix@,
            q == (|p: (Seq<char>, u32)| keyed(p, wanted)),
            forall|j: int| 0 <= j < i ==> !q(#[trigger] figures_of(vals@)[j]),
        decreases vals.len() - i,
    {
        proof {
            assert(figures_of(vals@)[i as int].0 == vals@[i as int].0@);
        }
        if same(vals[i].0.as_str(), key.as_str()) {
            proof {
                lemma_first_index_is(figures_of(vals@), q, i as int);
            }
            return Some(vals[i].1);
        }
        i += 1;
    }
    proof {
        lemma_first_index_is(figures_of(vals@), q, i as int);
    }
    None
}

/// Enough to stop walking.
fn has_required(arch: &Option<String>, vals: &Vec<(String, u32)>) -> (r: bool)
    ensures
        r == enough(crate::text::opt_text(*arch), figures_of(vals@)),
{
    match arch {
        Some(a) => get(vals, a.as_str(), "block_count").is_some() && get(
            vals,
            a.as_str(),
            "attention.head_count",
        ).is_some() && (get(vals, a.as_str(), "attention.key_length").is_some() || get(
            vals,
            a.as_str(),
            "embedding_length",
        ).is_some()),
        None => false,
    }
}

fn keeps(key: &str) -> (r: bool)
    ensures
        r == worth_keeping(key@),
{
    contains(key, "block_count") || contains(key, "head_count") || contains(key, "key_length")
        || contains(key, "value_length") || contains(key, "embedding_length") || ends_with(
        key,
        "context_length",
    )
}

/// Whether a shape is the one the facts tell, at this size.
pub open spec fn has_shape(s: ModelShape, f: ShapeFacts, weights_bytes: u64) -> bool {
    &&& s.arch@ == f.arch
    &&& s.n_layers == f.n_layers
    &&& s.n_kv_heads == f.n_kv_heads
    &&& s.head_dim == f.head_dim
    &&& s.weights_bytes == weights_bytes
    &&& s.trained_context == f.trained_context
}

fn shape_from(arch: Option<String>, vals: &Vec<(String, u32)>, weights_bytes: u64) -> (r: Option<
    ModelShape,
>)
    ensures
        match r {
            Some(s) => facts_of(crate::text::opt_text(arch), figures_of(vals@)) matches Some(f)
                && has_shape(s, f, weights_bytes),
            None => facts_of(crate::text::opt_text(arch), figures_of(vals@)) is None,
        },
{
    let arch = match arch {
        Some(a) => a,
        None => {
            return None;
        },
    };
    let n_layers = match get(vals, arch.as_str(), "block_count") {
        Some(n) => n,
        None => {
            return None;
        },
    };
    let n_heads = match get(vals, arch.as_str(), "attention.head_count") {
        Some(n) => n,
        None => {
            return None;
        },
    };
    let n_kv_heads = match get(vals, arch.as_str(), "attention.head_count_kv") {
        Some(n) => n,
        None => n_heads,
    };
    let width = head_dim(
        get(vals, arch.as_str(), "attention.key_length"),
        get(vals, arch.as_str(), "embedding_length"),
        n_heads,
    );
    let head_dim = match width {
        Some(d) => d,
        None => {
            return None;
        },
    };
    let trained_context = get(vals, arch.as_str(), "context_length");
    Some(ModelShape { arch, n_layers, n_kv_heads, head_dim, weights_bytes, trained_context })
}

/// The shape in a prefix of a GGUF file, or why there is none.
pub fn parse_gguf(bytes: &[u8], weights_bytes: u64) -> (r: Result<ModelShape, Stop>)
    ensures
        match r {
            Ok(s) => header_of(bytes@) matches Ok(f) && has_shape(s, f, weights_bytes),
            Err(stop) => header_of(bytes@) == Err::<ShapeFacts, Stop>(stop),
        },
{
    let mut c = Cursor { b: bytes, at: 0 };
    match c.take(4) {
        None => {
            return Err(Stop::Truncated);
        },
        Some(m) => {
            if m[0] != 71 || m[1] != 71 || m[2] != 85 || m[3] != 70 {
                proof {
                    assert(bytes@.subrange(0, 4) == m@);
                    assert(seq![71u8, 71u8, 85u8, 70u8][0] == 71);
                    assert(seq![71u8, 71u8, 85u8, 70u8][1] == 71);
                    assert(seq![71u8, 71u8, 85u8, 70u8][2] == 85);
                    assert(seq![71u8, 71u8, 85u8, 70u8][3] == 70);
                }
                return Err(Stop::NotGguf);
            }
            proof {
                assert(m@ =~= seq![71u8, 71u8, 85u8, 70u8]);
            }
        },
    }
    if c.number(4).is_none() {
        return Err(Stop::Truncated);
    }
    if c.number(8).is_none() {
        return Err(Stop::Truncated);
    }
    let kv_count: u64 = match c.number(8) {
        Some(n) => n,
        None => {
            return Err(Stop::Truncated);
        },
    };
    let mut arch: Option<String> = None;
    let mut vals: Vec<(String, u32)> = Vec::new();
    let mut left: u64 = kv_count;
    let mut done: bool = false;
    let ghost whole = walk(bytes@, 24, kv_count as nat, None, Seq::empty());
    proof {
        assert(figures_of(vals@) =~= Seq::empty());
    }
    while left > 0 && !done
        invariant
            c.valid(),
            c.b == bytes,
            !done ==> whole == walk(
                bytes@,
                c.at as int,
                left as nat,
                crate::text::opt_text(arch),
                figures_of(vals@),
            ),
            done ==> whole == Some((crate::text::opt_text(arch), figures_of(vals@))),
            bytes@.len() >= 24,
            bytes@.subrange(0, 4) == seq![71u8, 71u8, 85u8, 70u8],
            whole == walk(bytes@, 24, number_at(bytes@, 16, 8), None, Seq::empty()),
        decreases left,
    {
        let key = match c.string() {
            Some(k) => k,
            None => {
                return Err(Stop::Truncated);
            },
        };
        let ghost p = c.at as int;
        let t: u32 = match c.number(4) {
            Some(n) => {
                proof {
                    lemma_little_endian_bound(bytes@.subrange(p, p + 4));
                }
                n as u32
            },
            None => {
                return Err(Stop::Truncated);
            },
        };
        if starts_with(key.as_str(), "tokenizer.") && arch.is_some() && has_required(&arch, &vals) {
            done = true;
        } else if same(key.as_str(), "general.architecture") {
            match c.string() {
                Some(a) => {
                    arch = Some(a);
                },
                None => {
                    return Err(Stop::Truncated);
                },
            }
        } else if keeps(key.as_str()) {
            match c.u32_value(t) {
                Some(Some(v)) => {
                    let ghost was = vals@;
                    let ghost k = key@;
                    vals.push((key, v));
                    proof {
                        assert(figures_of(vals@) =~= figures_of(was).push((k, v)));
                    }
                },
                Some(None) => {},
                None => {
                    return Err(Stop::Truncated);
                },
            }
        } else if c.skip_value(t).is_none() {
            return Err(Stop::Truncated);
        }
        left -= 1;
    }
    match shape_from(arch, &vals, weights_bytes) {
        Some(s) => Ok(s),
        None => Err(Stop::Incomplete),
    }
}

/// What to do after reading the first `limit` bytes of a file.
#[derive(Debug)]
pub enum HeaderRead {
    Shape(ModelShape),
    /// Not a GGUF, or one that will not say more however much of it is read.
    Nothing,
    /// The header goes on behind what was read.
    ReadMore,
}

/// Whether a prefix of at most `limit` bytes answers, and whether reading more would help.
pub fn read_header(bytes: &[u8], limit: usize, weights_bytes: u64) -> (r: HeaderRead)
    ensures
        match header_of(bytes@) {
            Ok(f) => r matches HeaderRead::Shape(s) && has_shape(s, f, weights_bytes),
            Err(Stop::Truncated) => if bytes@.len() < limit {
                r is Nothing
            } else {
                r is ReadMore
            },
            Err(_) => r is Nothing,
        },
{
    let short: bool = bytes.len() < limit;
    match parse_gguf(bytes, weights_bytes) {
        Ok(s) => HeaderRead::Shape(s),
        Err(Stop::Truncated) => if short {
            HeaderRead::Nothing
        } else {
            HeaderRead::ReadMore
        },
        Err(_) => HeaderRead::Nothing,
    }
}

// --- MLX -------------------------------------------------------------------

/// What an MLX `config.json` says of a model's geometry.
#[derive(Debug)]
pub struct MlxConfig {
    pub model_type: Option<String>,
    pub num_hidden_layers: Option<u32>,
    pub num_attention_heads: Option<u32>,
    pub num_key_value_heads: Option<u32>,
    pub head_dim: Option<u32>,
    pub hidden_size: Option<u32>,
    pub max_position_embeddings: Option<u32>,
}

/// The shape an MLX config gives. A config beside no weights is a config, not a model.
pub open spec fn mlx_facts(c: MlxConfig, weights_bytes: u64) -> Option<ShapeFacts> {
    match (c.num_hidden_layers, c.num_attention_heads) {
        (Some(n_layers), Some(n_heads)) => match head_width(c.head_dim, c.hidden_size, n_heads) {
            Some(head_dim) => if weights_bytes == 0 {
                None
            } else {
                Some(
                    ShapeFacts {
                        arch: match c.model_type {
                            Some(a) => a@,
                            None => "unknown"@,
                        },
                        n_layers,
                        n_kv_heads: match c.num_key_value_heads {
                            Some(n) => n,
                            None => n_heads,
                        },
                        head_dim,
                        trained_context: c.max_position_embeddings,
                    },
                )
            },
            None => None,
        },
        _ => None,
    }
}

/// The shape of an MLX directory, from its config and the size of its shards.
pub fn from_mlx_config(c: &MlxConfig, weights_bytes: u64) -> (r: Option<ModelShape>)
    ensures
        match r {
            Some(s) => mlx_facts(*c, weights_bytes) matches Some(f) && has_shape(
                s,
                f,
                weights_bytes,
            ),
            None => mlx_facts(*c, weights_bytes) is None,
        },
{
    let n_layers = match c.num_hidden_layers {
        Some(n) => n,
        None => {
            return None;
        },
    };
    let n_heads = match c.num_attention_heads {
        Some(n) => n,
        None => {
            return None;
        },
    };
    let n_kv_heads = match c.num_key_value_heads {
        Some(n) => n,
        None => n_heads,
    };
    let width = head_dim(c.head_dim, c.hidden_size, n_heads);
    let head_dim = match width {
        Some(d) => d,
        None => {
            return None;
        },
    };
    if weights_bytes == 0 {
        return None;
    }
    let arch = match &c.model_type {
        Some(a) => a.clone(),
        None => "unknown".to_owned(),
    };
    Some(
        ModelShape {
            arch,
            n_layers,
            n_kv_heads,
            head_dim,
            weights_bytes,
            trained_context: c.max_position_embeddings,
        },
    )
}

/// What follows the last dot of a file's name, where anything stands before it.
pub open spec fn extension(name: Seq<char>) -> Option<Seq<char>> {
    match cut_last(name, "."@) {
        Some((stem, ext)) => if stem.len() > 0 {
            Some(ext)
        } else {
            None
        },
        None => None,
    }
}

/// What one entry of a directory weighs as weights: its size, where it is a
/// weight file whose size could be read.
pub open spec fn shard_bytes(e: (String, Option<u64>)) -> nat {
    match (extension(e.0@), e.1) {
        (Some(ext), Some(n)) => if lowered(ext) == "safetensors"@ {
            n as nat
        } else {
            0
        },
        _ => 0,
    }
}

/// Every shard, summed. An MLX model is a directory, so its size is the sum of
/// its weight files rather than one file's length.
pub fn safetensors_bytes(entries: &[(String, Option<u64>)]) -> (sum: u64)
    requires
        total(entries@, |e: (String, Option<u64>)| shard_bytes(e)) <= u64::MAX,
    ensures
        sum == total(entries@, |e: (String, Option<u64>)| shard_bytes(e)),
{
    let ghost f = |e: (String, Option<u64>)| shard_bytes(e);
    let mut sum: u64 = 0;
    let mut i: usize = 0;
    while i < entries.len()
        invariant
            i <= entries@.len(),
            f == (|e: (String, Option<u64>)| shard_bytes(e)),
            total(entries@, f) <= u64::MAX,
            sum == total(entries@.take(i as int), f),
        decreases entries.len() - i,
    {
        proof {
            lemma_total_take(entries@, f, i as int);
            reveal_strlit("");
        }
        if let (Some((stem, ext)), Some(n)) = (
            rsplit_once(entries[i].0.as_str(), "."),
            entries[i].1,
        ) {
            let named: bool = !same(stem.as_str(), "");
            proof {
                if stem@.len() == 0 {
                    assert(stem@ =~= ""@);
                }
            }
            if named && same(lower(ext.as_str()).as_str(), "safetensors") {
                sum = sum + n;
            }
        }
        i += 1;
    }
    proof {
        assert(entries@.take(i as int) =~= entries@);
    }
    sum
}

/// Stepping over anything moves forward and never past the end, whatever the
/// bytes claim about their own lengths.
pub proof fn stepping_never_leaves_the_bytes(b: Seq<u8>, at: int, t: u32)
    requires
        0 <= at <= b.len(),
    ensures
        at <= past_value(b, at, t).0 <= b.len(),
{
    if t == T_ARRAY && room(b, at, 12) {
        lemma_strings_stay(b, at + 12, number_at(b, at + 4, 8));
        let count = number_at(b, at + 4, 8);
        assert(forall|w: nat| #[trigger] (count * w) >= 0);
    }
}

proof fn lemma_strings_stay(b: Seq<u8>, at: int, count: nat)
    requires
        0 <= at <= b.len(),
    ensures
        at <= past_strings(b, at, count).0 <= b.len(),
    decreases count,
{
    if count > 0 {
        let (next, ok) = past_string(b, at);
        if ok {
            lemma_strings_stay(b, next, (count - 1) as nat);
        }
    }
}

/// A shape is never built on a head count of zero: without a declared width it is refused.
pub proof fn a_zero_head_count_gives_no_shape(embedding: Option<u32>)
    ensures
        head_width(None, embedding, 0) is None,
        head_width(Some(0), embedding, 0) is None,
{
}

/// Whether some bytes begin with others.
pub open spec fn begins(b: Seq<u8>, front: Seq<u8>) -> bool {
    front.len() <= b.len() && b.subrange(0, front.len() as int) == front
}

/// What is read of a front is read of the whole.
proof fn lemma_same_number(b: Seq<u8>, front: Seq<u8>, at: int, n: nat)
    requires
        begins(b, front),
        0 <= at,
        room(front, at, n),
    ensures
        room(b, at, n),
        number_at(b, at, n) == number_at(front, at, n),
        b.subrange(at, at + n) == front.subrange(at, at + n),
{
    let whole = b.subrange(at, at + n);
    let part = front.subrange(at, at + n);
    assert forall|k: int| 0 <= k < n implies #[trigger] whole[k] == part[k] by {
        assert(b.subrange(0, front.len() as int)[at + k] == front[at + k]);
    }
    assert(whole =~= part);
}

proof fn lemma_same_string(b: Seq<u8>, front: Seq<u8>, at: int)
    requires
        begins(b, front),
        0 <= at,
        past_string(front, at).1,
    ensures
        past_string(b, at) == past_string(front, at),
        string_at(b, at) == string_at(front, at),
        past_string(front, at).0 >= at,
{
    lemma_same_number(b, front, at, 8);
    lemma_same_number(b, front, at + 8, number_at(front, at, 8));
}

proof fn lemma_same_strings(b: Seq<u8>, front: Seq<u8>, at: int, count: nat)
    requires
        begins(b, front),
        0 <= at,
        past_strings(front, at, count).1,
    ensures
        past_strings(b, at, count) == past_strings(front, at, count),
        past_strings(front, at, count).0 >= at,
    decreases count,
{
    if count > 0 {
        lemma_same_string(b, front, at);
        lemma_same_strings(b, front, past_string(front, at).0, (count - 1) as nat);
    }
}

proof fn lemma_same_value(b: Seq<u8>, front: Seq<u8>, at: int, t: u32)
    requires
        begins(b, front),
        0 <= at,
        past_value(front, at, t).1,
    ensures
        past_value(b, at, t) == past_value(front, at, t),
        integer_value(b, at, t) == integer_value(front, at, t),
        past_value(front, at, t).0 >= at,
{
    match width_of(t) {
        Some(w) => {
            lemma_same_number(b, front, at, w);
        },
        None => {
            if t == T_STRING {
                lemma_same_string(b, front, at);
            } else {
                lemma_same_number(b, front, at, 4);
                lemma_same_number(b, front, at + 4, 8);
                let elem = number_at(front, at, 4) as u32;
                let count = number_at(front, at + 4, 8);
                match width_of(elem) {
                    Some(w) => {
                        assert(count * w >= 0);
                        lemma_same_number(b, front, at + 12, count * w);
                    },
                    None => {
                        lemma_same_strings(b, front, at + 12, count);
                    },
                }
            }
        },
    }
}

proof fn lemma_same_walk(
    b: Seq<u8>,
    front: Seq<u8>,
    at: int,
    left: nat,
    arch: Option<Seq<char>>,
    vals: Figures,
)
    requires
        begins(b, front),
        0 <= at,
        walk(front, at, left, arch, vals) is Some,
    ensures
        walk(b, at, left, arch, vals) == walk(front, at, left, arch, vals),
    decreases left,
{
    if left > 0 {
        lemma_same_string(b, front, at);
        let (key, p) = string_at(front, at)->0;
        lemma_same_number(b, front, p, 4);
        let t = number_at(front, p, 4) as u32;
        if starts(key, "tokenizer."@) && arch is Some && enough(arch, vals) {
        } else if key == "general.architecture"@ {
            lemma_same_string(b, front, p + 4);
            let (a, q) = string_at(front, p + 4)->0;
            lemma_same_walk(b, front, q, (left - 1) as nat, Some(a), vals);
        } else if worth_keeping(key) {
            lemma_same_value(b, front, p + 4, t);
            let (v, q) = integer_value(front, p + 4, t)->0;
            lemma_same_walk(
                b,
                front,
                q,
                (left - 1) as nat,
                arch,
                match v {
                    Some(n) => vals.push((key, n)),
                    None => vals,
                },
            );
        } else {
            lemma_same_value(b, front, p + 4, t);
            lemma_same_walk(b, front, past_value(front, p + 4, t).0, (left - 1) as nat, arch, vals);
        }
    }
}

/// Only running out of bytes is worth a retry: an answer of any other kind is
/// the same however much more of the file is read.
pub proof fn more_bytes_change_no_answer(b: Seq<u8>, front: Seq<u8>)
    requires
        begins(b, front),
        header_of(front) != Err::<ShapeFacts, Stop>(Stop::Truncated),
    ensures
        header_of(b) == header_of(front),
{
    assert(b.subrange(0, 4) =~= front.subrange(0, 4)) by {
        lemma_same_number(b, front, 0, 4);
    }
    if front.len() >= 24 {
        lemma_same_number(b, front, 16, 8);
        if front.subrange(0, 4) == seq![71u8, 71u8, 85u8, 70u8] {
            lemma_same_walk(b, front, 24, number_at(front, 16, 8), None, Seq::empty());
        }
    }
}

/// The width of a head is what is declared, where that is more than nothing,
/// and else how often the heads go into the embedding; without either, or where
/// that is nothing, there is none.
pub proof fn a_head_is_as_wide_as_declared_or_as_it_divides(
    declared: Option<u32>,
    embedding: Option<u32>,
    heads: u32,
)
    ensures
        declared is Some && declared->0 > 0 ==> head_width(declared, embedding, heads) == declared,
        !(declared is Some && declared->0 > 0) ==> (head_width(declared, embedding, heads) is Some
            <==> embedding is Some && 0 < heads <= embedding->0),
        !(declared is Some && declared->0 > 0) ==> (head_width(
            declared,
            embedding,
            heads,
        ) matches Some(d) ==> d * heads <= embedding->0 < (d + 1) * heads),
{
    if embedding is Some && heads > 0 {
        let e = embedding->0 as int;
        let h = heads as int;
        let d = e / h;
        assert(d * h <= e < (d + 1) * h) by (nonlinear_arith)
            requires
                h > 0,
                d == e / h,
        ;
        assert(d > 0 <==> h <= e) by (nonlinear_arith)
            requires
                h > 0,
                d * h <= e < (d + 1) * h,
        ;
    }
}

/// Whether a number is the first that was kept under a key of an architecture.
pub open spec fn says_of(vals: Figures, arch: Seq<char>, suffix: Seq<char>, n: u32) -> bool {
    exists|k: int|
        0 <= k < vals.len() && (#[trigger] vals[k]).0 == arch + "."@ + suffix && vals[k].1 == n
            && forall|j: int| 0 <= j < k ==> (#[trigger] vals[j]).0 != arch + "."@ + suffix
}

proof fn lemma_says_of(vals: Figures, arch: Seq<char>, suffix: Seq<char>)
    ensures
        forall|n: u32| #[trigger]
            says_of(vals, arch, suffix, n) <==> figure(vals, arch, suffix) == Some(n),
{
    let key = arch + "."@ + suffix;
    lemma_figure_under(vals, key);
    assert forall|n: u32| #[trigger] says_of(vals, arch, suffix, n) <==> figure(vals, arch, suffix)
        == Some(n) by {
        if says_of(vals, arch, suffix, n) {
            let k = choose|k: int|
                0 <= k < vals.len() && (#[trigger] vals[k]).0 == arch + "."@ + suffix && vals[k].1
                    == n && forall|j: int|
                    0 <= j < k ==> (#[trigger] vals[j]).0 != arch + "."@ + suffix;
            assert(first_keyed(vals, key, k));
        }
        if figure(vals, arch, suffix) == Some(n) {
            let k = choose|k: int| #[trigger] first_keyed(vals, key, k) && vals[k].1 == n;
        }
    }
}

spec fn first_keyed(vals: Figures, key: Seq<char>, k: int) -> bool {
    &&& 0 <= k < vals.len()
    &&& vals[k].0 == key
    &&& forall|j: int| 0 <= j < k ==> (#[trigger] vals[j]).0 != key
}

proof fn lemma_figure_under(vals: Figures, key: Seq<char>)
    ensures
        forall|k: int| #[trigger]
            first_keyed(vals, key, k) ==> figure_under(vals, key) == Some(vals[k].1),
        forall|n: u32|
            figure_under(vals, key) == Some(n) ==> exists|k: int| #[trigger]
                first_keyed(vals, key, k) && vals[k].1 == n,
{
    let q = |p: (Seq<char>, u32)| keyed(p, key);
    crate::seqs::lemma_first_index(vals, q);
    let f = crate::seqs::first_index(vals, q);
    assert forall|j: int| 0 <= j < f implies (#[trigger] vals[j]).0 != key by {
        assert(!q(vals[j]));
    }
    if f < vals.len() {
        assert(q(vals[f]));
        assert(first_keyed(vals, key, f));
    }
    assert forall|k: int| #[trigger] first_keyed(vals, key, k) implies k == f by {
        assert(q(vals[k]));
        assert(vals.any(q));
        if f < k {
            assert(vals[f].0 != key);
        }
    }
}

/// A header gives a shape exactly when it names an architecture and that one's
/// layers, heads and a width of a head; and then with its own figures: the
/// layers, the kv heads or, where none are said, the heads, the width that is
/// declared or that divides, and the window it was trained at.
pub proof fn a_header_gives_its_own_figures(arch: Seq<char>, vals: Figures, layers: u32, heads: u32)
    ensures
        facts_of(None, vals) is None,
        facts_of(Some(arch), vals) is Some ==> (exists|n: u32| says_of(vals, arch, "block_count"@, n))
            && (exists|n: u32| says_of(vals, arch, "attention.head_count"@, n)),
        says_of(vals, arch, "block_count"@, layers) && says_of(
            vals,
            arch,
            "attention.head_count"@,
            heads,
        ) ==> {
            let width = head_width(
                figure(vals, arch, "attention.key_length"@),
                figure(vals, arch, "embedding_length"@),
                heads,
            );
            &&& facts_of(Some(arch), vals) is Some <==> width is Some
            &&& facts_of(Some(arch), vals) matches Some(f) ==> {
                &&& f.arch == arch
                &&& f.n_layers == layers
                &&& f.head_dim == width->0
                &&& forall|n: u32| #[trigger]
                    says_of(vals, arch, "attention.head_count_kv"@, n) ==> f.n_kv_heads == n
                &&& (forall|n: u32| !#[trigger] says_of(vals, arch, "attention.head_count_kv"@, n))
                    ==> f.n_kv_heads == heads
                &&& forall|n: u32| #[trigger]
                    says_of(vals, arch, "context_length"@, n) <==> f.trained_context == Some(n)
            }
        },
        forall|n: u32| #[trigger]
            says_of(vals, arch, "attention.key_length"@, n) <==> figure(
                vals,
                arch,
                "attention.key_length"@,
            ) == Some(n),
        forall|n: u32| #[trigger]
            says_of(vals, arch, "embedding_length"@, n) <==> figure(
                vals,
                arch,
                "embedding_length"@,
            ) == Some(n),
{
    lemma_says_of(vals, arch, "block_count"@);
    lemma_says_of(vals, arch, "attention.head_count"@);
    lemma_says_of(vals, arch, "attention.head_count_kv"@);
    lemma_says_of(vals, arch, "attention.key_length"@);
    lemma_says_of(vals, arch, "embedding_length"@);
    lemma_says_of(vals, arch, "context_length"@);
    if facts_of(Some(arch), vals) is Some {
        assert(says_of(vals, arch, "block_count"@, figure(vals, arch, "block_count"@)->0));
        assert(says_of(
            vals,
            arch,
            "attention.head_count"@,
            figure(vals, arch, "attention.head_count"@)->0,
        ));
    }
    if let Some(n) = figure(vals, arch, "attention.head_count_kv"@) {
        assert(says_of(vals, arch, "attention.head_count_kv"@, n));
    }
}

/// A config gives a shape exactly when it says its layers and heads, a width of
/// a head can be had and there are weights beside it; and then with its own
/// figures, the heads standing for kv heads it does not say.
pub proof fn a_config_gives_its_own_figures(c: MlxConfig, weights_bytes: u64)
    ensures
        mlx_facts(c, weights_bytes) is Some <==> {
            &&& c.num_hidden_layers is Some
            &&& c.num_attention_heads is Some
            &&& head_width(c.head_dim, c.hidden_size, c.num_attention_heads->0) is Some
            &&& weights_bytes > 0
        },
        mlx_facts(c, weights_bytes) matches Some(f) ==> {
            &&& Some(f.n_layers) == c.num_hidden_layers
            &&& c.num_key_value_heads is Some ==> Some(f.n_kv_heads) == c.num_key_value_heads
            &&& c.num_key_value_heads is None ==> Some(f.n_kv_heads) == c.num_attention_heads
            &&& Some(f.head_dim) == head_width(c.head_dim, c.hidden_size, c.num_attention_heads->0)
            &&& f.trained_context == c.max_position_embeddings
            &&& c.model_type is Some ==> f.arch == c.model_type->0@
        },
{
}

/// A shape that is what a header or a config tells is so in every figure.
pub proof fn a_shape_is_what_was_told(s: ModelShape, f: ShapeFacts, weights_bytes: u64)
    requires
        has_shape(s, f, weights_bytes),
    ensures
        s.arch@ == f.arch && s.n_layers == f.n_layers && s.n_kv_heads == f.n_kv_heads && s.head_dim
            == f.head_dim && s.weights_bytes == weights_bytes && s.trained_context
            == f.trained_context,
{
}

/// A supplied shape has every figure exactly when all of them are more than
/// nothing.
pub proof fn a_partial_geometry_is_no_geometry(s: SuppliedShape)
    ensures
        missing_figures(s).len() == 0 <==> {
            &&& s.n_layers is Some && s.n_layers->0 > 0
            &&& s.n_kv_heads is Some && s.n_kv_heads->0 > 0
            &&& s.head_dim is Some && s.head_dim->0 > 0
            &&& s.weights_bytes is Some && s.weights_bytes->0 > 0
        },
        !(s.n_layers is Some && s.n_layers->0 > 0) ==> missing_figures(s).contains("n_layers"@),
        !(s.n_kv_heads is Some && s.n_kv_heads->0 > 0) ==> missing_figures(s).contains(
            "n_kv_heads"@,
        ),
        !(s.head_dim is Some && s.head_dim->0 > 0) ==> missing_figures(s).contains("head_dim"@),
        !(s.weights_bytes is Some && s.weights_bytes->0 > 0) ==> missing_figures(s).contains(
            "weights_bytes"@,
        ),
{
    let m = missing_figures(s);
    let a: int = if given(s.n_layers) {
        0
    } else {
        1
    };
    let b: int = if given(s.n_kv_heads) {
        a
    } else {
        a + 1
    };
    let c: int = if given(s.head_dim) {
        b
    } else {
        b + 1
    };
    if !given(s.n_layers) {
        assert(m[0] == "n_layers"@);
    }
    if !given(s.n_kv_heads) {
        assert(m[a] == "n_kv_heads"@);
    }
    if !given(s.head_dim) {
        assert(m[b] == "head_dim"@);
    }
    if !(s.weights_bytes is Some && s.weights_bytes->0 > 0) {
        assert(m[c] == "weights_bytes"@);
    }
}

/// One more entry of a directory adds its size exactly when it is a weight file
/// whose size could be read.
pub proof fn a_shard_adds_its_size(entries: Seq<(String, Option<u64>)>, e: (String, Option<u64>))
    ensures
        total(
            entries.push(e),
            |e: (String, Option<u64>)| shard_bytes(e),
        ) == total(entries, |e: (String, Option<u64>)| shard_bytes(e)) + (if e.1 is Some && (
        extension(e.0@) matches Some(x) && lowered(x) == "safetensors"@) {
            e.1->0 as nat
        } else {
            0
        }),
{
    assert(entries.push(e).drop_last() =~= entries);
}

} // verus!
