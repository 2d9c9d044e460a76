//! Rounding the way a double does it, in integers.
//!
//! Sizes and spans are shown with one decimal, and the digit shown is the one
//! that dividing in double precision gives. These functions carry out the same
//! roundings exactly: to the nearest value with 53 significant bits, and then
//! to the nearest tenth or unit, ties to even both times.
use vstd::prelude::*;

use crate::text::{cat3, decimal, number};

verus! {

/// `n / d` rounded to the nearest integer, ties to even.
pub open spec fn half_even(n: nat, d: nat) -> nat
    recommends
        d > 0,
{
    let q = n / d;
    let r = n % d;
    if 2 * r < d || (2 * r == d && q % 2 == 0) {
        q
    } else {
        q + 1
    }
}

fn round_half_even(n: u128, d: u128) -> (r: u128)
    requires
        0 < d,
        n < 0x4000_0000_0000_0000_0000_0000_0000_0000,
        d <= 0x2000_0000_0000_0000_0000_0000_0000_0000,
    ensures
        r == half_even(n as nat, d as nat),
{
    let q: u128 = n / d;
    let r: u128 = n % d;
    proof {
        assert(q <= n) by (nonlinear_arith)
            requires
                q == n / d,
                d > 0,
        ;
    }
    if 2 * r < d || (2 * r == d && q % 2 == 0) {
        q
    } else {
        q + 1
    }
}

/// Two to the power `e`.
pub open spec fn two_to(e: nat) -> nat
    decreases e,
{
    if e == 0 {
        1
    } else {
        2 * two_to((e - 1) as nat)
    }
}

/// How many times `n` doubles before it reaches `floor`.
pub open spec fn doublings(n: nat, floor: nat) -> nat
    decreases
            (if floor > n {
                floor - n
            } else {
                0
            }),
{
    if n == 0 || n >= floor {
        0
    } else {
        1 + doublings(2 * n, floor)
    }
}

/// The least power of two that brings `n` under 2^53 when divided by it.
pub open spec fn excess(n: nat, by: nat) -> nat
    decreases n / by,
{
    if by == 0 || n / by < 0x20_0000_0000_0000 {
        by
    } else {
        proof {
            assert(n / (2 * by) < n / by) by (nonlinear_arith)
                requires
                    n / by >= 0x20_0000_0000_0000,
                    by > 0,
            ;
        }
        excess(n, 2 * by)
    }
}

/// The double nearest to the integer `n`.
pub open spec fn as_double(n: nat) -> nat {
    let by = excess(n, 1);
    half_even(n, by) * by
}

pub(crate) fn to_double(n: u64) -> (r: u128)
    ensures
        r == as_double(n as nat),
        r <= 0x1_0000_0000_0000_0000,
{
    let mut by: u128 = 1;
    let wide: u128 = n as u128;
    while wide / by >= 0x20_0000_0000_0000
        invariant
            wide == n,
            by == 1 || by == 2 || by == 4 || by == 8 || by == 16 || by == 32 || by == 64 || by
                == 128 || by == 256 || by == 512 || by == 1024 || by == 2048,
            excess(n as nat, 1) == excess(n as nat, by as nat),
        decreases 4096 - by,
    {
        proof {
            assert(by < 2048) by (nonlinear_arith)
                requires
                    wide / by >= 0x20_0000_0000_0000,
                    wide <= 0xffff_ffff_ffff_ffff,
                    by >= 1,
            ;
        }
        by = by * 2;
    }
    let q = round_half_even(wide, by);
    proof {
        assert(q <= 0x20_0000_0000_0000);
        assert(q * by <= 0x1_0000_0000_0000_0000) by (nonlinear_arith)
            requires
                q <= 0x20_0000_0000_0000,
                by <= 2048,
        ;
    }
    q * by
}

/// The double nearest to `n / d` is `fraction(n, d) / two_to(places(n, d))`, for
/// a quotient under 2^53: the numerator is doubled until 53 bits are in front
/// of the point.
pub open spec fn places(n: nat, d: nat) -> nat {
    doublings(n, 0x10_0000_0000_0000 * d)
}

pub open spec fn fraction(n: nat, d: nat) -> nat {
    half_even(n * two_to(places(n, d)), d)
}

pub(crate) proof fn lemma_double_once(n: nat, d: nat, e: nat)
    ensures
        n * two_to(e + 1) == 2 * (n * two_to(e)),
{
    assert(n * (2 * two_to(e)) == 2 * (n * two_to(e))) by (nonlinear_arith);
}

/// The double nearest to `n / d`, as a numerator and the power of two under it.
fn to_double_quotient(n: u128, d: u128) -> (r: (u128, u128))
    requires
        0 < n <= 0x1_0000_0000_0000_0000,
        0 < d <= 0x1_0000_0000_0000_0000,
        n < 0x20_0000_0000_0000 * d,
    ensures
        r.0 == fraction(n as nat, d as nat),
        r.1 == two_to(places(n as nat, d as nat)),
        r.0 <= 0x20_0000_0000_0000,
        0 < r.1 <= 0x20_0000_0000_0000_0000_0000_0000_0000,
{
    let floor: u128 = 0x10_0000_0000_0000 * d;
    let mut num: u128 = n;
    let mut under: u128 = 1;
    let ghost mut e: nat = 0;
    proof {
        assert(n * two_to(0) == n) by (nonlinear_arith)
            requires
                two_to(0) == 1,
        ;
    }
    while num < floor
        invariant
            0 < n,
            0 < d <= 0x1_0000_0000_0000_0000,
            floor == 0x10_0000_0000_0000 * d,
            num == n * two_to(e),
            under == two_to(e),
            0 < under <= num < 2 * floor,
            places(n as nat, d as nat) == e + doublings(num as nat, floor as nat),
        decreases 2 * floor - num,
    {
        proof {
            lemma_double_once(n as nat, d as nat, e);
            e = e + 1;
        }
        num = num * 2;
        under = under * 2;
    }
    let q = round_half_even(num, d);
    proof {
        assert(num / d <= 0x1f_ffff_ffff_ffff) by (nonlinear_arith)
            requires
                num < 0x20_0000_0000_0000 * d,
                d > 0,
        ;
    }
    (q, under)
}

/// `tenths` written with one decimal.
pub open spec fn one_decimal(tenths: nat) -> Seq<char> {
    decimal(tenths / 10) + "."@ + decimal(tenths % 10)
}

fn show_tenths(tenths: u64) -> (r: String)
    ensures
        r@ == one_decimal(tenths as nat),
{
    cat3(number(tenths / 10).as_str(), ".", number(tenths % 10).as_str())
}

/// `n / d` with one decimal, divided in double precision; `d` is a power of two.
pub open spec fn binary_tenths(n: nat, d: nat) -> Seq<char> {
    one_decimal(half_even(10 * as_double(n), d))
}

pub fn show_binary_tenths(n: u64, d: u64) -> (r: String)
    requires
        1024 <= d <= 0x100_0000_0000,
    ensures
        r@ == binary_tenths(n as nat, d as nat),
{
    let v = to_double(n);
    let t = round_half_even(10 * v, d as u128);
    proof {
        assert((10 * v) / (d as int) <= 0xffff_ffff_ffff_ffff - 1) by (nonlinear_arith)
            requires
                v <= 0x1_0000_0000_0000_0000,
                d >= 1024,
        ;
    }
    show_tenths(t as u64)
}

/// `n / d` with one decimal, divided in double precision.
pub open spec fn quotient_tenths(n: nat, d: nat) -> Seq<char> {
    let v = as_double(n);
    one_decimal(half_even(10 * fraction(v, d), two_to(places(v, d))))
}

pub fn show_quotient_tenths(n: u64, d: u64) -> (r: String)
    requires
        0 < n,
        2048 < d,
    ensures
        r@ == quotient_tenths(n as nat, d as nat),
{
    let v = to_double(n);
    proof {
        lemma_double_near(n as nat);
    }
    let (m, under) = to_double_quotient(v, d as u128);
    let t = round_half_even(10 * m, under);
    proof {
        assert((10 * m) / (under as int) <= 10 * m) by (nonlinear_arith)
            requires
                under >= 1,
        ;
    }
    show_tenths(t as u64)
}

/// A double is within a factor of two of the integer it stands for.
proof fn lemma_double_near(n: nat)
    ensures
        n <= 2 * as_double(n),
        as_double(n) <= 2 * n,
{
    lemma_excess(n, 1);
    let by = excess(n, 1);
    if by == 1 {
        assert(n / 1 == n);
        assert(n % 1 == 0);
        assert(half_even(n, 1) == n);
        assert(n * 1 == n);
    } else {
        let q = n / by;
        let h = half_even(n, by);
        assert(q >= 1 && (h == q || h == q + 1));
        assert(h * by <= 2 * n && n <= 2 * (h * by)) by (nonlinear_arith)
            requires
                q == n / by,
                q >= 1,
                h == q || h == q + 1,
                by >= 1,
        ;
    }
}

pub(crate) proof fn lemma_excess(n: nat, by: nat)
    requires
        by >= 1,
    ensures
        excess(n, by) >= by,
        excess(n, by) == by || n / excess(n, by) >= 0x10_0000_0000_0000,
    decreases n / by,
{
    if n / by >= 0x20_0000_0000_0000 {
        assert(n / (2 * by) < n / by && n / (2 * by) >= 0x10_0000_0000_0000) by (nonlinear_arith)
            requires
                n / by >= 0x20_0000_0000_0000,
                by > 0,
        ;
        lemma_excess(n, 2 * by);
    }
}

/// `100 * part / whole` to the nearest unit, the two divisions and the product
/// carried out in double precision.
pub open spec fn whole_percent(part: nat, whole: nat) -> nat {
    let p = as_double(part);
    let w = as_double(whole);
    if p == 0 || w == 0 {
        0
    } else {
        half_even(as_double(100 * fraction(p, w)), two_to(places(p, w)))
    }
}

/// The share that `part` is of `whole`, in per cent.
pub fn percent(part: u64, whole: u64) -> (r: u64)
    requires
        part <= whole,
    ensures
        r == whole_percent(part as nat, whole as nat),
{
    if part == 0 {
        proof {
            lemma_double_near(0);
        }
        return 0;
    }
    let p = to_double(part);
    let w = to_double(whole);
    proof {
        lemma_double_near(part as nat);
        lemma_double_near(whole as nat);
    }
    let (m, under) = to_double_quotient(p, w);
    let h: u64 = (100 * m) as u64;
    let v = to_double(h);
    let t = round_half_even(v, under);
    proof {
        lemma_double_near(h as nat);
        assert(v / under <= v) by (nonlinear_arith)
            requires
                under >= 1,
        ;
    }
    t as u64
}

/// The significand of a double, by its bits: 53 bits once the implied one is added.
pub open spec fn significand(bits: u64) -> nat {
    let exponent = (bits / 0x10_0000_0000_0000) % 2048;
    let fraction = bits % 0x10_0000_0000_0000;
    if exponent == 0 {
        fraction as nat
    } else {
        (fraction + 0x10_0000_0000_0000) as nat
    }
}

/// The power of two a double's significand is scaled by.
pub open spec fn scale_of(bits: u64) -> int {
    let exponent = (bits / 0x10_0000_0000_0000) % 2048;
    if exponent == 0 {
        -1074
    } else {
        exponent - 1075
    }
}

/// Whether a double is above zero.
pub open spec fn positive(bits: u64) -> bool {
    0 < bits <= 0x7ff0_0000_0000_0000
}

/// A double number of gibibytes in whole bytes: what lies behind the point is
/// dropped, what is below zero or no number is nothing, and what is too much
/// is the most there is.
pub open spec fn gibibytes(bits: u64) -> u64 {
    if !positive(bits) {
        0
    } else if bits == 0x7ff0_0000_0000_0000 {
        u64::MAX
    } else {
        let shift = scale_of(bits) + 30;
        if shift >= 0 {
            crate::seqs::capped(significand(bits) * two_to(shift as nat))
        } else {
            (significand(bits) / two_to((-shift) as nat)) as u64
        }
    }
}

pub(crate) proof fn lemma_two_to_grows(a: nat, b: nat)
    requires
        a <= b,
    ensures
        0 < two_to(a) <= two_to(b),
    decreases b,
{
    if a < b {
        lemma_two_to_grows(a, (b - 1) as nat);
    } else if a > 0 {
        lemma_two_to_grows((a - 1) as nat, (b - 1) as nat);
    }
}

/// A double number of gibibytes in whole bytes.
pub fn gibibytes_to_bytes(bits: u64) -> (r: u64)
    ensures
        r == gibibytes(bits),
{
    if bits == 0 || bits > 0x7ff0_0000_0000_0000 {
        return 0;
    }
    if bits == 0x7ff0_0000_0000_0000 {
        return 0xffff_ffff_ffff_ffff;
    }
    let exponent: u64 = (bits / 0x10_0000_0000_0000) % 2048;
    let fraction: u64 = bits % 0x10_0000_0000_0000;
    let m: u64 = if exponent == 0 {
        fraction
    } else {
        fraction + 0x10_0000_0000_0000
    };
    if exponent >= 1045 {
        let up: u64 = exponent - 1045;
        let mut i: u64 = 0;
        let mut v: u128 = m as u128;
        let ghost whole = significand(bits) * two_to(up as nat);
        proof {
            assert(m * two_to(0) == m) by (nonlinear_arith)
                requires
                    two_to(0) == 1,
            ;
        }
        while i < up
            invariant
                i <= up,
                v == m * two_to(i as nat),
                v <= 0xffff_ffff_ffff_ffff,
                m >= 1,
                whole == m * two_to(up as nat),
                gibibytes(bits) == crate::seqs::capped(whole),
            decreases up - i,
        {
            proof {
                assert(m * (2 * two_to(i as nat)) == 2 * (m * two_to(i as nat)))
                    by (nonlinear_arith);
            }
            v = v * 2;
            i += 1;
            if v > 0xffff_ffff_ffff_ffff {
                proof {
                    lemma_two_to_grows(i as nat, up as nat);
                    assert(m * two_to(i as nat) <= m * two_to(up as nat)) by (nonlinear_arith)
                        requires
                            two_to(i as nat) <= two_to(up as nat),
                    ;
                    assert(crate::seqs::capped(whole) == u64::MAX);
                }
                return 0xffff_ffff_ffff_ffff;
            }
        }
        v as u64
    } else {
        let down: u64 = if exponent == 0 {
            1044
        } else {
            1045 - exponent
        };
        let mut i: u64 = 0;
        let mut v: u64 = m;
        proof {
            assert(two_to(0) == 1);
            assert(m as nat / 1 == m);
        }
        while i < down
            invariant
                i <= down,
                v == m as nat / two_to(i as nat),
                two_to(i as nat) > 0,
            decreases down - i,
        {
            proof {
                let d = two_to(i as nat);
                lemma_two_to_grows(0, i as nat + 1);
                assert(two_to((i + 1) as nat) == 2 * d);
                assert((m as nat / d) / 2 == m as nat / (2 * d)) by (nonlinear_arith)
                    requires
                        d > 0,
                ;
            }
            v = v / 2;
            i += 1;
        }
        v
    }
}

} // verus!
