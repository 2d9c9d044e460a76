//! A decimal fraction times a power of two, in whole units.
//!
//! What is computed is what double precision gives: the fraction is rounded to
//! 53 significant bits, ties to even, scaled, and what lies behind the point is
//! dropped. The digits may be as many as they like.
use vstd::prelude::*;

use crate::rounding::{
    doublings, excess, fraction, half_even, lemma_double_once, lemma_excess, lemma_two_to_grows,
    places, two_to,
};
use crate::seqs::capped;

verus! {

/// Ten to the power `n`.
pub open spec fn ten_to(n: nat) -> nat
    decreases n,
{
    if n == 0 {
        1
    } else {
        10 * ten_to((n - 1) as nat)
    }
}

/// The double nearest to `n / d`, times two to the power `k`, without what lies
/// behind the point; the most there is, where that is too much.
pub open spec fn scaled(n: nat, d: nat, k: nat) -> u64 {
    if n == 0 {
        0
    } else if n < 0x20_0000_0000_0000 * d {
        let e = places(n, d);
        if k >= e {
            capped(fraction(n, d) * two_to((k - e) as nat))
        } else {
            capped(fraction(n, d) / two_to((e - k) as nat))
        }
    } else {
        let by = excess(n / d, 1);
        capped(half_even(n, d * by) * by * two_to(k))
    }
}

/// The number some decimal digits write.
pub open spec fn digits_value(s: Seq<u8>) -> nat
    decreases s.len(),
{
    if s.len() == 0 {
        0
    } else {
        digits_value(s.drop_last()) * 10 + s.last() as nat
    }
}

pub open spec fn are_digits(s: Seq<u8>) -> bool {
    forall|i: int| 0 <= i < s.len() ==> (#[trigger] s[i]) < 10
}

/// The first digit stands for the highest power.
proof fn lemma_front(s: Seq<u8>)
    requires
        s.len() > 0,
    ensures
        digits_value(s) == s[0] * ten_to((s.len() - 1) as nat) + digits_value(s.drop_first()),
    decreases s.len(),
{
    if s.len() == 1 {
        assert(s.drop_first() =~= Seq::empty());
        assert(s.drop_last() =~= Seq::empty());
        assert(s[0] * ten_to(0) == s[0]) by (nonlinear_arith)
            requires
                ten_to(0) == 1,
        ;
    } else {
        let t = s.drop_last();
        lemma_front(t);
        assert(t.drop_first() =~= s.drop_first().drop_last());
        assert(t[0] == s[0]);
        let p = ten_to((s.len() - 2) as nat);
        let x = digits_value(t.drop_first());
        let a = s[0] as nat;
        assert(ten_to((s.len() - 1) as nat) == 10 * p);
        assert((a * p + x) * 10 == a * (10 * p) + x * 10) by (nonlinear_arith);
    }
}

/// Digits write less than the power of ten they would take one more for.
proof fn lemma_below(s: Seq<u8>)
    requires
        are_digits(s),
    ensures
        digits_value(s) < ten_to(s.len()),
    decreases s.len(),
{
    if s.len() > 0 {
        let t = s.drop_last();
        assert(are_digits(t)) by {
            assert forall|i: int| 0 <= i < t.len() implies (#[trigger] t[i]) < 10 by {
                assert(t[i] == s[i]);
            }
        }
        lemma_below(t);
        assert(s[s.len() - 1] < 10);
    }
}

/// Digits write nothing exactly when each of them is nothing.
proof fn lemma_nothing(s: Seq<u8>)
    ensures
        digits_value(s) == 0 <==> forall|i: int| 0 <= i < s.len() ==> (#[trigger] s[i]) == 0,
    decreases s.len(),
{
    if s.len() > 0 {
        let t = s.drop_last();
        lemma_nothing(t);
        if digits_value(s) == 0 {
            assert forall|i: int| 0 <= i < s.len() implies (#[trigger] s[i]) == 0 by {
                if i < t.len() {
                    assert(t[i] == s[i]);
                }
            }
        } else if forall|i: int| 0 <= i < s.len() ==> (#[trigger] s[i]) == 0 {
            assert(s[s.len() - 1] == 0);
            assert forall|i: int| 0 <= i < t.len() implies (#[trigger] t[i]) == 0 by {
                assert(t[i] == s[i]);
            }
        }
    }
}

/// Digits behind digits.
proof fn lemma_behind(a: Seq<u8>, b: Seq<u8>)
    ensures
        digits_value(a + b) == digits_value(a) * ten_to(b.len()) + digits_value(b),
    decreases b.len(),
{
    if b.len() == 0 {
        assert(a + b =~= a);
        assert(digits_value(a) * 1 == digits_value(a));
    } else {
        let c = b.drop_last();
        lemma_behind(a, c);
        assert((a + b).drop_last() =~= a + c);
        let x = digits_value(a);
        let p = ten_to(c.len());
        let y = digits_value(c);
        assert((x * p + y) * 10 == x * (10 * p) + y * 10) by (nonlinear_arith);
    }
}

/// Doubles what some digits write, in place; what does not fit in front of
/// them is returned.
fn double_digits(v: &mut Vec<u8>) -> (carry: u8)
    requires
        are_digits(old(v)@),
    ensures
        carry <= 1,
        are_digits(final(v)@),
        final(v)@.len() == old(v)@.len(),
        carry * ten_to(old(v)@.len()) + digits_value(final(v)@) == 2 * digits_value(old(v)@),
{
    let ghost was = v@;
    let ghost n = v@.len();
    let mut i: usize = v.len();
    let mut carry: u8 = 0;
    proof {
        assert(was.skip(n as int) =~= Seq::empty());
        assert(v@.skip(n as int) =~= Seq::empty());
        assert(0 * ten_to(0) == 0);
    }
    while i > 0
        invariant
            i <= n,
            v@.len() == n,
            was.len() == n,
            was == old(v)@,
            are_digits(was),
            carry <= 1,
            forall|j: int| 0 <= j < i ==> (#[trigger] v@[j]) == was[j],
            forall|j: int| i <= j < n ==> (#[trigger] v@[j]) < 10,
            carry * ten_to((n - i) as nat) + digits_value(v@.skip(i as int)) == 2 * digits_value(
                was.skip(i as int),
            ),
        decreases i,
    {
        i -= 1;
        let ghost before = v@;
        let x: u8 = v[i];
        proof {
            assert(before[i as int] == was[i as int]);
        }
        let t: u8 = 2 * x + carry;
        let ghost c0 = carry as nat;
        v.set(i, t % 10);
        carry = t / 10;
        proof {
            let p = ten_to((n - i - 1) as nat);
            let old_tail = was.skip(i as int);
            let new_tail = v@.skip(i as int);
            lemma_front(old_tail);
            lemma_front(new_tail);
            assert(old_tail.drop_first() =~= was.skip(i + 1));
            assert(new_tail.drop_first() =~= before.skip(i + 1));
            assert(old_tail[0] == x && new_tail[0] == t % 10);
            assert(ten_to((n - i) as nat) == 10 * p);
            let a = digits_value(before.skip(i + 1));
            let b = digits_value(was.skip(i + 1));
            let c1 = carry as nat;
            let y = (t % 10) as nat;
            assert(c1 * (10 * p) + (y * p + a) == 2 * (x * p + b)) by (nonlinear_arith)
                requires
                    c0 * p + a == 2 * b,
                    10 * c1 + y == 2 * x + c0,
            ;
        }
    }
    proof {
        assert(v@.skip(0) =~= v@);
        assert(was.skip(0) =~= was);
    }
    carry
}

/// Whether every digit is nothing.
fn all_zero(v: &Vec<u8>) -> (r: bool)
    ensures
        r == (digits_value(v@) == 0),
{
    proof {
        lemma_nothing(v@);
    }
    let mut i: usize = 0;
    while i < v.len()
        invariant
            i <= v@.len(),
            forall|j: int| 0 <= j < i ==> (#[trigger] v@[j]) == 0,
            digits_value(v@) == 0 <==> forall|j: int|
                0 <= j < v@.len() ==> (#[trigger] v@[j]) == 0,
        decreases v.len() - i,
    {
        if v[i] != 0 {
            return false;
        }
        i += 1;
    }
    true
}

fn power(n: u64) -> (r: u128)
    requires
        n <= 100,
    ensures
        r == two_to(n as nat),
        0 < r <= 0x10_0000_0000_0000_0000_0000_0000,
{
    let mut r: u128 = 1;
    let mut i: u64 = 0;
    proof {
        lemma_hundred();
    }
    while i < n
        invariant
            i <= n <= 100,
            r == two_to(i as nat),
            two_to(100) == 0x10_0000_0000_0000_0000_0000_0000,
        decreases n - i,
    {
        proof {
            lemma_two_to_grows(i as nat, 100);
        }
        r = r * 2;
        i += 1;
    }
    proof {
        lemma_two_to_grows(n as nat, 100);
    }
    r
}

proof fn lemma_hundred()
    ensures
        two_to(100) == 0x10_0000_0000_0000_0000_0000_0000,
        two_to(61) == 0x2000_0000_0000_0000,
        two_to(11) == 2048,
        two_to(40) == 0x100_0000_0000,
{
    reveal_with_fuel(two_to, 12);
    assert(two_to(11) == 2048);
    assert(two_to(22) == 0x40_0000);
    assert(two_to(33) == 0x2_0000_0000);
    assert(two_to(40) == 0x100_0000_0000);
    assert(two_to(44) == 0x1000_0000_0000);
    assert(two_to(55) == 0x80_0000_0000_0000);
    assert(two_to(61) == 0x2000_0000_0000_0000);
    assert(two_to(66) == 0x4_0000_0000_0000_0000);
    assert(two_to(77) == 0x2000_0000_0000_0000_0000);
    assert(two_to(88) == 0x100_0000_0000_0000_0000_0000);
    assert(two_to(99) == 0x8_0000_0000_0000_0000_0000_0000);
    assert(two_to(100) == 0x10_0000_0000_0000_0000_0000_0000);
}

/// The power of two that brings a number under 2^53.
proof fn lemma_excess_power(n: nat, j: nat) -> (k: nat)
    ensures
        k >= j,
        excess(n, two_to(j)) == two_to(k),
        n / two_to(k) < 0x20_0000_0000_0000,
    decreases n / two_to(j),
{
    lemma_two_to_grows(j, j);
    let by = two_to(j);
    if n / by < 0x20_0000_0000_0000 {
        j
    } else {
        assert(n / (2 * by) < n / by) by (nonlinear_arith)
            requires
                n / by >= 0x20_0000_0000_0000,
                by > 0,
        ;
        assert(two_to(j + 1) == 2 * by);
        lemma_excess_power(n, j + 1)
    }
}

/// Doubling stops between the floor and its double.
proof fn lemma_settles(n: nat, floor: nat)
    requires
        0 < n < 2 * floor,
    ensures
        floor <= n * two_to(doublings(n, floor)) < 2 * floor,
    decreases
            (if floor > n {
                floor - n
            } else {
                0
            }),
{
    if n >= floor {
        assert(n * 1 == n);
    } else {
        lemma_settles(2 * n, floor);
        let e = doublings(2 * n, floor);
        let p = two_to(e);
        assert(two_to(1 + e) == 2 * p);
        assert((2 * n) * p == n * (2 * p)) by (nonlinear_arith);
    }
}

/// The quotient and the remainder of `q * d + r`.
proof fn lemma_parts(q: nat, d: nat, r: nat)
    requires
        r < d,
    ensures
        (q * d + r) / d == q,
        (q * d + r) % d == r,
{
    vstd::arithmetic::div_mod::lemma_fundamental_div_mod_converse(
        (q * d + r) as int,
        d as int,
        q as int,
        r as int,
    );
}

/// From 2^64 on there is nothing but the most there is.
proof fn lemma_too_much(a: nat, d: nat, v: nat, k: nat)
    requires
        a >= 0x1_0000_0000_0000_0000,
        v < d,
    ensures
        scaled(a * d + v, d, k) == u64::MAX,
{
    let n = a * d + v;
    lemma_parts(a, d, v);
    assert(n >= 0x20_0000_0000_0000 * d && n > 0) by (nonlinear_arith)
        requires
            a >= 0x1_0000_0000_0000_0000,
            n == a * d + v,
            d > 0,
    ;
    let j = lemma_excess_power(a, 0);
    let by = excess(a, 1);
    assert(two_to(0) == 1);
    lemma_excess(a, 1);
    assert(a / 1 == a);
    lemma_hundred();
    if j <= 11 {
        lemma_two_to_grows(j, 11);
        assert(a / by >= 0x20_0000_0000_0000) by (nonlinear_arith)
            requires
                a >= 0x1_0000_0000_0000_0000,
                0 < by <= 2048,
        ;
    }
    lemma_two_to_grows(12, j);
    assert(two_to(12) == 2 * two_to(11));
    assert(by >= 4096);
    let q = a / by;
    assert(q >= 0x10_0000_0000_0000);
    let r = a % by;
    assert(d * by > 0 && n == q * (d * by) + (r * d + v) && r * d + v < d * by) by (nonlinear_arith)
        requires
            n == a * d + v,
            q == a / by,
            r == a % by,
            by > 0,
            v < d,
    ;
    lemma_parts(q, d * by, r * d + v);
    let h = half_even(n, d * by);
    lemma_two_to_grows(0, k);
    let p = two_to(k);
    assert(h * by * p >= 0x1_0000_0000_0000_0000) by (nonlinear_arith)
        requires
            h >= 0x10_0000_0000_0000,
            by >= 4096,
            p >= 1,
    ;
}

/// Rounding to a multiple of an even `by`, where a part smaller than one is
/// left over.
proof fn lemma_round_up(a: nat, d: nat, v: nat, by: nat)
    requires
        v < d,
        by >= 2,
        by % 2 == 0,
    ensures
        half_even(a * d + v, d * by) == if 2 * (a % by) > by || (2 * (a % by) == by && (v > 0 || (a
            / by) % 2 == 1)) {
            a / by + 1
        } else {
            a / by
        },
{
    let n = a * d + v;
    let q = a / by;
    let r = a % by;
    let rest = r * d + v;
    assert(d * by > 0 && n == q * (d * by) + rest && rest < d * by) by (nonlinear_arith)
        requires
            n == a * d + v,
            rest == r * d + v,
            q == a / by,
            r == a % by,
            by > 0,
            v < d,
    ;
    lemma_parts(q, d * by, rest);
    let h = by / 2;
    assert(by == 2 * h);
    if r < h {
        assert(2 * rest < d * by) by (nonlinear_arith)
            requires
                rest == r * d + v,
                v < d,
                r + 1 <= h,
                by == 2 * h,
        ;
    } else if r > h {
        assert(2 * rest > d * by) by (nonlinear_arith)
            requires
                rest == r * d + v,
                v < d,
                r >= h + 1,
                by == 2 * h,
        ;
    } else {
        assert(2 * rest == d * by + 2 * v) by (nonlinear_arith)
            requires
                rest == r * d + v,
                r == h,
                by == 2 * h,
        ;
    }
}

/// A number of 2^53 and more with a part behind it, rounded and scaled.
fn scale_large(a: u128, Ghost(d): Ghost<nat>, Ghost(v): Ghost<nat>, left_over: bool, k: u64) -> (r:
    u64)
    requires
        0x20_0000_0000_0000 <= a < 0x1_0000_0000_0000_0000,
        v < d,
        left_over == (v > 0),
        k <= 40,
    ensures
        r == scaled(a as nat * d + v, d, k as nat),
{
    let mut by: u128 = 1;
    while a / by >= 0x20_0000_0000_0000
        invariant
            0x20_0000_0000_0000 <= a < 0x1_0000_0000_0000_0000,
            by == 1 || by == 2 || by == 4 || by == 8 || by == 16 || by == 32 || by == 64 || by
                == 128 || by == 256 || by == 512 || by == 1024 || by == 2048,
            excess(a as nat, 1) == excess(a as nat, by as nat),
        decreases 4096 - by,
    {
        proof {
            assert(by < 2048) by (nonlinear_arith)
                requires
                    a / by >= 0x20_0000_0000_0000,
                    a <= 0xffff_ffff_ffff_ffff,
                    by >= 1,
            ;
        }
        by = by * 2;
    }
    proof {
        if by == 1 {
            assert(a / 1 == a);
        }
    }
    let q: u128 = a / by;
    let rest: u128 = a % by;
    let up: bool = 2 * rest > by || (2 * rest == by && (left_over || q % 2 == 1));
    let m: u128 = if up {
        q + 1
    } else {
        q
    };
    let p = power(k);
    proof {
        let n = a as nat * d + v;
        lemma_parts(a as nat, d, v);
        lemma_round_up(a as nat, d, v, by as nat);
        assert(n >= 0x20_0000_0000_0000 * d && n > 0) by (nonlinear_arith)
            requires
                a >= 0x20_0000_0000_0000,
                n == a * d + v,
                d > 0,
        ;
        assert(half_even(n, d * (by as nat)) == m);
        assert(m * by <= 0x2_0000_0000_0000_0000) by (nonlinear_arith)
            requires
                m <= q + 1,
                q < 0x20_0000_0000_0000,
                by <= 2048,
        ;
        lemma_hundred();
        lemma_two_to_grows(k as nat, 40);
        assert(m * by * p <= 0x2_0000_0000_0000_0000 * 0x100_0000_0000) by (nonlinear_arith)
            requires
                0 <= m * by <= 0x2_0000_0000_0000_0000,
                0 <= p <= 0x100_0000_0000,
        ;
    }
    let whole: u128 = m * by * p;
    if whole > 0xffff_ffff_ffff_ffff {
        0xffff_ffff_ffff_ffff
    } else {
        whole as u64
    }
}

/// What some leading digits write is no more than what all of them do.
proof fn lemma_leading(s: Seq<u8>, i: int)
    requires
        0 <= i <= s.len(),
    ensures
        digits_value(s.take(i)) <= digits_value(s),
    decreases s.len(),
{
    if i == s.len() {
        assert(s.take(i) =~= s);
    } else {
        lemma_leading(s.drop_last(), i);
        assert(s.drop_last().take(i) =~= s.take(i));
    }
}

/// The number that `whole` and, behind the point, `part` write, times two to
/// the power `k`.
pub(crate) fn scale_digits(whole: &Vec<u8>, part: Vec<u8>, k: u64) -> (r: u64)
    requires
        are_digits(whole@),
        are_digits(part@),
        k <= 40,
    ensures
        r == scaled(digits_value(whole@ + part@), ten_to(part@.len()), k as nat),
{
    let ghost d = ten_to(part@.len());
    let ghost v = digits_value(part@);
    proof {
        lemma_behind(whole@, part@);
        lemma_below(part@);
    }
    let mut a: u128 = 0;
    let mut i: usize = 0;
    proof {
        assert(whole@.take(0) =~= Seq::empty());
    }
    while i < whole.len() && a < 0x1_0000_0000_0000_0000
        invariant
            i <= whole@.len(),
            are_digits(whole@),
            a == digits_value(whole@.take(i as int)),
            a < 0x10_0000_0000_0000_0000,
        decreases whole.len() - i,
    {
        proof {
            assert(whole@.take(i + 1).drop_last() =~= whole@.take(i as int));
            assert(whole@.take(i + 1).last() == whole@[i as int]);
        }
        a = a * 10 + whole[i] as u128;
        i += 1;
    }
    if a >= 0x1_0000_0000_0000_0000 {
        proof {
            lemma_leading(whole@, i as int);
            lemma_too_much(digits_value(whole@), d, v, k as nat);
        }
        return 0xffff_ffff_ffff_ffff;
    }
    proof {
        assert(whole@.take(i as int) =~= whole@);
    }
    let ghost n = a as nat * d + v;
    let none_left = all_zero(&part);
    if a == 0 && none_left {
        proof {
            assert(0 * d == 0) by (nonlinear_arith);
        }
        return 0;
    }
    if a >= 0x20_0000_0000_0000 {
        return scale_large(a, Ghost(d), Ghost(v), !none_left, k);
    }
    let mut rest = part;
    let mut e: u64 = 0;
    let ghost floor = 0x10_0000_0000_0000 * d;
    proof {
        assert(n * two_to(0) == n) by (nonlinear_arith)
            requires
                two_to(0) == 1,
        ;
        assert(0 < n < 0x20_0000_0000_0000 * d) by (nonlinear_arith)
            requires
                n == a * d + v,
                a > 0 || v > 0,
                v < d,
                a < 0x20_0000_0000_0000,
        ;
    }
    while a < 0x10_0000_0000_0000 && e < 100
        invariant
            e <= 100,
            0 < n < 0x20_0000_0000_0000 * d,
            floor == 0x10_0000_0000_0000 * d,
            d == ten_to(rest@.len()),
            are_digits(rest@),
            a < 0x20_0000_0000_0000,
            n * two_to(e as nat) == a * d + digits_value(rest@),
            places(n, d) == e + doublings(n * two_to(e as nat), floor),
        decreases 100 - e,
    {
        let ghost a0 = a as nat;
        let ghost v0 = digits_value(rest@);
        proof {
            lemma_below(rest@);
            lemma_double_once(n, d, e as nat);
            lemma_two_to_grows(0, e as nat);
            let at = n * two_to(e as nat);
            assert(0 < at < floor) by (nonlinear_arith)
                requires
                    at == n * two_to(e as nat),
                    n > 0,
                    two_to(e as nat) > 0,
                    at == a0 * d + v0,
                    v0 < d,
                    a0 < 0x10_0000_0000_0000,
                    floor == 0x10_0000_0000_0000 * d,
            ;
        }
        let carry = double_digits(&mut rest);
        a = 2 * a + carry as u128;
        e += 1;
        proof {
            let c = carry as nat;
            let v1 = digits_value(rest@);
            assert((2 * a0 + c) * d + v1 == 2 * (a0 * d + v0)) by (nonlinear_arith)
                requires
                    c * d + v1 == 2 * v0,
            ;
        }
    }
    proof {
        lemma_below(rest@);
        lemma_hundred();
    }
    if a < 0x10_0000_0000_0000 {
        proof {
            let at = n * two_to(e as nat);
            lemma_two_to_grows(0, e as nat);
            assert(0 < at < floor) by (nonlinear_arith)
                requires
                    at == n * two_to(e as nat),
                    n > 0,
                    two_to(e as nat) > 0,
                    at == a * d + digits_value(rest@),
                    digits_value(rest@) < d,
                    a < 0x10_0000_0000_0000,
                    floor == 0x10_0000_0000_0000 * d,
            ;
            lemma_settles(n, floor);
            let far = places(n, d);
            assert(far >= 101);
            let up = n * two_to(far);
            assert(up / d < 0x20_0000_0000_0000) by (nonlinear_arith)
                requires
                    up < 0x20_0000_0000_0000 * d,
                    d > 0,
            ;
            assert(fraction(n, d) <= 0x20_0000_0000_0000);
            lemma_two_to_grows(61, (far - k) as nat);
            assert(fraction(n, d) / two_to((far - k) as nat) == 0) by (nonlinear_arith)
                requires
                    fraction(n, d) <= 0x20_0000_0000_0000,
                    two_to((far - k) as nat) >= 0x2000_0000_0000_0000,
            ;
        }
        return 0;
    }
    let ghost v0 = digits_value(rest@);
    proof {
        assert(n * two_to(e as nat) >= floor) by (nonlinear_arith)
            requires
                n * two_to(e as nat) == a * d + v0,
                a >= 0x10_0000_0000_0000,
                floor == 0x10_0000_0000_0000 * d,
        ;
        assert(places(n, d) == e);
        lemma_parts(a as nat, d, v0);
    }
    let carry = double_digits(&mut rest);
    let up: bool = carry == 1 && (!all_zero(&rest) || a % 2 == 1);
    proof {
        lemma_below(rest@);
        assert(carry == 1 ==> carry * d == d) by (nonlinear_arith);
        assert(carry == 0 ==> carry * d == 0) by (nonlinear_arith);
    }
    let m: u128 = if up {
        a + 1
    } else {
        a
    };
    proof {
        assert(fraction(n, d) == m);
    }
    if k >= e {
        let p = power(k - e);
        proof {
            lemma_two_to_grows((k - e) as nat, 40);
            assert(m * p <= 0x20_0000_0000_0000 * 0x100_0000_0000) by (nonlinear_arith)
                requires
                    m <= 0x20_0000_0000_0000,
                    p <= 0x100_0000_0000,
            ;
        }
        let scaled_up: u128 = m * p;
        if scaled_up > 0xffff_ffff_ffff_ffff {
            0xffff_ffff_ffff_ffff
        } else {
            scaled_up as u64
        }
    } else {
        let p = power(e - k);
        proof {
            assert(m / p <= m) by (nonlinear_arith)
                requires
                    p >= 1,
            ;
        }
        (m / p) as u64
    }
}

} // verus!
