//! Facts about sequences that the rest of the crate leans on: stable sorting,
//! first matches, sums, and the one-step laws that carry a loop along.
use vstd::prelude::*;

verus! {

/// The place of the first element that satisfies `p`, or `s.len()` when none does.
pub open spec fn first_index<T>(s: Seq<T>, p: spec_fn(T) -> bool) -> int
    decreases s.len(),
{
    if s.len() == 0 {
        0
    } else if p(s[0]) {
        0
    } else {
        1 + first_index(s.drop_first(), p)
    }
}

/// The first element that satisfies `p`, if any does.
pub open spec fn first_match<T>(s: Seq<T>, p: spec_fn(T) -> bool) -> Option<T> {
    let i = first_index(s, p);
    if i < s.len() {
        Some(s[i])
    } else {
        None
    }
}

/// What the first match is: in range exactly when something matches, and
/// nothing before it matches.
pub proof fn lemma_first_index<T>(s: Seq<T>, p: spec_fn(T) -> bool)
    ensures
        0 <= first_index(s, p) <= s.len(),
        first_index(s, p) < s.len() ==> p(s[first_index(s, p)]),
        forall|j: int| 0 <= j < first_index(s, p) ==> !p(#[trigger] s[j]),
        s.any(p) <==> first_index(s, p) < s.len(),
    decreases s.len(),
{
    if s.len() > 0 && !p(s[0]) {
        let t = s.drop_first();
        lemma_first_index(t, p);
        assert forall|j: int| 0 <= j < first_index(s, p) implies !p(#[trigger] s[j]) by {
            if j > 0 {
                assert(s[j] == t[j - 1]);
            }
        }
        if s.any(p) {
            let k = choose|k: int| 0 <= k < s.len() && p(#[trigger] s[k]);
            assert(t[k - 1] == s[k]);
        }
    }
}

/// A place that matches with nothing matching before it is the first match.
pub proof fn lemma_first_index_is<T>(s: Seq<T>, p: spec_fn(T) -> bool, i: int)
    requires
        0 <= i <= s.len(),
        i < s.len() ==> p(s[i]),
        forall|j: int| 0 <= j < i ==> !p(#[trigger] s[j]),
    ensures
        first_index(s, p) == i,
{
    lemma_first_index(s, p);
    let k = first_index(s, p);
    if k < i {
        assert(p(s[k]));
    } else if i < k {
        assert(p(s[i]));
    }
}

/// Puts `x` behind every element that may stand before it, counted from the front.
pub open spec fn insert_by<T>(s: Seq<T>, x: T, le: spec_fn(T, T) -> bool) -> Seq<T>
    decreases s.len(),
{
    if s.len() == 0 {
        seq![x]
    } else if le(s.last(), x) {
        s.push(x)
    } else {
        insert_by(s.drop_last(), x, le).push(s.last())
    }
}

/// The stable sort of `s`: elements that `le` ties keep their order.
pub open spec fn stable_sort<T>(s: Seq<T>, le: spec_fn(T, T) -> bool) -> Seq<T>
    decreases s.len(),
{
    if s.len() == 0 {
        s
    } else {
        insert_by(stable_sort(s.drop_last(), le), s.last(), le)
    }
}

/// `le` can sort: any two elements are comparable, and it chains.
pub open spec fn total_preorder<T>(le: spec_fn(T, T) -> bool) -> bool {
    &&& forall|a: T, b: T| #[trigger] le(a, b) || le(b, a)
    &&& forall|a: T, b: T, c: T| #[trigger] le(a, b) && #[trigger] le(b, c) ==> le(a, c)
}

/// No element stands before one it must follow.
pub open spec fn ordered<T>(s: Seq<T>, le: spec_fn(T, T) -> bool) -> bool {
    forall|i: int, j: int| 0 <= i < j < s.len() ==> le(#[trigger] s[i], #[trigger] s[j])
}

pub proof fn lemma_insert_by<T>(s: Seq<T>, x: T, le: spec_fn(T, T) -> bool)
    ensures
        insert_by(s, x, le).len() == s.len() + 1,
        insert_by(s, x, le).to_multiset() == s.to_multiset().insert(x),
        total_preorder(le) && ordered(s, le) ==> ordered(insert_by(s, x, le), le),
    decreases s.len(),
{
    broadcast use vstd::seq_lib::group_to_multiset_ensures;

    if s.len() == 0 {
        assert(seq![x] =~= s.push(x));
    } else if le(s.last(), x) {
        if total_preorder(le) && ordered(s, le) {
            let r = s.push(x);
            assert forall|i: int, j: int| 0 <= i < j < r.len() implies le(
                #[trigger] r[i],
                #[trigger] r[j],
            ) by {
                if j == s.len() && i < s.len() - 1 {
                    assert(le(s[i], s[s.len() - 1]));
                    assert(le(s.last(), x));
                }
            }
        }
    } else {
        let t = s.drop_last();
        lemma_insert_by(t, x, le);
        assert(s =~= t.push(s.last()));
        let u = insert_by(t, x, le);
        assert(s.to_multiset() =~= t.to_multiset().insert(s.last()));
        assert(u.push(s.last()).to_multiset() =~= s.to_multiset().insert(x));
        if total_preorder(le) && ordered(s, le) {
            assert(ordered(t, le)) by {
                assert forall|i: int, j: int| 0 <= i < j < t.len() implies le(
                    #[trigger] t[i],
                    #[trigger] t[j],
                ) by {
                    assert(le(s[i], s[j]));
                }
            }
            let r = u.push(s.last());
            assert forall|i: int, j: int| 0 <= i < j < r.len() implies le(
                #[trigger] r[i],
                #[trigger] r[j],
            ) by {
                if j == u.len() {
                    assert(u.to_multiset().contains(u[i])) by {
                        assert(u.contains(u[i]));
                    }
                    if u[i] != x {
                        assert(t.to_multiset().contains(u[i]));
                        assert(t.contains(u[i]));
                        let k = choose|k: int| 0 <= k < t.len() && t[k] == u[i];
                        assert(le(s[k], s[s.len() - 1]));
                    } else {
                        assert(le(x, s.last()));
                    }
                } else {
                    assert(le(u[i], u[j]));
                }
            }
        }
    }
}

/// Sorting loses nothing, invents nothing, and puts the elements in order.
pub proof fn lemma_stable_sort<T>(s: Seq<T>, le: spec_fn(T, T) -> bool)
    ensures
        stable_sort(s, le).len() == s.len(),
        stable_sort(s, le).to_multiset() == s.to_multiset(),
        total_preorder(le) ==> ordered(stable_sort(s, le), le),
    decreases s.len(),
{
    broadcast use vstd::seq_lib::group_to_multiset_ensures;

    if s.len() > 0 {
        let t = s.drop_last();
        lemma_stable_sort(t, le);
        lemma_insert_by(stable_sort(t, le), s.last(), le);
        assert(s =~= t.push(s.last()));
    }
}

/// Membership survives sorting, in both directions.
pub proof fn lemma_stable_sort_contains<T>(s: Seq<T>, le: spec_fn(T, T) -> bool, x: T)
    ensures
        stable_sort(s, le).contains(x) <==> s.contains(x),
{
    broadcast use vstd::seq_lib::group_to_multiset_ensures;

    lemma_stable_sort(s, le);
    assert(stable_sort(s, le).to_multiset().contains(x) <==> s.to_multiset().contains(x));
}

/// Sorts `items` stably by `le`, which computes `spec`.
pub fn sort_with<T, F: Fn(&T, &T) -> bool>(
    items: Vec<T>,
    le: F,
    Ghost(spec): Ghost<spec_fn(T, T) -> bool>,
) -> (sorted: Vec<T>)
    requires
        forall|a: &T, b: &T| #[trigger] le.requires((a, b)),
        forall|a: &T, b: &T, r: bool| le.ensures((a, b), r) ==> r == spec(*a, *b),
    ensures
        sorted@ == stable_sort(items@, spec),
{
    let mut rest = items;
    let mut out: Vec<T> = Vec::new();
    let ghost all = items@;
    let ghost mut done: int = 0;
    while rest.len() > 0
        invariant
            0 <= done <= all.len(),
            rest@ == all.skip(done),
            out@ == stable_sort(all.take(done), spec),
            forall|a: &T, b: &T| #[trigger] le.requires((a, b)),
            forall|a: &T, b: &T, r: bool| le.ensures((a, b), r) ==> r == spec(*a, *b),
        decreases rest.len(),
    {
        let x = rest.remove(0);
        let mut at: usize = out.len();
        proof {
            assert(rest@ =~= all.skip(done + 1));
            assert(all.take(done + 1).drop_last() =~= all.take(done));
        }
        let ghost base = out@;
        proof {
            assert(base.take(at as int) =~= base);
        }
        while at > 0 && !le(&out[at - 1], &x)
            invariant
                at <= out.len(),
                out@ == base,
                forall|a: &T, b: &T| #[trigger] le.requires((a, b)),
                forall|a: &T, b: &T, r: bool| le.ensures((a, b), r) ==> r == spec(*a, *b),
                insert_by(base, x, spec) == insert_by(base.take(at as int), x, spec) + base.skip(
                    at as int,
                ),
            decreases at,
        {
            proof {
                let t = base.take(at as int);
                assert(t.drop_last() =~= base.take(at - 1));
                assert(insert_by(t, x, spec) == insert_by(t.drop_last(), x, spec).push(t.last()));
                assert(insert_by(t.drop_last(), x, spec).push(t.last()) + base.skip(at as int)
                    =~= insert_by(t.drop_last(), x, spec) + base.skip(at - 1));
            }
            at -= 1;
        }
        proof {
            let t = base.take(at as int);
            assert(insert_by(t, x, spec) =~= t.push(x));
            assert(base.insert(at as int, x) =~= t.push(x) + base.skip(at as int));
            assert(all.take(done + 1).last() == x);
        }
        out.insert(at, x);
        proof {
            done = done + 1;
        }
    }
    proof {
        assert(all.take(done) =~= all);
    }
    out
}

/// One more element of a filtered prefix.
pub proof fn lemma_filter_take<T>(s: Seq<T>, p: spec_fn(T) -> bool, i: int)
    requires
        0 <= i < s.len(),
    ensures
        s.take(i + 1).filter(p) == if p(s[i]) {
            s.take(i).filter(p).push(s[i])
        } else {
            s.take(i).filter(p)
        },
{
    s.take(i).lemma_filter_push(s[i], p);
    assert(s.take(i + 1) =~= s.take(i).push(s[i]));
}

/// What a filter keeps: the elements of the sequence that satisfy `p`, and no others.
pub proof fn lemma_filter_members<T>(s: Seq<T>, p: spec_fn(T) -> bool)
    ensures
        forall|x: T| #[trigger] s.filter(p).contains(x) <==> s.contains(x) && p(x),
        forall|i: int|
            0 <= i < s.filter(p).len() ==> p(#[trigger] s.filter(p)[i]) && s.contains(
                s.filter(p)[i],
            ),
        s.filter(p).len() <= s.len(),
    decreases s.len(),
{
    reveal(Seq::filter);
    if s.len() > 0 {
        let t = s.drop_last();
        let l = s.last();
        lemma_filter_members(t, p);
        let f = t.filter(p);
        let g = s.filter(p);
        assert(g == if p(l) {
            f.push(l)
        } else {
            f
        });
        assert forall|x: T| #[trigger] g.contains(x) <==> s.contains(x) && p(x) by {
            if g.contains(x) {
                let i = choose|i: int| 0 <= i < g.len() && g[i] == x;
                if i < f.len() {
                    assert(f.contains(x));
                    let j = choose|j: int| 0 <= j < t.len() && t[j] == x;
                    assert(s[j] == x);
                } else {
                    assert(s[s.len() - 1] == x);
                }
            }
            if s.contains(x) && p(x) {
                let j = choose|j: int| 0 <= j < s.len() && s[j] == x;
                if j < t.len() {
                    assert(t[j] == x);
                    assert(f.contains(x));
                    let i = choose|i: int| 0 <= i < f.len() && f[i] == x;
                    assert(g[i] == x);
                } else {
                    assert(g[f.len() as int] == x);
                }
            }
        }
        assert forall|i: int| 0 <= i < g.len() implies p(#[trigger] g[i]) && s.contains(g[i]) by {
            assert(g.contains(g[i]));
        }
    }
}

/// One more element of a mapped prefix.
pub proof fn lemma_map_take<T, U>(s: Seq<T>, f: spec_fn(T) -> U, i: int)
    requires
        0 <= i < s.len(),
    ensures
        s.take(i + 1).map_values(f) == s.take(i).map_values(f).push(f(s[i])),
{
    assert(s.take(i + 1).map_values(f) =~= s.take(i).map_values(f).push(f(s[i])));
}

/// The sum of `f` over a sequence.
pub open spec fn total<T>(s: Seq<T>, f: spec_fn(T) -> nat) -> nat
    decreases s.len(),
{
    if s.len() == 0 {
        0
    } else {
        total(s.drop_last(), f) + f(s.last())
    }
}

/// One more element of a summed prefix, and every prefix sums to no more than the whole.
pub proof fn lemma_total_take<T>(s: Seq<T>, f: spec_fn(T) -> nat, i: int)
    requires
        0 <= i < s.len(),
    ensures
        total(s.take(i + 1), f) == total(s.take(i), f) + f(s[i]),
        total(s.take(i + 1), f) <= total(s, f),
    decreases s.len() - i,
{
    assert(s.take(i + 1).drop_last() =~= s.take(i));
    if i + 1 < s.len() {
        lemma_total_take(s, f, i + 1);
    } else {
        assert(s.take(i + 1) =~= s);
    }
}

/// The largest number of a sequence, if it has any.
pub open spec fn largest(s: Seq<u64>) -> Option<u64>
    decreases s.len(),
{
    if s.len() == 0 {
        None
    } else {
        match largest(s.drop_last()) {
            Some(m) if m >= s.last() => Some(m),
            _ => Some(s.last()),
        }
    }
}

/// The smallest number of a sequence, if it has any.
pub open spec fn smallest(s: Seq<u64>) -> Option<u64>
    decreases s.len(),
{
    if s.len() == 0 {
        None
    } else {
        match smallest(s.drop_last()) {
            Some(m) if m <= s.last() => Some(m),
            _ => Some(s.last()),
        }
    }
}

/// The largest is one of the numbers and none exceeds it.
pub proof fn lemma_largest(s: Seq<u64>)
    ensures
        match largest(s) {
            Some(m) => s.contains(m) && forall|i: int| 0 <= i < s.len() ==> #[trigger] s[i] <= m,
            None => s.len() == 0,
        },
    decreases s.len(),
{
    if s.len() > 0 {
        let t = s.drop_last();
        lemma_largest(t);
        if t.len() > 0 {
            let m = largest(t)->0;
            let k = t.index_of(m);
            assert(s[k] == m);
            assert forall|i: int| 0 <= i < s.len() implies #[trigger] s[i] <= largest(s)->0 by {
                if i < t.len() {
                    assert(t[i] <= m);
                }
            }
        }
        assert(s[s.len() - 1] == s.last());
    }
}

/// The smallest is one of the numbers and exceeds none.
pub proof fn lemma_smallest(s: Seq<u64>)
    ensures
        match smallest(s) {
            Some(m) => s.contains(m) && forall|i: int| 0 <= i < s.len() ==> #[trigger] s[i] >= m,
            None => s.len() == 0,
        },
    decreases s.len(),
{
    if s.len() > 0 {
        let t = s.drop_last();
        lemma_smallest(t);
        if t.len() > 0 {
            let m = smallest(t)->0;
            let k = t.index_of(m);
            assert(s[k] == m);
            assert forall|i: int| 0 <= i < s.len() implies #[trigger] s[i] >= smallest(s)->0 by {
                if i < t.len() {
                    assert(t[i] >= m);
                }
            }
        }
        assert(s[s.len() - 1] == s.last());
    }
}

pub fn max_of(v: &Vec<u64>) -> (r: Option<u64>)
    ensures
        r == largest(v@),
{
    let mut best: Option<u64> = None;
    let mut i: usize = 0;
    while i < v.len()
        invariant
            i <= v.len(),
            best == largest(v@.take(i as int)),
        decreases v.len() - i,
    {
        proof {
            assert(v@.take(i + 1).drop_last() =~= v@.take(i as int));
        }
        best = match best {
            Some(m) => if m >= v[i] {
                Some(m)
            } else {
                Some(v[i])
            },
            None => Some(v[i]),
        };
        i += 1;
    }
    proof {
        assert(v@.take(i as int) =~= v@);
    }
    best
}

pub fn min_of(v: &Vec<u64>) -> (r: Option<u64>)
    ensures
        r == smallest(v@),
{
    let mut best: Option<u64> = None;
    let mut i: usize = 0;
    while i < v.len()
        invariant
            i <= v.len(),
            best == smallest(v@.take(i as int)),
        decreases v.len() - i,
    {
        proof {
            assert(v@.take(i + 1).drop_last() =~= v@.take(i as int));
        }
        best = match best {
            Some(m) => if m <= v[i] {
                Some(m)
            } else {
                Some(v[i])
            },
            None => Some(v[i]),
        };
        i += 1;
    }
    proof {
        assert(v@.take(i as int) =~= v@);
    }
    best
}

/// A figure, or the most 64 bits can hold.
pub open spec fn capped(n: nat) -> u64 {
    if n <= u64::MAX {
        n as u64
    } else {
        u64::MAX
    }
}

/// A product that stops at the most 64 bits can hold.
pub fn saturating_product(a: u64, b: u64) -> (r: u64)
    ensures
        r == capped((a * b) as nat),
{
    proof {
        assert(a * b <= 0xffff_ffff_ffff_ffff * 0xffff_ffff_ffff_ffff) by (nonlinear_arith)
            requires
                a <= 0xffff_ffff_ffff_ffff,
                b <= 0xffff_ffff_ffff_ffff,
        ;
    }
    let wide: u128 = a as u128 * b as u128;
    if wide <= 0xffff_ffff_ffff_ffff {
        wide as u64
    } else {
        0xffff_ffff_ffff_ffff
    }
}

/// Capping on the way changes nothing: a product of capped figures is the capped product.
pub proof fn lemma_capped_product(a: nat, b: nat)
    ensures
        capped((capped(a) * b) as nat) == capped(a * b),
{
    if a > u64::MAX {
        if b == 0 {
            assert(a * b == 0) by (nonlinear_arith)
                requires
                    b == 0,
            ;
        } else {
            assert(a * b > u64::MAX && u64::MAX * b >= u64::MAX) by (nonlinear_arith)
                requires
                    a > u64::MAX,
                    b >= 1,
            ;
        }
    }
}

/// How long the shortest front is that sums to at least `need`; the whole
/// length when even the whole does not.
pub open spec fn shortest_front<T>(s: Seq<T>, f: spec_fn(T) -> nat, need: int) -> int
    decreases s.len(),
{
    if need <= 0 || s.len() == 0 {
        0
    } else {
        1 + shortest_front(s.drop_first(), f, need - f(s[0]))
    }
}

/// The sum of a front, taken apart at its first element.
proof fn lemma_total_first<T>(s: Seq<T>, f: spec_fn(T) -> nat, j: int)
    requires
        0 <= j < s.len(),
    ensures
        total(s.take(j + 1), f) == f(s[0]) + total(s.drop_first().take(j), f),
    decreases j,
{
    let a = s.take(j + 1);
    let b = s.drop_first().take(j);
    if j == 0 {
        assert(a.drop_last().len() == 0);
        assert(total(a.drop_last(), f) == 0);
        assert(b.len() == 0);
    } else {
        lemma_total_first(s, f, j - 1);
        assert(a.drop_last() =~= s.take(j));
        assert(b.drop_last() =~= s.drop_first().take(j - 1));
        assert(a.last() == b.last());
    }
}

/// A front that stops as soon as it sums to enough is the shortest.
pub proof fn lemma_shortest_front_is<T>(s: Seq<T>, f: spec_fn(T) -> nat, need: int, k: int)
    requires
        0 <= k <= s.len(),
        forall|j: int| 0 <= j < k ==> total(#[trigger] s.take(j), f) < need,
        total(s.take(k), f) >= need || k == s.len(),
    ensures
        shortest_front(s, f, need) == k,
    decreases s.len(),
{
    if k == 0 {
        assert(s.take(0).len() == 0);
        assert(total(s.take(0), f) == 0);
    } else {
        assert(total(s.take(0), f) < need) by {
            assert(s.take(0).len() == 0);
        }
        let rest = s.drop_first();
        let less = need - f(s[0]);
        assert forall|j: int| 0 <= j < k - 1 implies total(#[trigger] rest.take(j), f) < less by {
            lemma_total_first(s, f, j);
            assert(total(s.take(j + 1), f) < need);
        }
        lemma_total_first(s, f, k - 1);
        lemma_shortest_front_is(rest, f, less, k - 1);
    }
}

/// What the shortest front is: it sums to enough if the whole does, and
/// without its last element it does not.
pub proof fn lemma_shortest_front<T>(s: Seq<T>, f: spec_fn(T) -> nat, need: int)
    ensures
        0 <= shortest_front(s, f, need) <= s.len(),
        total(s, f) >= need ==> total(s.take(shortest_front(s, f, need)), f) >= need,
        shortest_front(s, f, need) > 0 ==> total(s.take(shortest_front(s, f, need) - 1), f) < need,
        total(s, f) < need ==> shortest_front(s, f, need) == s.len(),
    decreases s.len(),
{
    if need > 0 && s.len() > 0 {
        let rest = s.drop_first();
        let less = need - f(s[0]);
        lemma_total_first(s, f, s.len() - 1);
        assert(s.take(s.len() as int) =~= s);
        assert(rest.take(s.len() - 1) =~= rest);
        lemma_shortest_front(rest, f, less);
        let k = shortest_front(s, f, need);
        lemma_total_first(s, f, k - 1);
        if k - 1 > 0 {
            lemma_total_first(s, f, k - 2);
            assert(s.take(k - 1) == s.take((k - 2) + 1));
        } else {
            assert(s.take(0).len() == 0);
            assert(total(s.take(0), f) == 0);
        }
    } else {
        assert(s.take(0).len() == 0);
        assert(total(s.take(0), f) == 0);
        if s.len() == 0 {
            assert(s.take(0) =~= s);
        }
    }
}

/// Sorting by a key commutes with taking the keys.
pub proof fn lemma_sort_map<T, U>(
    s: Seq<T>,
    f: spec_fn(T) -> U,
    le: spec_fn(T, T) -> bool,
    over: spec_fn(U, U) -> bool,
)
    requires
        forall|a: T, b: T| #[trigger] le(a, b) == over(f(a), f(b)),
    ensures
        stable_sort(s, le).map_values(f) == stable_sort(s.map_values(f), over),
    decreases s.len(),
{
    if s.len() == 0 {
        assert(s.map_values(f) =~= Seq::<U>::empty());
        assert(stable_sort(s, le).map_values(f) =~= stable_sort(s.map_values(f), over));
    } else {
        lemma_sort_map(s.drop_last(), f, le, over);
        assert(s.map_values(f).drop_last() =~= s.drop_last().map_values(f));
        lemma_insert_map(stable_sort(s.drop_last(), le), s.last(), f, le, over);
    }
}

proof fn lemma_insert_map<T, U>(
    s: Seq<T>,
    x: T,
    f: spec_fn(T) -> U,
    le: spec_fn(T, T) -> bool,
    over: spec_fn(U, U) -> bool,
)
    requires
        forall|a: T, b: T| #[trigger] le(a, b) == over(f(a), f(b)),
    ensures
        insert_by(s, x, le).map_values(f) == insert_by(s.map_values(f), f(x), over),
    decreases s.len(),
{
    let t = s.map_values(f);
    if s.len() == 0 {
        assert(seq![x].map_values(f) =~= seq![f(x)]);
    } else {
        assert(le(s.last(), x) == over(f(s.last()), f(x)));
        assert(t.last() == f(s.last()));
        assert(t.drop_last() =~= s.drop_last().map_values(f));
        if le(s.last(), x) {
            assert(s.push(x).map_values(f) =~= t.push(f(x)));
        } else {
            lemma_insert_map(s.drop_last(), x, f, le, over);
            let u = insert_by(s.drop_last(), x, le);
            assert(u.push(s.last()).map_values(f) =~= u.map_values(f).push(f(s.last())));
        }
    }
}

/// What a filtering map gives: the values of the elements that have one.
pub proof fn lemma_filter_map_members<T, U>(s: Seq<T>, f: spec_fn(T) -> Option<U>)
    ensures
        forall|i: int|
            #![trigger s[i]]
            0 <= i < s.len() && f(s[i]) is Some ==> s.filter_map(f).contains(f(s[i])->0),
        forall|k: int|
            0 <= k < s.filter_map(f).len() ==> exists|i: int|
                0 <= i < s.len() && f(#[trigger] s[i]) == Some(#[trigger] s.filter_map(f)[k]),
    decreases s.len(),
{
    if s.len() > 0 {
        let t = s.drop_last();
        lemma_filter_map_members(t, f);
        let before = t.filter_map(f);
        let all = s.filter_map(f);
        let n = s.len() - 1;
        assert forall|i: int| #![trigger s[i]] 0 <= i < s.len() && f(s[i]) is Some implies all.contains(
            f(s[i])->0,
        ) by {
            if i < n {
                assert(t[i] == s[i]);
                let k = before.index_of(f(s[i])->0);
                assert(all[k] == before[k]);
            } else {
                assert(all[before.len() as int] == f(s[i])->0);
            }
        }
        assert forall|k: int| 0 <= k < all.len() implies exists|i: int|
            0 <= i < s.len() && f(#[trigger] s[i]) == Some(#[trigger] all[k]) by {
            if k < before.len() {
                assert(all[k] == before[k]);
                let i = choose|i: int|
                    0 <= i < t.len() && f(#[trigger] t[i]) == Some(#[trigger] before[k]);
                assert(f(s[i]) == Some(all[k]));
            } else {
                assert(f(s[n]) == Some(all[k]));
            }
        }
    }
}

/// A filtering map keeps the order: two of its values come from two elements,
/// in their order.
pub proof fn lemma_filter_map_order<T, U>(s: Seq<T>, f: spec_fn(T) -> Option<U>, a: int, b: int) -> (from: (
    int,
    int,
))
    requires
        0 <= a < b < s.filter_map(f).len(),
    ensures
        0 <= from.0 < from.1 < s.len(),
        f(s[from.0]) == Some(s.filter_map(f)[a]),
        f(s[from.1]) == Some(s.filter_map(f)[b]),
    decreases s.len(),
{
    let t = s.drop_last();
    let before = t.filter_map(f);
    let all = s.filter_map(f);
    if b < before.len() {
        let from = lemma_filter_map_order(t, f, a, b);
        assert(all[a] == before[a] && all[b] == before[b]);
        from
    } else {
        lemma_filter_map_members(t, f);
        assert(all[a] == before[a]);
        let i = choose|i: int| 0 <= i < t.len() && f(#[trigger] t[i]) == Some(#[trigger] before[a]);
        assert(f(s[i]) == Some(all[a]));
        (i, s.len() - 1)
    }
}

/// Sorting brings no duplicates into a sequence that has none.
pub proof fn lemma_sort_keeps_apart<T>(s: Seq<T>, le: spec_fn(T, T) -> bool)
    requires
        s.no_duplicates(),
    ensures
        stable_sort(s, le).no_duplicates(),
{
    lemma_stable_sort(s, le);
    s.lemma_multiset_has_no_duplicates();
    stable_sort(s, le).lemma_multiset_has_no_duplicates_conv();
}

/// A sum, with one element taken out.
pub proof fn lemma_total_remove<T>(s: Seq<T>, f: spec_fn(T) -> nat, i: int)
    requires
        0 <= i < s.len(),
    ensures
        total(s, f) == f(s[i]) + total(s.remove(i), f),
    decreases s.len(),
{
    let front = s.drop_last();
    if i == s.len() - 1 {
        assert(s.remove(i) =~= front);
    } else {
        lemma_total_remove(front, f, i);
        assert(s.remove(i).drop_last() =~= front.remove(i));
        assert(s.remove(i).last() == s.last());
    }
}

/// Taking one element out of sequences that hold the same leaves them so.
pub proof fn lemma_without_last<T>(s: Seq<T>, t: Seq<T>) -> (j: int)
    requires
        s.len() > 0,
        s.to_multiset() == t.to_multiset(),
    ensures
        0 <= j < t.len(),
        t[j] == s.last(),
        s.drop_last().to_multiset() == t.remove(j).to_multiset(),
        s.len() == t.len(),
{
    broadcast use vstd::seq_lib::group_to_multiset_ensures;

    assert(s.to_multiset().contains(s.last())) by {
        assert(s.contains(s[s.len() - 1]));
    }
    assert(t.contains(s.last()));
    let j = t.index_of(s.last());
    assert(s.drop_last() =~= s.remove(s.len() - 1));
    assert(s.to_multiset().len() == s.len());
    assert(t.to_multiset().len() == t.len());
    j
}

/// Sequences that hold the same hold each element alike.
pub proof fn lemma_same_members<T>(s: Seq<T>, t: Seq<T>, x: T)
    requires
        s.to_multiset() == t.to_multiset(),
    ensures
        s.contains(x) <==> t.contains(x),
{
    broadcast use vstd::seq_lib::group_to_multiset_ensures;

    assert(s.contains(x) <==> s.to_multiset().contains(x));
    assert(t.contains(x) <==> t.to_multiset().contains(x));
}

/// A sum does not depend on the order.
pub proof fn lemma_total_permuted<T>(s: Seq<T>, t: Seq<T>, f: spec_fn(T) -> nat)
    requires
        s.to_multiset() == t.to_multiset(),
    ensures
        total(s, f) == total(t, f),
    decreases s.len(),
{
    broadcast use vstd::seq_lib::group_to_multiset_ensures;

    if s.len() == 0 {
        assert(t.to_multiset().len() == 0);
    } else {
        let j = lemma_without_last(s, t);
        lemma_total_remove(t, f, j);
        lemma_total_permuted(s.drop_last(), t.remove(j), f);
    }
}

/// As many elements are kept as there are places that hold one to keep.
pub proof fn lemma_filter_count<T>(s: Seq<T>, p: spec_fn(T) -> bool)
    ensures
        Set::<int>::new(|k: int| 0 <= k < s.len() && p(s[k])).finite(),
        s.filter(p).len() == Set::<int>::new(|k: int| 0 <= k < s.len() && p(s[k])).len(),
    decreases s.len(),
{
    let all = Set::<int>::new(|k: int| 0 <= k < s.len() && p(s[k]));
    if s.len() == 0 {
        lemma_filter_members(s, p);
        assert(all =~= Set::empty());
    } else {
        let n = s.len() - 1;
        let t = s.take(n);
        lemma_filter_count(t, p);
        lemma_filter_take(s, p, n);
        assert(s.take(n + 1) =~= s);
        let few = Set::<int>::new(|k: int| 0 <= k < t.len() && p(t[k]));
        if p(s[n]) {
            assert(all =~= few.insert(n));
        } else {
            assert(all =~= few);
        }
    }
}

/// The places that what is kept came from, in their order.
pub proof fn lemma_filter_places<T>(s: Seq<T>, p: spec_fn(T) -> bool) -> (at: Seq<int>)
    ensures
        at.len() == s.filter(p).len(),
        forall|k: int| 0 <= k < at.len() ==> 0 <= #[trigger] at[k] < s.len() && s[at[k]] == s.filter(
            p,
        )[k] && p(s[at[k]]),
        forall|j: int, k: int| 0 <= j < k < at.len() ==> #[trigger] at[j] < #[trigger] at[k],
        forall|i: int| 0 <= i < s.len() && p(#[trigger] s[i]) ==> at.contains(i),
    decreases s.len(),
{
    if s.len() == 0 {
        lemma_filter_members(s, p);
        Seq::empty()
    } else {
        let n = s.len() - 1;
        let t = s.take(n);
        let before = lemma_filter_places(t, p);
        lemma_filter_take(s, p, n);
        assert(s.take(n + 1) =~= s);
        let at = if p(s[n]) {
            before.push(n)
        } else {
            before
        };
        assert forall|i: int| 0 <= i < s.len() && p(#[trigger] s[i]) implies at.contains(i) by {
            if i < n {
                assert(t[i] == s[i]);
                assert(before.contains(i));
                let k = before.index_of(i);
                assert(at[k] == i);
            } else {
                assert(at[before.len() as int] == n);
            }
        }
        assert forall|k: int| 0 <= k < at.len() implies 0 <= #[trigger] at[k] < s.len() && s[at[k]]
            == s.filter(p)[k] && p(s[at[k]]) by {
            if k < before.len() {
                assert(at[k] == before[k]);
                assert(t[before[k]] == s[before[k]]);
            }
        }
        at
    }
}

/// The places that sorted elements came from, each once.
pub proof fn lemma_sort_places<T>(s: Seq<T>, le: spec_fn(T, T) -> bool) -> (at: Seq<int>)
    ensures
        at.len() == s.len(),
        stable_sort(s, le).len() == s.len(),
        forall|k: int| 0 <= k < at.len() ==> 0 <= #[trigger] at[k] < s.len() && s[at[k]]
            == stable_sort(s, le)[k],
        at.no_duplicates(),
        forall|i: int| 0 <= i < s.len() ==> #[trigger] at.contains(i),
    decreases s.len(),
{
    if s.len() == 0 {
        Seq::empty()
    } else {
        let t = s.drop_last();
        let before = lemma_sort_places(t, le);
        let n = s.len() - 1;
        let x = s.last();
        let at = lemma_insert_places(stable_sort(t, le), x, le);
        let r = stable_sort(s, le);
        let out = Seq::new(
            at.len(),
            |k: int|
                if at[k] == n {
                    n
                } else {
                    before[at[k]]
                },
        );
        assert forall|k: int| 0 <= k < out.len() implies 0 <= #[trigger] out[k] < s.len()
            && s[out[k]] == r[k] by {
            assert(0 <= at[k] <= n);
            if at[k] < n {
                assert(t[before[at[k]]] == s[before[at[k]]]);
            }
        }
        assert forall|j: int, k: int| 0 <= j < out.len() && 0 <= k < out.len() && j != k implies out[j]
            != out[k] by {
            assert(at[j] != at[k]);
            assert(0 <= at[j] <= n && 0 <= at[k] <= n);
            if at[j] < n && at[k] < n {
                assert(before[at[j]] != before[at[k]]);
            }
        }
        assert forall|i: int| 0 <= i < s.len() implies #[trigger] out.contains(i) by {
            if i == n {
                assert(at.contains(n));
                let k = at.index_of(n);
                assert(out[k] == n);
            } else {
                assert(before.contains(i));
                let b = before.index_of(i);
                assert(at.contains(b));
                let k = at.index_of(b);
                assert(out[k] == i);
            }
        }
        out
    }
}

/// Where each element came from when one was put among others, which is
/// numbered last.
proof fn lemma_insert_places<T>(s: Seq<T>, x: T, le: spec_fn(T, T) -> bool) -> (at: Seq<int>)
    ensures
        insert_by(s, x, le).len() == s.len() + 1,
        at.len() == s.len() + 1,
        at.no_duplicates(),
        forall|k: int| 0 <= k < at.len() ==> 0 <= #[trigger] at[k] <= s.len() && s.push(x)[at[k]]
            == insert_by(s, x, le)[k],
        forall|i: int| 0 <= i <= s.len() ==> #[trigger] at.contains(i),
    decreases s.len(),
{
    let n = s.len() as int;
    let all = s.push(x);
    if s.len() == 0 || le(s.last(), x) {
        let at = Seq::new(s.len() + 1, |k: int| k);
        assert forall|i: int| 0 <= i <= s.len() implies #[trigger] at.contains(i) by {
            assert(at[i] == i);
        }
        at
    } else {
        let t = s.drop_last();
        let before = lemma_insert_places(t, x, le);
        let at = Seq::new(
            s.len() + 1,
            |k: int|
                if k == n {
                    n - 1
                } else if before[k] == n - 1 {
                    n
                } else {
                    before[k]
                },
        );
        let r = insert_by(s, x, le);
        let u = insert_by(t, x, le);
        assert forall|k: int| 0 <= k < at.len() implies 0 <= #[trigger] at[k] <= s.len()
            && all[at[k]] == r[k] by {
            if k < n {
                assert(0 <= before[k] <= n - 1);
                assert(t.push(x)[before[k]] == u[k]);
                assert(r[k] == u[k]);
            }
        }
        assert forall|j: int, k: int| 0 <= j < at.len() && 0 <= k < at.len() && j != k implies at[j]
            != at[k] by {
            if j < n && k < n {
                assert(before[j] != before[k]);
            }
            if j < n {
                assert(0 <= before[j] <= n - 1);
            }
            if k < n {
                assert(0 <= before[k] <= n - 1);
            }
        }
        assert forall|i: int| 0 <= i <= s.len() implies #[trigger] at.contains(i) by {
            if i == n - 1 {
                assert(at[n] == i);
            } else if i == n {
                assert(before.contains(n - 1));
                let k = before.index_of(n - 1);
                assert(at[k] == n);
            } else {
                assert(before.contains(i));
                let k = before.index_of(i);
                assert(at[k] == i);
            }
        }
        at
    }
}

/// Different numbers in rising order.
pub proof fn lemma_rising(picks: Seq<int>) -> (r: Seq<int>)
    requires
        picks.no_duplicates(),
    ensures
        r.len() == picks.len(),
        r.to_multiset() == picks.to_multiset(),
        forall|a: int, b: int| 0 <= a < b < r.len() ==> #[trigger] r[a] < #[trigger] r[b],
        forall|a: int| 0 <= a < r.len() ==> picks.contains(#[trigger] r[a]),
{
    let le = |a: int, b: int| a <= b;
    let r = stable_sort(picks, le);
    lemma_stable_sort(picks, le);
    assert(total_preorder(le));
    lemma_sort_keeps_apart(picks, le);
    assert forall|a: int, b: int| 0 <= a < b < r.len() implies #[trigger] r[a] < #[trigger] r[b] by {
        assert(le(r[a], r[b]));
        assert(r[a] != r[b]);
    }
    assert forall|a: int| 0 <= a < r.len() implies picks.contains(#[trigger] r[a]) by {
        assert(r.contains(r[a]));
        lemma_stable_sort_contains(picks, le, r[a]);
    }
    r
}

/// As many values come out of a filtering map as there are places that have
/// one.
pub proof fn lemma_filter_map_count<T, U>(s: Seq<T>, f: spec_fn(T) -> Option<U>)
    ensures
        Set::<int>::new(|k: int| 0 <= k < s.len() && f(s[k]) is Some).finite(),
        s.filter_map(f).len() == Set::<int>::new(
            |k: int| 0 <= k < s.len() && f(s[k]) is Some,
        ).len(),
    decreases s.len(),
{
    let all = Set::<int>::new(|k: int| 0 <= k < s.len() && f(s[k]) is Some);
    if s.len() == 0 {
        assert(s.filter_map(f) =~= Seq::<U>::empty());
        assert(all =~= Set::empty());
    } else {
        let n = s.len() - 1;
        let t = s.drop_last();
        lemma_filter_map_count(t, f);
        let few = Set::<int>::new(|k: int| 0 <= k < t.len() && f(t[k]) is Some);
        if f(s[n]) is Some {
            assert(all =~= few.insert(n));
        } else {
            assert(all =~= few);
        }
    }
}

/// Counting through different places counts the places.
pub proof fn lemma_count_through(at: Seq<int>, q: spec_fn(int) -> bool)
    requires
        at.no_duplicates(),
    ensures
        Set::<int>::new(|i: int| at.contains(i) && q(i)).finite(),
        Set::<int>::new(|k: int| 0 <= k < at.len() && q(at[k])).len() == Set::<int>::new(
            |i: int| at.contains(i) && q(i),
        ).len(),
        Set::<int>::new(|k: int| 0 <= k < at.len() && q(at[k])).finite(),
{
    let x = Set::<int>::new(|k: int| 0 <= k < at.len() && q(at[k]));
    let y = Set::<int>::new(|i: int| at.contains(i) && q(i));
    let f = |k: int| at[k];
    let all = vstd::set_lib::set_int_range(0, at.len() as int);
    vstd::set_lib::lemma_int_range(0, at.len() as int);
    vstd::set_lib::lemma_len_subset(x, all);
    assert(vstd::relations::injective_on(f, x)) by {
        assert forall|a: int, b: int|
            x.contains(a) && x.contains(b) && #[trigger] f(a) == #[trigger] f(b) implies a == b by {
            if a != b {
                assert(at[a] != at[b]);
            }
        }
    }
    assert forall|i: int| y.contains(i) implies x.map(f).contains(i) by {
        let k = at.index_of(i);
        assert(x.contains(k) && f(k) == i);
    }
    assert forall|i: int| x.map(f).contains(i) implies y.contains(i) by {
        let k = choose|k: int| x.contains(k) && #[trigger] f(k) == i;
        assert(at.contains(at[k]));
    }
    assert(x.map(f) =~= y);
    vstd::set_lib::lemma_map_size(x, y, f);
}

} // verus!
