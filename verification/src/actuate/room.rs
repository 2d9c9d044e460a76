//! The smallest set of models that makes enough room.
//!
//! Unloading two models where one suffices is a bug that looks like caution:
//! as few go as can, and among as few the ones nobody has touched.
use vstd::prelude::*;

use crate::actuate::plan::Resident;
use crate::seqs::{capped, lemma_total_take, total};

verus! {

pub open spec fn cost(r: Resident) -> nat {
    r.estimated_bytes as nat
}

/// The most that `k` models can free of a line from its `i`th on.
pub open spec fn most(line: Seq<Resident>, i: int, k: nat) -> nat
    decreases line.len() - i,
{
    if i < 0 || i >= line.len() || k == 0 {
        0
    } else {
        let without = most(line, i + 1, k);
        let with = cost(line[i]) + most(line, i + 1, (k - 1) as nat);
        if with >= without {
            with
        } else {
            without
        }
    }
}

/// The least number of models, from `k` on, that can free `need` bytes.
pub open spec fn fewest(line: Seq<Resident>, need: nat, k: nat) -> nat
    decreases line.len() - k,
{
    if k >= line.len() || most(line, 0, k) >= need {
        k
    } else {
        fewest(line, need, k + 1)
    }
}

/// The places of the models that go, of a line from its `i`th on: a model goes
/// where the rest of the `k` can still free what is missing.
pub open spec fn places(line: Seq<Resident>, i: int, k: nat, need: int) -> Seq<int>
    decreases line.len() - i,
{
    if i < 0 || i >= line.len() || k == 0 || need <= 0 {
        Seq::empty()
    } else if cost(line[i]) + most(line, i + 1, (k - 1) as nat) >= need {
        seq![i] + places(line, i + 1, (k - 1) as nat, need - cost(line[i]))
    } else {
        places(line, i + 1, k, need)
    }
}

/// The places of the smallest sufficient set.
pub open spec fn going(line: Seq<Resident>, need: nat) -> Seq<int> {
    places(line, 0, fewest(line, need, 0), need as int)
}

/// The models at some places of a line.
pub open spec fn at_places(line: Seq<Resident>, picks: Seq<int>) -> Seq<Resident> {
    picks.map_values(|i: int| line[i])
}

/// What the models at some places of a line free.
pub open spec fn freed(line: Seq<Resident>, picks: Seq<int>) -> nat {
    total(picks, |i: int| cost(line[i]))
}

/// The smallest sufficient set, or nothing where even the whole line is not
/// enough.
pub open spec fn victims(line: Seq<Resident>, need: nat) -> Option<Seq<Resident>> {
    if total(line, |r: Resident| cost(r)) >= need {
        Some(at_places(line, going(line, need)))
    } else {
        None
    }
}

/// Whether places of a line are its own, from `from` on, each once and in
/// order.
pub open spec fn climbs(picks: Seq<int>, from: int, n: int) -> bool {
    &&& forall|a: int| 0 <= a < picks.len() ==> from <= #[trigger] picks[a] < n
    &&& forall|a: int, b: int| 0 <= a < b < picks.len() ==> #[trigger] picks[a] < #[trigger] picks[b]
}

/// Whether places stand no later in line than others: up to where they part
/// they are the same, and there they are earlier, or at their end.
pub open spec fn no_later(a: Seq<int>, b: Seq<int>) -> bool {
    exists|d: int|
        0 <= d <= a.len() && d <= b.len() && #[trigger] a.take(d) == b.take(d) && (d == a.len()
            || (d < b.len() && a[d] < b[d]))
}

/// A sum, from its first element.
proof fn lemma_total_front(s: Seq<int>, f: spec_fn(int) -> nat)
    requires
        s.len() > 0,
    ensures
        total(s, f) == f(s[0]) + total(s.drop_first(), f),
    decreases s.len(),
{
    if s.len() == 1 {
        assert(total(s.drop_last(), f) == 0);
        assert(total(s.drop_first(), f) == 0);
    } else {
        lemma_total_front(s.drop_last(), f);
        assert(s.drop_last().drop_first() =~= s.drop_first().drop_last());
        assert(s.drop_first().last() == s.last());
    }
}

/// No `k` places free more than the most that `k` can.
proof fn lemma_most(line: Seq<Resident>, i: int, k: nat, picks: Seq<int>)
    requires
        0 <= i <= line.len(),
        climbs(picks, i, line.len() as int),
        picks.len() <= k,
    ensures
        freed(line, picks) <= most(line, i, k),
    decreases line.len() - i,
{
    if picks.len() > 0 {
        let f = |i: int| cost(line[i]);
        let rest = picks.drop_first();
        lemma_total_front(picks, f);
        assert(i <= picks[0] < line.len());
        if picks[0] == i {
            assert(climbs(rest, i + 1, line.len() as int)) by {
                assert forall|a: int| 0 <= a < rest.len() implies i + 1 <= #[trigger] rest[a]
                    < line.len() by {
                    assert(rest[a] == picks[a + 1]);
                    assert(picks[0] < picks[a + 1]);
                }
            }
            lemma_most(line, i + 1, (k - 1) as nat, rest);
        } else {
            assert(climbs(picks, i + 1, line.len() as int)) by {
                assert forall|a: int| 0 <= a < picks.len() implies i + 1 <= #[trigger] picks[a]
                    < line.len() by {
                    if a > 0 {
                        assert(picks[0] < picks[a]);
                    }
                }
            }
            lemma_most(line, i + 1, k, picks);
        }
    }
}

/// The places that go are enough, and no more than `k`.
proof fn lemma_places(line: Seq<Resident>, i: int, k: nat, need: int)
    requires
        0 <= i <= line.len(),
        most(line, i, k) >= need,
    ensures
        climbs(places(line, i, k, need), i, line.len() as int),
        places(line, i, k, need).len() <= k,
        freed(line, places(line, i, k, need)) >= need,
    decreases line.len() - i,
{
    let f = |i: int| cost(line[i]);
    if !(i >= line.len() || k == 0 || need <= 0) {
        if cost(line[i]) + most(line, i + 1, (k - 1) as nat) >= need {
            let rest = places(line, i + 1, (k - 1) as nat, need - cost(line[i]));
            lemma_places(line, i + 1, (k - 1) as nat, need - cost(line[i]));
            let all = seq![i] + rest;
            lemma_total_front(all, f);
            assert(all.drop_first() =~= rest);
        } else {
            lemma_places(line, i + 1, k, need);
        }
    }
}

/// Whatever else is enough stands no earlier in line.
proof fn lemma_no_later(line: Seq<Resident>, i: int, k: nat, need: int, picks: Seq<int>)
    requires
        0 <= i <= line.len(),
        climbs(picks, i, line.len() as int),
        picks.len() <= k,
        freed(line, picks) >= need,
    ensures
        no_later(places(line, i, k, need), picks),
    decreases line.len() - i,
{
    let f = |i: int| cost(line[i]);
    let here = places(line, i, k, need);
    if need <= 0 {
        assert(here.take(0) =~= picks.take(0));
    } else if picks.len() == 0 {
        assert(freed(line, picks) == 0);
    } else {
        let rest = picks.drop_first();
        lemma_total_front(picks, f);
        assert(i <= picks[0] < line.len());
        if picks[0] == i {
            assert(climbs(rest, i + 1, line.len() as int)) by {
                assert forall|a: int| 0 <= a < rest.len() implies i + 1 <= #[trigger] rest[a]
                    < line.len() by {
                    assert(rest[a] == picks[a + 1]);
                    assert(picks[0] < picks[a + 1]);
                }
            }
            lemma_most(line, i + 1, (k - 1) as nat, rest);
            let left = need - cost(line[i]);
            lemma_no_later(line, i + 1, (k - 1) as nat, left, rest);
            let after = places(line, i + 1, (k - 1) as nat, left);
            let d = choose|d: int|
                0 <= d <= after.len() && d <= rest.len() && #[trigger] after.take(d) == rest.take(d)
                    && (d == after.len() || (d < rest.len() && after[d] < rest[d]));
            assert(here == seq![i] + after);
            assert(here.take(d + 1) =~= seq![i] + after.take(d));
            assert(picks.take(d + 1) =~= seq![i] + rest.take(d));
            assert(here.take(d + 1) == picks.take(d + 1));
        } else if cost(line[i]) + most(line, i + 1, (k - 1) as nat) >= need {
            assert(here[0] == i);
            assert(here.take(0) =~= picks.take(0));
        } else {
            assert(climbs(picks, i + 1, line.len() as int)) by {
                assert forall|a: int| 0 <= a < picks.len() implies i + 1 <= #[trigger] picks[a]
                    < line.len() by {
                    if a > 0 {
                        assert(picks[0] < picks[a]);
                    }
                }
            }
            lemma_no_later(line, i + 1, k, need, picks);
        }
    }
}

/// The fewest that suffice are no more than there are, they suffice where the
/// most of all do, and fewer do not.
proof fn lemma_fewest(line: Seq<Resident>, need: nat, k: nat)
    requires
        k <= line.len(),
    ensures
        k <= fewest(line, need, k) <= line.len(),
        most(line, 0, line.len()) >= need ==> most(line, 0, fewest(line, need, k)) >= need,
        forall|j: nat| k <= j < fewest(line, need, k) ==> #[trigger] most(line, 0, j) < need,
    decreases line.len() - k,
{
    if !(k >= line.len() || most(line, 0, k) >= need) {
        lemma_fewest(line, need, k + 1);
    }
}

/// All of a line free what it adds up to.
proof fn lemma_most_of_all(line: Seq<Resident>, i: int, k: nat)
    requires
        0 <= i <= line.len(),
        k >= line.len() - i,
    ensures
        most(line, i, k) + total(line.take(i), |r: Resident| cost(r)) == total(
            line,
            |r: Resident| cost(r),
        ),
    decreases line.len() - i,
{
    let f = |r: Resident| cost(r);
    if i == line.len() {
        assert(line.take(i) =~= line);
    } else {
        lemma_total_take(line, f, i);
        lemma_most_of_all(line, i + 1, (k - 1) as nat);
        lemma_most_of_all(line, i + 1, k);
    }
}

/// The smallest sufficient set, least recently used first: what goes is
/// enough; no choice of fewer models is; and no other choice of as few stands
/// earlier in line.
pub proof fn as_few_as_can_go(line: Seq<Resident>, need: nat, picks: Seq<int>)
    requires
        total(line, |r: Resident| cost(r)) >= need,
        climbs(picks, 0, line.len() as int),
    ensures
        victims(line, need) == Some(at_places(line, going(line, need))),
        climbs(going(line, need), 0, line.len() as int),
        freed(line, going(line, need)) >= need,
        picks.len() < going(line, need).len() ==> freed(line, picks) < need,
        picks.len() == going(line, need).len() && freed(line, picks) >= need ==> no_later(
            going(line, need),
            picks,
        ),
{
    let k = fewest(line, need, 0);
    lemma_most_of_all(line, 0, line.len());
    assert(line.take(0).len() == 0);
    lemma_fewest(line, need, 0);
    lemma_places(line, 0, k, need as int);
    if picks.len() < k {
        lemma_most(line, 0, picks.len(), picks);
        assert(most(line, 0, picks.len()) < need);
    }
    if picks.len() <= k && freed(line, picks) >= need {
        lemma_no_later(line, 0, k, need as int, picks);
    }
}

/// What each number of models can free at most, from every place of the line
/// on: the last place first.
fn table(line: &Vec<Resident>) -> (rows: Vec<Vec<u64>>)
    ensures
        rows@.len() == line@.len() + 1,
        forall|j: int|
            0 <= j <= line@.len() ==> (#[trigger] rows@[j])@.len() == line@.len() + 1,
        forall|j: int, k: int|
            0 <= j <= line@.len() && 0 <= k <= line@.len() ==> #[trigger] rows@[j]@[k] == capped(
                most(line@, line@.len() - j, k as nat),
            ),
{
    let n: usize = line.len();
    let mut rows: Vec<Vec<u64>> = Vec::new();
    let mut last: Vec<u64> = Vec::new();
    let mut k: usize = 0;
    while k < n
        invariant
            k <= n,
            n == line@.len(),
            last@.len() == k,
            forall|x: int| 0 <= x < k ==> #[trigger] last@[x] == 0,
        decreases n - k,
    {
        last.push(0);
        k += 1;
    }
    last.push(0);
    rows.push(last);
    let mut j: usize = 0;
    while j < n
        invariant
            j <= n,
            n == line@.len(),
            rows@.len() == j + 1,
            forall|x: int| 0 <= x <= j ==> (#[trigger] rows@[x])@.len() == n + 1,
            forall|x: int, y: int|
                0 <= x <= j && 0 <= y <= n ==> #[trigger] rows@[x]@[y] == capped(
                    most(line@, n - x, y as nat),
                ),
        decreases n - j,
    {
        let i: usize = n - 1 - j;
        let here: u64 = line[i].estimated_bytes;
        let mut row: Vec<u64> = Vec::new();
        row.push(0);
        let mut k: usize = 1;
        while k < n
            invariant
                1 <= k,
                k <= n || n == 0,
                j < n,
                n == line@.len(),
                i == n - 1 - j,
                here == line@[i as int].estimated_bytes,
                rows@.len() == j + 1,
                rows@[j as int]@.len() == n + 1,
                forall|y: int|
                    0 <= y <= n ==> #[trigger] rows@[j as int]@[y] == capped(
                        most(line@, n - j, y as nat),
                    ),
                row@.len() == k,
                forall|y: int|
                    0 <= y < k ==> #[trigger] row@[y] == capped(most(line@, i as int, y as nat)),
            decreases n - k,
        {
            let without: u64 = rows[j][k];
            let with: u64 = here.saturating_add(rows[j][k - 1]);
            row.push(if with >= without { with } else { without });
            k += 1;
        }
        let without: u64 = rows[j][n];
        let with: u64 = here.saturating_add(rows[j][n - 1]);
        row.push(if with >= without { with } else { without });
        rows.push(row);
        j += 1;
    }
    rows
}

/// The smallest sufficient set, or `None` when even the whole line is not
/// enough.
pub(crate) fn victims_for(need: u64, line: Vec<Resident>) -> (r: Option<Vec<Resident>>)
    ensures
        match r {
            Some(v) => victims(line@, need as nat) == Some(v@),
            None => victims(line@, need as nat) is None,
        },
{
    let n: usize = line.len();
    let rows = table(&line);
    proof {
        lemma_most_of_all(line@, 0, line@.len());
        assert(line@.take(0).len() == 0);
        assert(rows@[n as int]@[n as int] == capped(most(line@, 0, line@.len())));
    }
    if rows[n][n] < need {
        return None;
    }
    let mut k: usize = 0;
    while k < n && rows[n][k] < need
        invariant
            k <= n,
            n == line@.len(),
            rows@.len() == n + 1,
            rows@[n as int]@.len() == n + 1,
            forall|y: int|
                0 <= y <= n ==> #[trigger] rows@[n as int]@[y] == capped(most(line@, 0, y as nat)),
            fewest(line@, need as nat, 0) == fewest(line@, need as nat, k as nat),
        decreases n - k,
    {
        k += 1;
    }
    let ghost all = going(line@, need as nat);
    let mut out: Vec<Resident> = Vec::new();
    let mut left: u64 = need;
    let mut i: usize = 0;
    let ghost mut taken: Seq<int> = Seq::empty();
    proof {
        assert(taken + places(line@, 0, k as nat, left as int) =~= all);
        assert(out@ =~= at_places(line@, taken));
    }
    while i < n && k > 0 && left > 0
        invariant
            i <= n,
            k <= n,
            n == line@.len(),
            rows@.len() == n + 1,
            forall|j: int| 0 <= j <= n ==> (#[trigger] rows@[j])@.len() == n + 1,
            forall|j: int, y: int|
                0 <= j <= n && 0 <= y <= n ==> #[trigger] rows@[j]@[y] == capped(
                    most(line@, n - j, y as nat),
                ),
            taken + places(line@, i as int, k as nat, left as int) == all,
            out@ == at_places(line@, taken),
        decreases n - i,
    {
        let here: u64 = line[i].estimated_bytes;
        let rest: u64 = rows[n - 1 - i][k - 1];
        if here.saturating_add(rest) >= left {
            let ghost was = taken;
            let ghost before = left as int;
            out.push(line[i].clone());
            left = left.saturating_sub(here);
            k -= 1;
            proof {
                taken = taken.push(i as int);
                assert(out@ =~= at_places(line@, taken));
                assert(taken + places(line@, i + 1, k as nat, before - here) =~= was + (seq![
                    i as int,
                ] + places(line@, i + 1, k as nat, before - here)));
            }
        }
        i += 1;
    }
    proof {
        assert(taken =~= all);
    }
    Some(out)
}

} // verus!
