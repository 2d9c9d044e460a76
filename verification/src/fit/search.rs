//! The cheapest assignment of models to providers, found exhaustively.
//!
//! Exhaustive rather than greedy: *why not the other one* has to be
//! answerable. The space is small by construction, and [`MAX_ASSIGNMENTS`] is
//! a backstop, not a sampling strategy. If it is ever reached the plan says
//! so, because a silent truncation reads as *nothing fits* when the truth is
//! *we stopped looking*.
//!
//! A provider's count ceiling is checked against the set's own members. What a
//! provider evicts of its own is its business and not modelled.
use vstd::prelude::*;

use super::{
    admissible, charge, count_limit_for, limit_for, may_admit, overhead_charge, overheads_for,
    overheads_of, places_on, providers_of, used_by, Assigned, Inputs, Offer, Overhead,
};
use crate::budget::Budget;
use crate::config::all_kinds;
use crate::estimate::baseline::Baseline;
use crate::provider::{ProviderKind, State};
use crate::seqs::{
    lemma_filter_take, lemma_same_members, lemma_total_permuted, lemma_total_take, total,
};

verus! {

/// A backstop against a pathological input, never a sampling strategy: six
/// models with four candidates each.
pub const MAX_ASSIGNMENTS: usize = 4096;

#[derive(Debug)]
pub struct Outcome {
    /// The cheapest assignment and its total charged bytes.
    pub best: Option<(Vec<Assigned>, u64)>,
    /// The next cheapest, for the *not chosen* line.
    pub runner_up: Option<(Vec<Assigned>, u64)>,
    /// Providers the winning assignment places anything on.
    pub providers_used: Vec<ProviderKind>,
    /// Set when every assignment was rejected by a count ceiling, which is a
    /// different refusal from "does not fit".
    pub ceiling_refusal: Option<(ProviderKind, u32, usize)>,
    /// The search stopped early. Never silently.
    pub capped: bool,
}

/// Total bytes an assignment adds to the machine: models plus provider
/// overheads, each charged once and only when not already paid.
pub open spec fn price(
    a: Seq<Assigned>,
    baselines: Seq<Baseline>,
    running: Seq<ProviderKind>,
) -> nat {
    total(a, |x: Assigned| charge(x)) + total(
        overheads_of(a, baselines, running),
        |o: Overhead| overhead_charge(o),
    )
}

/// Total bytes an assignment adds to the machine.
pub fn cost(assignment: &[Assigned], i: &Inputs) -> (c: u64)
    requires
        price(assignment@, i.baselines@, i.running@) <= u64::MAX,
    ensures
        c == price(assignment@, i.baselines@, i.running@),
{
    let ghost f = |x: Assigned| charge(x);
    let ghost g = |o: Overhead| overhead_charge(o);
    let mut sum: u64 = 0;
    let mut k: usize = 0;
    while k < assignment.len()
        invariant
            k <= assignment@.len(),
            f == (|x: Assigned| charge(x)),
            total(assignment@, f) <= u64::MAX,
            sum == total(assignment@.take(k as int), f),
        decreases assignment.len() - k,
    {
        proof {
            lemma_total_take(assignment@, f, k as int);
        }
        sum = sum + assignment[k].charged_bytes();
        k += 1;
    }
    proof {
        assert(assignment@.take(k as int) =~= assignment@);
    }
    let overheads = overheads_for(assignment, i.baselines, i.running);
    let ghost models = sum;
    let mut j: usize = 0;
    while j < overheads.len()
        invariant
            j <= overheads@.len(),
            g == (|o: Overhead| overhead_charge(o)),
            models + total(overheads@, g) <= u64::MAX,
            sum == models + total(overheads@.take(j as int), g),
        decreases overheads.len() - j,
    {
        proof {
            lemma_total_take(overheads@, g, j as int);
        }
        sum = sum + overheads[j].charged_bytes();
        j += 1;
    }
    proof {
        assert(overheads@.take(j as int) =~= overheads@);
    }
    sum
}

/// How many members an assignment places on a provider.
pub open spec fn wanted_on(a: Seq<Assigned>, p: ProviderKind) -> nat {
    a.filter(|x: Assigned| x.candidate.provider == p).len()
}

/// Whether a provider's count ceiling is exceeded.
pub open spec fn over(a: Seq<Assigned>, budgets: Seq<Budget>, p: ProviderKind) -> bool {
    limit_for(budgets, p) matches Some(l) && wanted_on(a, p) > l
}

/// The first provider, in reporting order, whose count ceiling refuses an
/// assignment: what it allows and what was wanted.
pub open spec fn refusal(a: Seq<Assigned>, budgets: Seq<Budget>) -> Option<
    (ProviderKind, u32, nat),
> {
    match crate::seqs::first_match(all_kinds(), |p: ProviderKind| over(a, budgets, p)) {
        Some(p) => Some((p, limit_for(budgets, p)->0, wanted_on(a, p))),
        None => None,
    }
}

/// Every provider's count ceiling respected, or the one that refused.
fn within_ceilings(assignment: &[Assigned], budgets: &[Budget]) -> (r: Result<
    (),
    (ProviderKind, u32, usize),
>)
    ensures
        match r {
            Ok(()) => refusal(assignment@, budgets@) is None,
            Err((p, allowed, wanted)) => refusal(assignment@, budgets@) == Some(
                (p, allowed, wanted as nat),
            ),
        },
{
    let kinds = [
        ProviderKind::LmStudio,
        ProviderKind::Ollama,
        ProviderKind::LlamaCpp,
        ProviderKind::Vllm,
    ];
    let ghost q = |p: ProviderKind| over(assignment@, budgets@, p);
    let mut i: usize = 0;
    while i < 4
        invariant
            i <= 4,
            kinds@ == all_kinds(),
            q == (|p: ProviderKind| over(assignment@, budgets@, p)),
            forall|k: int| 0 <= k < i ==> !q(#[trigger] all_kinds()[k]),
        decreases 4 - i,
    {
        let p = kinds[i];
        let ghost on = |x: Assigned| x.candidate.provider == p;
        let mut wanted: usize = 0;
        let mut k: usize = 0;
        while k < assignment.len()
            invariant
                k <= assignment@.len(),
                on == (|x: Assigned| x.candidate.provider == p),
                wanted == assignment@.take(k as int).filter(on).len(),
                wanted <= k,
            decreases assignment.len() - k,
        {
            proof {
                lemma_filter_take(assignment@, on, k as int);
            }
            if assignment[k].candidate.provider == p {
                wanted += 1;
            }
            k += 1;
        }
        proof {
            assert(assignment@.take(k as int) =~= assignment@);
            assert(all_kinds()[i as int] == p);
        }
        if let Some(limit) = count_limit_for(budgets, p) {
            if wanted as u64 > limit as u64 {
                proof {
                    crate::seqs::lemma_first_index_is(all_kinds(), q, i as int);
                }
                return Err((p, limit, wanted));
            }
        }
        i += 1;
    }
    proof {
        crate::seqs::lemma_first_index_is(all_kinds(), q, 4);
    }
    Ok(())
}

/// The offers of a model that may be admitted on.
pub open spec fn usable(offers: Seq<Offer>) -> Seq<Offer> {
    offers.filter(|o: Offer| may_admit(o))
}

/// How many assignments there are: one usable offer for each model.
pub open spec fn ways(c: Seq<Seq<Offer>>) -> nat
    decreases c.len(),
{
    if c.len() == 0 {
        1
    } else {
        ways(c.drop_last()) * c.last().len()
    }
}

/// The `n`th assignment, read off `n` in mixed radix, the first model the
/// least significant digit.
pub open spec fn nth(c: Seq<Seq<Offer>>, n: nat) -> Seq<Offer>
    decreases c.len(),
{
    if c.len() == 0 {
        Seq::empty()
    } else {
        seq![c[0][(n % c[0].len()) as int]] + nth(c.drop_first(), n / c[0].len())
    }
}

/// The number of assignments that are looked at.
pub open spec fn looked_at(c: Seq<Seq<Offer>>) -> nat {
    if ways(c) > MAX_ASSIGNMENTS {
        MAX_ASSIGNMENTS as nat
    } else {
        ways(c)
    }
}

/// An offer taken for a model.
pub open spec fn placing(model: String, o: Offer) -> Assigned {
    Assigned {
        model,
        candidate: o.0,
        estimate: o.1,
        resident: o.0.state == State::Loaded,
    }
}

/// The `n`th assignment of the models.
pub open spec fn assignment(models: Seq<String>, c: Seq<Seq<Offer>>, n: nat) -> Seq<Assigned> {
    Seq::new(nth(c, n).len(), |k: int| placing(models[k], nth(c, n)[k]))
}

/// What each assignment that is looked at costs, unless a ceiling refuses it.
pub open spec fn costs(
    models: Seq<String>,
    c: Seq<Seq<Offer>>,
    baselines: Seq<Baseline>,
    running: Seq<ProviderKind>,
    budgets: Seq<Budget>,
) -> Seq<Option<nat>> {
    Seq::new(
        looked_at(c),
        |n: int|
            if refusal(assignment(models, c, n as nat), budgets) is Some {
                None
            } else {
                Some(price(assignment(models, c, n as nat), baselines, running))
            },
    )
}

/// Whether `n` is the cheapest of what is allowed, the first of equals.
pub open spec fn is_cheapest(costs: Seq<Option<nat>>, n: int) -> bool {
    &&& 0 <= n < costs.len()
    &&& costs[n] is Some
    &&& forall|m: int|
        0 <= m < costs.len() && m != n && (#[trigger] costs[m]) is Some ==> costs[n]->0 < costs[m]->0
            || (costs[n]->0 == costs[m]->0 && n < m)
}

/// Whether `n` is the cheapest of what is allowed but for `best`.
pub open spec fn is_next(costs: Seq<Option<nat>>, best: int, n: int) -> bool {
    &&& 0 <= n < costs.len()
    &&& n != best
    &&& costs[n] is Some
    &&& forall|m: int|
        0 <= m < costs.len() && m != n && m != best && (#[trigger] costs[m]) is Some ==> costs[n]->0
            < costs[m]->0 || (costs[n]->0 == costs[m]->0 && n < m)
}

/// The cheapest allowed assignment, where any is allowed.
pub open spec fn winner(costs: Seq<Option<nat>>) -> Option<int> {
    if exists|n: int| is_cheapest(costs, n) {
        Some(choose|n: int| is_cheapest(costs, n))
    } else {
        None
    }
}

/// The next cheapest, where more than one is allowed.
pub open spec fn second(costs: Seq<Option<nat>>) -> Option<int> {
    match winner(costs) {
        Some(best) => if exists|n: int| is_next(costs, best, n) {
            Some(choose|n: int| is_next(costs, best, n))
        } else {
            None
        },
        None => None,
    }
}

/// Two places that hold the best two of the costs are the winner and the second.
proof fn lemma_two_best(costs: Seq<Option<nat>>, best: Option<int>, next: Option<int>)
    requires
        two_best(costs, best, next),
    ensures
        winner(costs) == best,
        second(costs) == next,
{
    match best {
        None => {
            if exists|n: int| is_cheapest(costs, n) {
                let n = choose|n: int| is_cheapest(costs, n);
                assert(costs[n] is None);
            }
        },
        Some(b) => {
            assert(is_cheapest(costs, b));
            let w = winner(costs)->0;
            assert(is_cheapest(costs, w));
            assert(w == b) by {
                if w != b {
                    assert(costs[w] is Some && costs[b] is Some);
                }
            }
            match next {
                None => {
                    if exists|n: int| is_next(costs, b, n) {
                        let n = choose|n: int| is_next(costs, b, n);
                        assert(costs[n] is None);
                    }
                },
                Some(m) => {
                    assert(is_next(costs, b, m));
                    let v = second(costs)->0;
                    assert(is_next(costs, b, v));
                    assert(v == m) by {
                        if v != m {
                            assert(costs[v] is Some && costs[m] is Some);
                        }
                    }
                },
            }
        },
    }
}

/// Whether `best` and `next` are the best two places of the costs.
spec fn two_best(costs: Seq<Option<nat>>, best: Option<int>, next: Option<int>) -> bool {
    match best {
        None => next is None && forall|m: int| 0 <= m < costs.len() ==> (#[trigger] costs[m]) is None,
        Some(b) => is_cheapest(costs, b) && match next {
            None => forall|m: int| 0 <= m < costs.len() && m != b ==> (#[trigger] costs[m]) is None,
            Some(m) => is_next(costs, b, m),
        },
    }
}

/// The best two of one cost more.
spec fn step(
    costs: Seq<Option<nat>>,
    best: Option<int>,
    next: Option<int>,
    c: Option<nat>,
) -> (Option<int>, Option<int>) {
    let n = costs.len() as int;
    match (c, best) {
        (None, _) => (best, next),
        (Some(c), None) => (Some(n), None),
        (Some(c), Some(b)) => if costs[b]->0 <= c {
            match next {
                Some(m) if costs[m]->0 <= c => (best, next),
                _ => (best, Some(n)),
            }
        } else {
            (Some(n), best)
        },
    }
}

proof fn lemma_step(
    costs: Seq<Option<nat>>,
    best: Option<int>,
    next: Option<int>,
    c: Option<nat>,
)
    requires
        two_best(costs, best, next),
    ensures
        two_best(costs.push(c), step(costs, best, next, c).0, step(costs, best, next, c).1),
{
    let all = costs.push(c);
    let (b, m) = step(costs, best, next, c);
    assert forall|k: int| 0 <= k < costs.len() implies #[trigger] all[k] == costs[k] by {}
    assert(all[costs.len() as int] == c);
    if let Some(b0) = best {
        assert(all[b0] == costs[b0]);
    }
    if let Some(m0) = next {
        assert(all[m0] == costs[m0]);
    }
}

/// Something is cheapest as soon as anything is allowed, and a second follows
/// as soon as anything else is.
pub proof fn the_search_finds_the_best_two(costs: Seq<Option<nat>>)
    ensures
        match winner(costs) {
            Some(n) => is_cheapest(costs, n) && match second(costs) {
                Some(m) => is_next(costs, n, m),
                None => forall|m: int|
                    0 <= m < costs.len() && m != n ==> (#[trigger] costs[m]) is None,
            },
            None => forall|m: int| 0 <= m < costs.len() ==> (#[trigger] costs[m]) is None,
        },
{
    let (b, m) = lemma_two_best_exist(costs);
    lemma_two_best(costs, b, m);
}

proof fn lemma_two_best_exist(costs: Seq<Option<nat>>) -> (r: (Option<int>, Option<int>))
    ensures
        two_best(costs, r.0, r.1),
    decreases costs.len(),
{
    if costs.len() == 0 {
        (None, None)
    } else {
        let front = costs.drop_last();
        let (b, m) = lemma_two_best_exist(front);
        lemma_step(front, b, m, costs.last());
        assert(front.push(costs.last()) =~= costs);
        step(front, b, m, costs.last())
    }
}

/// Whether a reported assignment is the one at a place of the costs.
pub open spec fn reported(
    r: Option<(Vec<Assigned>, u64)>,
    models: Seq<String>,
    c: Seq<Seq<Offer>>,
    costs: Seq<Option<nat>>,
    n: Option<int>,
) -> bool {
    match (r, n) {
        (Some((a, price)), Some(n)) => a@ == assignment(models, c, n as nat) && price
            == costs[n]->0,
        (None, None) => true,
        _ => false,
    }
}

/// The names of the models.
pub open spec fn named(options: Seq<(String, Vec<Offer>)>) -> Seq<String> {
    options.map_values(|o: (String, Vec<Offer>)| o.0)
}

/// The usable offers of every model.
pub open spec fn choices(options: Seq<(String, Vec<Offer>)>) -> Seq<Seq<Offer>> {
    options.map_values(|o: (String, Vec<Offer>)| usable(o.1@))
}

/// Every allowed assignment costs a number of bytes that 64 bits can hold.
pub open spec fn all_countable(costs: Seq<Option<nat>>) -> bool {
    forall|n: int|
        0 <= n < costs.len() ==> ((#[trigger] costs[n]) matches Some(c) ==> c <= u64::MAX)
}

/// The costs of a search.
pub open spec fn searched(options: Seq<(String, Vec<Offer>)>, i: Inputs) -> Seq<Option<nat>> {
    costs(named(options), choices(options), i.baselines@, i.running@, i.budgets@)
}

/// Whether an outcome is the answer to a search.
pub open spec fn found(options: Seq<(String, Vec<Offer>)>, i: Inputs, out: Outcome) -> bool {
    let c = choices(options);
    let prices = searched(options, i);
    &&& reported(out.best, named(options), c, prices, winner(prices))
    &&& reported(out.runner_up, named(options), c, prices, second(prices))
    &&& out.providers_used@ == match out.best {
        Some((a, _)) => used_by(a@),
        None => Seq::empty(),
    }
    &&& out.capped == (ways(c) > MAX_ASSIGNMENTS)
    &&& match out.ceiling_refusal {
        Some((p, allowed, wanted)) => out.best is None && ways(c) > 0 && refusal(
            assignment(named(options), c, 0),
            i.budgets@,
        ) == Some((p, allowed, wanted as nat)),
        None => out.best is Some || ways(c) == 0,
    }
}

/// The offers of a model that may be admitted on.
fn admissible_options(priced: &Vec<Offer>) -> (r: Vec<Offer>)
    ensures
        r@ == usable(priced@),
{
    let ghost p = |o: Offer| may_admit(o);
    let mut out: Vec<Offer> = Vec::new();
    let mut k: usize = 0;
    while k < priced.len()
        invariant
            k <= priced@.len(),
            p == (|o: Offer| may_admit(o)),
            out@ == priced@.take(k as int).filter(p),
        decreases priced.len() - k,
    {
        proof {
            lemma_filter_take(priced@, p, k as int);
        }
        if admissible(&priced[k].0, &priced[k].1) {
            out.push((priced[k].0.clone(), priced[k].1));
        }
        k += 1;
    }
    proof {
        assert(priced@.take(k as int) =~= priced@);
    }
    out
}

/// A number, or `most` where it is greater.
spec fn at_most(n: nat, most: nat) -> nat {
    if n > most {
        most
    } else {
        n
    }
}

proof fn lemma_at_most_product(a: nat, b: nat, most: nat)
    requires
        most >= 1,
    ensures
        at_most(at_most(a, most) * at_most(b, most), most) == at_most(a * b, most),
        at_most(a, most) * at_most(b, most) <= most * most,
{
    let x = at_most(a, most);
    let y = at_most(b, most);
    assert(x * y <= most * most) by (nonlinear_arith)
        requires
            x <= most,
            y <= most,
    ;
    if a == 0 || b == 0 {
        assert(x * y == 0 && a * b == 0) by (nonlinear_arith)
            requires
                (x == 0 && a == 0) || (y == 0 && b == 0),
        ;
    } else if a > most || b > most {
        assert(x * y >= most && a * b >= most) by (nonlinear_arith)
            requires
                (x == most && a > most && y >= 1 && b >= 1) || (y == most && b > most && x >= 1 && a
                    >= 1),
        ;
    }
}

/// How many assignments there are, counted no further than one past the most
/// that are looked at.
fn count_ways(lists: &Vec<Vec<Offer>>, Ghost(c): Ghost<Seq<Seq<Offer>>>) -> (n: usize)
    requires
        lists@.len() == c.len(),
        forall|k: int| 0 <= k < c.len() ==> (#[trigger] lists@[k])@ == c[k],
    ensures
        n == at_most(ways(c), (MAX_ASSIGNMENTS + 1) as nat),
{
    let most: usize = MAX_ASSIGNMENTS + 1;
    let mut n: usize = 1;
    let mut k: usize = 0;
    proof {
        assert(c.take(0).len() == 0);
    }
    while k < lists.len()
        invariant
            k <= lists@.len(),
            lists@.len() == c.len(),
            forall|k: int| 0 <= k < c.len() ==> (#[trigger] lists@[k])@ == c[k],
            most == MAX_ASSIGNMENTS + 1,
            n == at_most(ways(c.take(k as int)), most as nat),
        decreases lists.len() - k,
    {
        let width: usize = if lists[k].len() > most {
            most
        } else {
            lists[k].len()
        };
        proof {
            assert(c.take(k + 1).drop_last() =~= c.take(k as int));
            assert(c.take(k + 1).last() == lists@[k as int]@);
            lemma_at_most_product(ways(c.take(k as int)), c[k as int].len(), most as nat);
            assert(most * most == 4097 * 4097);
        }
        let product: usize = n * width;
        n = if product > most {
            most
        } else {
            product
        };
        k += 1;
    }
    proof {
        assert(c.take(k as int) =~= c);
    }
    n
}

/// No model is without a usable offer when there is any assignment.
proof fn lemma_ways_positive(c: Seq<Seq<Offer>>)
    requires
        ways(c) > 0,
    ensures
        forall|k: int| 0 <= k < c.len() ==> (#[trigger] c[k]).len() > 0,
    decreases c.len(),
{
    if c.len() > 0 {
        let front = c.drop_last();
        assert(ways(front) > 0 && c.last().len() > 0) by {
            if ways(front) == 0 || c.last().len() == 0 {
                assert(ways(front) * c.last().len() == 0) by (nonlinear_arith)
                    requires
                        ways(front) == 0 || c.last().len() == 0,
                ;
            }
        }
        lemma_ways_positive(front);
        assert forall|k: int| 0 <= k < c.len() implies (#[trigger] c[k]).len() > 0 by {
            if k < front.len() {
                assert(c[k] == front[k]);
            }
        }
    }
}

/// The `n`th assignment.
fn place(
    options: &[(String, Vec<Offer>)],
    lists: &Vec<Vec<Offer>>,
    n: usize,
    Ghost(c): Ghost<Seq<Seq<Offer>>>,
) -> (a: Vec<Assigned>)
    requires
        lists@.len() == c.len(),
        options@.len() == c.len(),
        forall|k: int| 0 <= k < c.len() ==> (#[trigger] lists@[k])@ == c[k],
        forall|k: int| 0 <= k < c.len() ==> (#[trigger] c[k]).len() > 0,
    ensures
        a@ == assignment(named(options@), c, n as nat),
{
    let mut rest: usize = n;
    let mut out: Vec<Assigned> = Vec::new();
    let mut slot: usize = 0;
    let ghost mut picks: Seq<Offer> = Seq::empty();
    proof {
        assert(c.skip(0) =~= c);
        assert(picks + nth(c, n as nat) =~= nth(c, n as nat));
    }
    while slot < lists.len()
        invariant
            slot <= lists@.len(),
            lists@.len() == c.len(),
            options@.len() == c.len(),
            forall|k: int| 0 <= k < c.len() ==> (#[trigger] lists@[k])@ == c[k],
            forall|k: int| 0 <= k < c.len() ==> (#[trigger] c[k]).len() > 0,
            picks.len() == slot,
            out@.len() == slot,
            nth(c, n as nat) == picks + nth(c.skip(slot as int), rest as nat),
            forall|k: int|
                0 <= k < slot ==> #[trigger] out@[k] == placing(named(options@)[k], picks[k]),
        decreases lists.len() - slot,
    {
        let list = &lists[slot];
        proof {
            assert(c[slot as int].len() > 0);
            assert(list@ == c[slot as int]);
        }
        let pick: usize = rest % list.len();
        let ghost was = rest;
        rest = rest / list.len();
        let (candidate, estimate) = (&list[pick].0, list[pick].1);
        out.push(
            Assigned {
                model: options[slot].0.clone(),
                candidate: candidate.clone(),
                estimate,
                resident: candidate.state == State::Loaded,
            },
        );
        proof {
            let tail = c.skip(slot as int);
            assert(tail[0] == c[slot as int]);
            assert(tail.drop_first() =~= c.skip(slot + 1));
            let chosen = c[slot as int][pick as int];
            assert(nth(tail, was as nat) == seq![chosen] + nth(c.skip(slot + 1), rest as nat));
            let before = picks;
            picks = picks.push(chosen);
            assert(before + (seq![chosen] + nth(c.skip(slot + 1), rest as nat)) =~= picks + nth(
                c.skip(slot + 1),
                rest as nat,
            ));
            assert(out@[slot as int] == placing(named(options@)[slot as int], chosen));
        }
        slot += 1;
    }
    proof {
        assert(c.skip(slot as int).len() == 0);
        assert(nth(c, n as nat) =~= picks);
        assert(out@ =~= assignment(named(options@), c, n as nat));
    }
    out
}

/// Enumerate, filter, price, and keep the best two.
pub fn cheapest(options: &[(String, Vec<Offer>)], i: &Inputs) -> (out: Outcome)
    requires
        all_countable(searched(options@, *i)),
    ensures
        found(options@, *i, out),
{
    let ghost c = choices(options@);
    let ghost models = named(options@);
    let ghost prices = searched(options@, *i);
    let mut lists: Vec<Vec<Offer>> = Vec::new();
    let mut k: usize = 0;
    while k < options.len()
        invariant
            k <= options@.len(),
            c == choices(options@),
            lists@.len() == k,
            forall|j: int| 0 <= j < k ==> (#[trigger] lists@[j])@ == c[j],
        decreases options.len() - k,
    {
        lists.push(admissible_options(&options[k].1));
        k += 1;
    }
    let total = count_ways(&lists, Ghost(c));
    let capped = total > MAX_ASSIGNMENTS;
    let limit: usize = if capped {
        MAX_ASSIGNMENTS
    } else {
        total
    };
    proof {
        assert(limit == looked_at(c));
        if ways(c) > 0 {
            lemma_ways_positive(c);
        }
        assert(prices.len() == limit);
    }
    let mut best: Option<(Vec<Assigned>, u64)> = None;
    let mut runner_up: Option<(Vec<Assigned>, u64)> = None;
    let mut refused: Option<(ProviderKind, u32, usize)> = None;
    let ghost mut b: Option<int> = None;
    let ghost mut m: Option<int> = None;
    let mut n: usize = 0;
    while n < limit
        invariant
            n <= limit,
            limit == prices.len(),
            c == choices(options@),
            models == named(options@),
            prices == searched(options@, *i),
            all_countable(prices),
            lists@.len() == c.len(),
            options@.len() == c.len(),
            forall|j: int| 0 <= j < c.len() ==> (#[trigger] lists@[j])@ == c[j],
            limit > 0 ==> forall|j: int| 0 <= j < c.len() ==> (#[trigger] c[j]).len() > 0,
            two_best(prices.take(n as int), b, m),
            reported(best, models, c, prices, b),
            reported(runner_up, models, c, prices, m),
            b is None && n > 0 ==> refused is Some,
            match refused {
                Some((p, allowed, wanted)) => b is None ==> refusal(
                    assignment(models, c, 0),
                    i.budgets@,
                ) == Some((p, allowed, wanted as nat)),
                None => true,
            },
            refused is Some ==> n > 0,
            b is Some ==> b->0 < n,
            m is Some ==> m->0 < n,
        decreases limit - n,
    {
        let assigned = place(options, &lists, n, Ghost(c));
        let ghost front = prices.take(n as int);
        proof {
            assert(prices.take(n + 1) =~= front.push(prices[n as int]));
            lemma_step(front, b, m, prices[n as int]);
            if let Some(b0) = b {
                assert(front[b0] == prices[b0]);
            }
            if let Some(m0) = m {
                assert(front[m0] == prices[m0]);
            }
        }
        match within_ceilings(assigned.as_slice(), i.budgets) {
            Err(r) => {
                // Keep the first ceiling that refused, so a set that no
                // assignment satisfies can say which provider stood in the way.
                if refused.is_none() {
                    refused = Some(r);
                }
            },
            Ok(()) => {
                proof {
                    assert(prices[n as int] is Some);
                }
                let price = cost(assigned.as_slice(), i);
                let ghost (nb, nm) = step(front, b, m, prices[n as int]);
                let cheaper = match &best {
                    Some((_, least)) => price < *least,
                    None => true,
                };
                if cheaper {
                    runner_up = best;
                    best = Some((assigned, price));
                } else {
                    let nearer = match &runner_up {
                        Some((_, least)) => price < *least,
                        None => true,
                    };
                    if nearer {
                        runner_up = Some((assigned, price));
                    }
                }
                proof {
                    b = nb;
                    m = nm;
                }
            },
        }
        n += 1;
    }
    proof {
        assert(prices.take(n as int) =~= prices);
        lemma_two_best(prices, b, m);
    }
    let providers_used = match &best {
        Some((a, _)) => providers_of(a.as_slice()),
        None => Vec::new(),
    };
    let ceiling_refusal = match &best {
        Some(_) => None,
        None => refused,
    };
    Outcome { best, runner_up, providers_used, ceiling_refusal, capped }
}

/// The choices of the first model come before those of the rest.
proof fn lemma_ways_front(c: Seq<Seq<Offer>>)
    requires
        c.len() > 0,
    ensures
        ways(c) == c[0].len() * ways(c.drop_first()),
    decreases c.len(),
{
    if c.len() == 1 {
        assert(ways(c.drop_last()) == 1);
        assert(ways(c.drop_first()) == 1);
        assert(c.last() == c[0]);
    } else {
        let front = c.drop_last();
        let back = c.drop_first();
        lemma_ways_front(front);
        assert(front.drop_first() =~= back.drop_last());
        assert(back.last() == c.last());
        let w = c[0].len();
        let m = ways(back.drop_last());
        let l = c.last().len();
        assert(w * m * l == w * (m * l)) by (nonlinear_arith);
    }
}

/// The numbering reaches every assignment: whichever usable offer is taken for
/// each model, some number below their count reads off that choice.
pub proof fn every_assignment_is_numbered(c: Seq<Seq<Offer>>, picks: Seq<int>) -> (n: nat)
    requires
        picks.len() == c.len(),
        forall|k: int| 0 <= k < c.len() ==> 0 <= #[trigger] picks[k] < c[k].len(),
    ensures
        n < ways(c),
        nth(c, n).len() == c.len(),
        forall|k: int| 0 <= k < c.len() ==> #[trigger] nth(c, n)[k] == c[k][picks[k]],
    decreases c.len(),
{
    if c.len() == 0 {
        0
    } else {
        let rest = c.drop_first();
        let others = picks.drop_first();
        assert forall|k: int| 0 <= k < rest.len() implies 0 <= #[trigger] others[k]
            < rest[k].len() by {
            assert(others[k] == picks[k + 1] && rest[k] == c[k + 1]);
        }
        let m = every_assignment_is_numbered(rest, others);
        let w = c[0].len();
        let p = picks[0];
        assert(0 <= p < w);
        let n = (p + w * m) as nat;
        lemma_ways_front(c);
        let all = ways(rest);
        assert(n < w * all && n % w == p && n / w == m) by {
            assert(p + w * m < w * all) by (nonlinear_arith)
                requires
                    0 <= p < w,
                    m < all,
            ;
            vstd::arithmetic::div_mod::lemma_fundamental_div_mod_converse(
                n as int,
                w as int,
                m as int,
                p,
            );
        }
        assert forall|k: int| 0 <= k < c.len() implies #[trigger] nth(c, n)[k]
            == c[k][picks[k]] by {
            if k > 0 {
                assert(nth(c, n)[k] == nth(rest, m)[k - 1]);
                assert(rest[k - 1] == c[k] && others[k - 1] == picks[k]);
            }
        }
        n
    }
}

/// Assignments that place on the same providers have the same overheads.
proof fn lemma_same_overheads(
    a: Seq<Assigned>,
    b: Seq<Assigned>,
    baselines: Seq<Baseline>,
    running: Seq<ProviderKind>,
)
    requires
        forall|p: ProviderKind| #[trigger] places_on(a, p) == places_on(b, p),
    ensures
        overheads_of(a, baselines, running) == overheads_of(b, baselines, running),
{
    assert((|p: ProviderKind| places_on(a, p)) =~= (|p: ProviderKind| places_on(b, p)));
}

/// One more model on a provider that is used already costs what the model
/// does: the provider's own cost is not charged again.
pub proof fn one_more_model_costs_itself(
    a: Seq<Assigned>,
    x: Assigned,
    baselines: Seq<Baseline>,
    running: Seq<ProviderKind>,
)
    requires
        places_on(a, x.candidate.provider),
    ensures
        price(a.push(x), baselines, running) == price(a, baselines, running) + charge(x),
{
    let b = a.push(x);
    assert(b.drop_last() =~= a);
    assert forall|p: ProviderKind| #[trigger] places_on(b, p) == places_on(a, p) by {
        if places_on(a, p) {
            let k = choose|k: int| 0 <= k < a.len() && (#[trigger] a[k]).candidate.provider == p;
            assert(b[k] == a[k]);
        }
        if places_on(b, p) {
            let k = choose|k: int| 0 <= k < b.len() && (#[trigger] b[k]).candidate.provider == p;
            if k < a.len() {
                assert(a[k] == b[k]);
            }
        }
    }
    lemma_same_overheads(b, a, baselines, running);
}

/// What an assignment costs does not depend on the order of its members.
pub proof fn the_order_of_members_does_not_matter(
    a: Seq<Assigned>,
    b: Seq<Assigned>,
    baselines: Seq<Baseline>,
    running: Seq<ProviderKind>,
)
    requires
        a.to_multiset() == b.to_multiset(),
    ensures
        price(a, baselines, running) == price(b, baselines, running),
{
    lemma_total_permuted(a, b, |x: Assigned| charge(x));
    assert forall|p: ProviderKind| #[trigger] places_on(a, p) == places_on(b, p) by {
        if places_on(a, p) {
            let k = choose|k: int| 0 <= k < a.len() && (#[trigger] a[k]).candidate.provider == p;
            assert(a.contains(a[k]));
            lemma_same_members(a, b, a[k]);
            let j = b.index_of(a[k]);
            assert(b[j].candidate.provider == p);
        }
        if places_on(b, p) {
            let k = choose|k: int| 0 <= k < b.len() && (#[trigger] b[k]).candidate.provider == p;
            assert(b.contains(b[k]));
            lemma_same_members(a, b, b[k]);
            let j = a.index_of(b[k]);
            assert(a[j].candidate.provider == p);
        }
    }
    lemma_same_overheads(a, b, baselines, running);
}

} // verus!
