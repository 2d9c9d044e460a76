//! What a plan for a set of models promises, in terms of what it was asked and
//! what it holds.
use vstd::prelude::*;

use super::search::{
    assignment, every_assignment_is_numbered, is_cheapest, is_next, nth, over, placing, price,
    refusal, second, the_search_finds_the_best_two, usable, wanted_on, ways, winner,
};
use super::{
    a_baseline_is_charged_once, by_name, charge, drop_line, droppable, drops, first_obstacle,
    lemma_front_is_largest, lemma_total_grows, limit_for, may_admit, model_names,
    no_smaller_drop_is_enough, offered, overhead_charge, overhead_of, overheads_of, places_on,
    planned, prices_of, readable, used_by, Assigned, Inputs, Offer, Overhead, Plan, Verdict,
};
use crate::budget::{Budget, Ceiling};
use crate::config::all_kinds;
use crate::estimate::baseline::Baseline;
use crate::estimate::estimator::Basis;
use crate::pins::{held_iff_protected, Pin};
use crate::provider::{ProviderKind, State};
use crate::seqs::{
    first_index, lemma_filter_count, lemma_filter_map_members, lemma_filter_members,
    lemma_filter_places, lemma_filter_take, lemma_first_index, lemma_rising, lemma_shortest_front,
    lemma_sort_places, lemma_stable_sort, lemma_total_permuted, shortest_front, total,
};
use crate::text::texts;

verus! {

/// Whether an offer may be taken: what it offers is loaded already, or it comes
/// with a figure that was measured or computed.
pub open spec fn takeable(o: Offer) -> bool {
    ||| o.0.state == State::Loaded
    ||| o.1.basis == Basis::Measured && o.1.bytes is Some
    ||| o.1.basis == Basis::Computed && o.1.bytes is Some
}

/// Whether none of the offers for a model may be taken.
pub open spec fn none_takeable(offers: Seq<Offer>) -> bool {
    forall|j: int| 0 <= j < offers.len() ==> !takeable(#[trigger] offers[j])
}

/// Whether an offer is the first that may be taken.
pub open spec fn first_takeable(offers: Seq<Offer>, o: Offer) -> bool {
    exists|j: int|
        0 <= j < offers.len() && #[trigger] offers[j] == o && takeable(o) && forall|m: int|
            0 <= m < j ==> !takeable(#[trigger] offers[m])
}

/// Whether a set is placed: each model, in turn, by an offer that may be taken.
pub open spec fn places_all(a: Seq<Assigned>, models: Seq<String>, offers: Seq<Vec<Offer>>) -> bool {
    &&& a.len() == models.len()
    &&& forall|k: int|
        0 <= k < a.len() ==> {
            &&& (#[trigger] a[k]).model == models[k]
            &&& a[k].resident == (a[k].candidate.state == State::Loaded)
            &&& takeable((a[k].candidate, a[k].estimate))
            &&& offers[k]@.contains((a[k].candidate, a[k].estimate))
        }
}

/// Whether the first budget of a provider allows so many models.
pub open spec fn allows(budgets: Seq<Budget>, kind: ProviderKind, n: u32) -> bool {
    exists|j: int|
        0 <= j < budgets.len() && (#[trigger] budgets[j]).provider == kind && budgets[j].ceiling
            == Ceiling::Count(n) && forall|m: int|
            0 <= m < j ==> (#[trigger] budgets[m]).provider != kind
}

proof fn lemma_limit(budgets: Seq<Budget>, kind: ProviderKind)
    ensures
        forall|n: u32| #[trigger] allows(budgets, kind, n) <==> limit_for(budgets, kind) == Some(n),
{
    let q = |b: Budget| b.provider == kind;
    lemma_first_index(budgets, q);
    let f = first_index(budgets, q);
    assert forall|n: u32| #[trigger] allows(budgets, kind, n) <==> limit_for(budgets, kind) == Some(
        n,
    ) by {
        if allows(budgets, kind, n) {
            let j = choose|j: int|
                0 <= j < budgets.len() && (#[trigger] budgets[j]).provider == kind
                    && budgets[j].ceiling == Ceiling::Count(n) && forall|m: int|
                    0 <= m < j ==> (#[trigger] budgets[m]).provider != kind;
            assert(q(budgets[j]));
            assert(budgets.any(q));
            assert(f == j) by {
                if f < j {
                    assert(budgets[f].provider != kind);
                }
            }
        }
        if limit_for(budgets, kind) == Some(n) {
            assert(q(budgets[f]));
            assert forall|m: int| 0 <= m < f implies (#[trigger] budgets[m]).provider != kind by {
                assert(!q(budgets[m]));
            }
        }
    }
}

proof fn lemma_count(a: Seq<Assigned>, kind: ProviderKind)
    ensures
        wanted_on(a, kind) == Set::<int>::new(
            |k: int| 0 <= k < a.len() && a[k].candidate.provider == kind,
        ).len(),
{
    let p = |x: Assigned| x.candidate.provider == kind;
    lemma_filter_count(a, p);
    assert(Set::<int>::new(|k: int| 0 <= k < a.len() && p(a[k])) =~= Set::<int>::new(
        |k: int| 0 <= k < a.len() && a[k].candidate.provider == kind,
    ));
}

/// Nothing is refused exactly when every counted provider is within its count.
proof fn lemma_refusal(a: Seq<Assigned>, budgets: Seq<Budget>)
    ensures
        refusal(a, budgets) is None <==> forall|kind: ProviderKind, n: u32| #[trigger]
            allows(budgets, kind, n) ==> Set::<int>::new(
                |k: int| 0 <= k < a.len() && a[k].candidate.provider == kind,
            ).len() <= n,
        refusal(a, budgets) matches Some((kind, n, wanted)) ==> {
            &&& allows(budgets, kind, n)
            &&& wanted > n
            &&& wanted == Set::<int>::new(
                |k: int| 0 <= k < a.len() && a[k].candidate.provider == kind,
            ).len()
        },
{
    let q = |p: ProviderKind| over(a, budgets, p);
    lemma_first_index(all_kinds(), q);
    let f = first_index(all_kinds(), q);
    assert forall|kind: ProviderKind| all_kinds().contains(kind) by {
        assert(all_kinds()[0] == ProviderKind::LmStudio);
        assert(all_kinds()[1] == ProviderKind::Ollama);
        assert(all_kinds()[2] == ProviderKind::LlamaCpp);
        assert(all_kinds()[3] == ProviderKind::Vllm);
    }
    if refusal(a, budgets) is None {
        assert forall|kind: ProviderKind, n: u32| #[trigger]
            allows(budgets, kind, n) implies Set::<int>::new(
            |k: int| 0 <= k < a.len() && a[k].candidate.provider == kind,
        ).len() <= n by {
            lemma_limit(budgets, kind);
            lemma_count(a, kind);
            assert(all_kinds().contains(kind));
            let i = all_kinds().index_of(kind);
            assert(!q(all_kinds()[i]));
        }
    } else {
        let kind = all_kinds()[f];
        lemma_limit(budgets, kind);
        lemma_count(a, kind);
        assert(q(kind));
        assert(allows(budgets, kind, limit_for(budgets, kind)->0));
    }
}

/// Every number reads off one usable offer for each model.
proof fn lemma_nth(c: Seq<Seq<Offer>>, n: nat)
    requires
        forall|k: int| 0 <= k < c.len() ==> (#[trigger] c[k]).len() > 0,
    ensures
        nth(c, n).len() == c.len(),
        forall|k: int| 0 <= k < c.len() ==> c[k].contains(#[trigger] nth(c, n)[k]),
        n == 0 ==> forall|k: int| 0 <= k < c.len() ==> #[trigger] nth(c, n)[k] == c[k][0],
    decreases c.len(),
{
    if c.len() > 0 {
        let rest = c.drop_first();
        let w = c[0].len();
        assert forall|k: int| 0 <= k < rest.len() implies (#[trigger] rest[k]).len() > 0 by {
            assert(rest[k] == c[k + 1]);
        }
        lemma_nth(rest, n / w);
        let pick = (n % w) as int;
        assert(0 <= pick < w);
        if n == 0 {
            assert(0nat % w == 0 && 0nat / w == 0) by (nonlinear_arith)
                requires
                    w > 0,
            ;
        }
        assert forall|k: int| 0 <= k < c.len() implies c[k].contains(#[trigger] nth(c, n)[k]) by {
            if k == 0 {
                assert(nth(c, n)[0] == c[0][pick]);
            } else {
                assert(nth(c, n)[k] == nth(rest, n / w)[k - 1]);
                assert(rest[k - 1] == c[k]);
            }
        }
        if n == 0 {
            assert forall|k: int| 0 <= k < c.len() implies #[trigger] nth(c, n)[k] == c[k][0] by {
                if k > 0 {
                    assert(nth(c, n)[k] == nth(rest, n / w)[k - 1]);
                    assert(rest[k - 1] == c[k]);
                }
            }
        }
    }
}

/// An offer is usable exactly when it is among the offers and may be taken.
proof fn lemma_usable(offers: Seq<Offer>)
    ensures
        forall|o: Offer| #[trigger]
            usable(offers).contains(o) <==> offers.contains(o) && takeable(o),
        usable(offers).len() == 0 <==> forall|j: int|
            0 <= j < offers.len() ==> !takeable(#[trigger] offers[j]),
        usable(offers).len() > 0 ==> exists|j: int|
            0 <= j < offers.len() && #[trigger] offers[j] == usable(offers)[0] && takeable(offers[j])
                && forall|m: int| 0 <= m < j ==> !takeable(#[trigger] offers[m]),
{
    let p = |o: Offer| may_admit(o);
    lemma_filter_members(offers, p);
    let at = lemma_filter_places(offers, p);
    let s = usable(offers);
    assert forall|o: Offer| #[trigger] s.contains(o) <==> offers.contains(o) && takeable(o) by {
        assert(p(o) == takeable(o));
    }
    assert forall|j: int| 0 <= j < offers.len() implies takeable(#[trigger] offers[j]) == p(
        offers[j],
    ) by {}
    if s.len() == 0 {
        assert forall|j: int| 0 <= j < offers.len() implies !takeable(#[trigger] offers[j]) by {
            if takeable(offers[j]) {
                assert(at.contains(j));
            }
        }
    } else {
        let j = at[0];
        assert(p(offers[j]));
        assert(offers[j] == s[0]);
        assert forall|m: int| 0 <= m < j implies !takeable(#[trigger] offers[m]) by {
            if takeable(offers[m]) {
                assert(at.contains(m));
                let k = at.index_of(m);
                if k > 0 {
                    assert(at[0] < at[k]);
                }
            }
        }
    }
}

/// What is numbered is a placing of the set.
proof fn lemma_numbered(models: Seq<String>, offers: Seq<Vec<Offer>>, n: nat)
    requires
        models.len() == offers.len(),
        forall|k: int| 0 <= k < offers.len() ==> usable((#[trigger] offers[k])@).len() > 0,
    ensures
        places_all(assignment(models, offered(offers), n), models, offers),
{
    let c = offered(offers);
    assert forall|k: int| 0 <= k < c.len() implies (#[trigger] c[k]).len() > 0 by {
        assert(usable(offers[k]@).len() > 0);
    }
    lemma_nth(c, n);
    let a = assignment(models, c, n);
    assert forall|k: int| 0 <= k < a.len() implies {
        &&& (#[trigger] a[k]).model == models[k]
        &&& a[k].resident == (a[k].candidate.state == State::Loaded)
        &&& takeable((a[k].candidate, a[k].estimate))
        &&& offers[k]@.contains((a[k].candidate, a[k].estimate))
    } by {
        let o = nth(c, n)[k];
        assert(c[k].contains(o));
        lemma_usable(offers[k]@);
        assert(usable(offers[k]@).contains(o));
        assert(o == (a[k].candidate, a[k].estimate));
    }
}

/// Every placing of the set is numbered.
proof fn lemma_reached(a: Seq<Assigned>, models: Seq<String>, offers: Seq<Vec<Offer>>) -> (n: nat)
    requires
        models.len() == offers.len(),
        places_all(a, models, offers),
    ensures
        n < ways(offered(offers)),
        assignment(models, offered(offers), n) == a,
        forall|k: int| 0 <= k < offers.len() ==> usable((#[trigger] offers[k])@).len() > 0,
{
    let c = offered(offers);
    let picks = Seq::new(c.len(), |k: int| c[k].index_of((a[k].candidate, a[k].estimate)));
    assert forall|k: int| 0 <= k < c.len() implies 0 <= #[trigger] picks[k] < c[k].len()
        && c[k][picks[k]] == (a[k].candidate, a[k].estimate) by {
        lemma_usable(offers[k]@);
        assert(a[k].model == models[k]);
        assert(usable(offers[k]@).contains((a[k].candidate, a[k].estimate)));
        assert(c[k].contains((a[k].candidate, a[k].estimate)));
    }
    let n = every_assignment_is_numbered(c, picks);
    let b = assignment(models, c, n);
    assert forall|k: int| 0 <= k < a.len() implies #[trigger] b[k] == a[k] by {
        assert(nth(c, n)[k] == c[k][picks[k]]);
        assert(a[k].model == models[k]);
    }
    assert(b =~= a);
    assert forall|k: int| 0 <= k < offers.len() implies usable((#[trigger] offers[k])@).len() > 0 by {
        assert(0 <= picks[k] < c[k].len());
    }
    n
}

/// A model has no usable offer.
proof fn lemma_obstacle(models: Seq<String>, offers: Seq<Vec<Offer>>)
    requires
        models.len() == offers.len(),
    ensures
        0 <= first_obstacle(offers) <= offers.len(),
        first_obstacle(offers) == offers.len() <==> forall|k: int|
            0 <= k < offers.len() ==> usable((#[trigger] offers[k])@).len() > 0,
        first_obstacle(offers) < offers.len() ==> usable(
            offers[first_obstacle(offers)]@,
        ).len() == 0,
        forall|k: int| 0 <= k < first_obstacle(offers) ==> usable((#[trigger] offers[k])@).len() > 0,
{
    let q = |v: Vec<Offer>| usable(v@).len() == 0;
    lemma_first_index(offers, q);
    let f = first_obstacle(offers);
    assert forall|k: int| 0 <= k < f implies usable((#[trigger] offers[k])@).len() > 0 by {
        assert(!q(offers[k]));
    }
    if f < offers.len() {
        assert(q(offers[f]));
    }
}

/// A plan either places every model it was asked for, each by an offer made for
/// it that may be taken, or it places nothing, charges nothing and says which
/// model stood in the way, or which ceiling.
#[verifier::rlimit(40)]
pub proof fn a_set_is_placed_whole_or_not_at_all(models: Seq<String>, i: Inputs, p: Plan)
    requires
        models.len() == i.offers@.len(),
        planned(models, i, p),
    ensures
        p.verdict is Fits || p.verdict is DoesNotFit ==> places_all(
            p.assigned@,
            models,
            i.offers@,
        ),
        !(p.verdict is Fits || p.verdict is DoesNotFit) ==> p.assigned@.len() == 0
            && p.overheads@.len() == 0 && p.charged_bytes == 0 && p.runner_up is None,
        p.verdict is Unservable || p.verdict is Unpriced <==> exists|k: int|
            0 <= k < models.len() && none_takeable((#[trigger] i.offers@[k])@),
        p.verdict matches Verdict::Unservable { model } ==> exists|k: int|
            0 <= k < models.len() && #[trigger] models[k] == model && i.offers@[k]@.len() == 0
                && forall|e: int|
                0 <= e < k ==> !none_takeable((#[trigger] i.offers@[e])@),
        p.verdict matches Verdict::Unpriced { model } ==> exists|k: int|
            0 <= k < models.len() && #[trigger] models[k] == model && i.offers@[k]@.len() > 0
                && forall|e: int|
                0 <= e < k ==> !none_takeable((#[trigger] i.offers@[e])@),
{
    let offers = i.offers@;
    let prices = prices_of(models, i);
    lemma_obstacle(models, offers);
    the_search_finds_the_best_two(prices);
    let f = first_obstacle(offers);
    assert forall|k: int| 0 <= k < offers.len() && usable((#[trigger] offers[k])@).len()
        > 0 implies !none_takeable(offers[k]@) by {
        lemma_usable(offers[k]@);
    }
    if f < models.len() {
        lemma_usable(offers[f]@);
        assert(models[f] == models[f]);
    } else {
        if winner(prices) is Some {
            lemma_numbered(models, offers, winner(prices)->0 as nat);
        }
        assert forall|k: int| 0 <= k < models.len() implies !none_takeable(
            (#[trigger] i.offers@[k])@,
        ) by {
            assert(usable(offers[k]@).len() > 0);
        }
    }
}

/// No provider is given more models than it can hold at once, whether they are
/// resident already or not: of what a plan places, on a provider whose ceiling
/// is a count there is never more than that count. A refusal names a provider
/// that allows fewer models than have their first takeable offer there, and how
/// many those are; it is never given while some placing of the set is within
/// every ceiling, as long as all were looked at.
#[verifier::rlimit(40)]
pub proof fn a_count_ceiling_is_never_exceeded(models: Seq<String>, i: Inputs, p: Plan)
    requires
        models.len() == i.offers@.len(),
        planned(models, i, p),
    ensures
        forall|kind: ProviderKind, n: u32| #[trigger]
            allows(i.budgets@, kind, n) ==> Set::<int>::new(
                |k: int| 0 <= k < p.assigned@.len() && p.assigned@[k].candidate.provider == kind,
            ).len() <= n,
        p.runner_up matches Some((a, _)) ==> forall|kind: ProviderKind, n: u32| #[trigger]
            allows(i.budgets@, kind, n) ==> Set::<int>::new(
                |k: int| 0 <= k < a@.len() && a@[k].candidate.provider == kind,
            ).len() <= n,
        p.verdict matches Verdict::CeilingRefusal { provider, allowed, wanted } ==> {
            &&& allows(i.budgets@, provider, allowed)
            &&& wanted > allowed
            &&& exists|a: Seq<Assigned>|
                {
                    &&& #[trigger] places_all(a, models, i.offers@)
                    &&& wanted == Set::<int>::new(
                        |k: int| 0 <= k < a.len() && a[k].candidate.provider == provider,
                    ).len()
                    &&& forall|k: int|
                        0 <= k < a.len() ==> first_takeable(
                            i.offers@[k]@,
                            ((#[trigger] a[k]).candidate, a[k].estimate),
                        )
                }
        },
        p.verdict is CeilingRefusal && !p.capped ==> forall|a: Seq<Assigned>| #[trigger]
            places_all(a, models, i.offers@) ==> exists|kind: ProviderKind, n: u32| #[trigger]
                allows(i.budgets@, kind, n) && Set::<int>::new(
                    |k: int| 0 <= k < a.len() && a[k].candidate.provider == kind,
                ).len() > n,
{
    let offers = i.offers@;
    let c = offered(offers);
    let prices = prices_of(models, i);
    lemma_obstacle(models, offers);
    the_search_finds_the_best_two(prices);
    if first_obstacle(offers) == models.len() && winner(prices) is Some {
        let n = winner(prices)->0;
        assert(prices[n] is Some);
        lemma_refusal(assignment(models, c, n as nat), i.budgets@);
        if p.runner_up is Some {
            let m = second(prices)->0;
            assert(prices[m] is Some);
            lemma_refusal(assignment(models, c, m as nat), i.budgets@);
        }
    } else {
        assert forall|kind: ProviderKind, n: u32| #[trigger]
            allows(i.budgets@, kind, n) implies Set::<int>::new(
            |k: int| 0 <= k < p.assigned@.len() && p.assigned@[k].candidate.provider == kind,
        ).len() <= n by {
            assert(Set::<int>::new(
                |k: int| 0 <= k < p.assigned@.len() && p.assigned@[k].candidate.provider == kind,
            ) =~= Set::empty());
        }
    }
    if p.verdict is CeilingRefusal {
        let a = assignment(models, c, 0);
        lemma_refusal(a, i.budgets@);
        lemma_numbered(models, offers, 0);
        assert forall|k: int| 0 <= k < c.len() implies (#[trigger] c[k]).len() > 0 by {
            assert(usable(offers[k]@).len() > 0);
        }
        lemma_nth(c, 0);
        assert forall|k: int| 0 <= k < a.len() implies first_takeable(
            i.offers@[k]@,
            ((#[trigger] a[k]).candidate, a[k].estimate),
        ) by {
            lemma_usable(offers[k]@);
            assert(nth(c, 0)[k] == c[k][0]);
            assert(c[k] == usable(offers[k]@));
        }
        assert(places_all(a, models, offers));
        if !p.capped {
            assert forall|a: Seq<Assigned>| #[trigger] places_all(a, models, offers) implies exists|
                kind: ProviderKind,
                n: u32,
            | #[trigger]
                allows(i.budgets@, kind, n) && Set::<int>::new(
                    |k: int| 0 <= k < a.len() && a[k].candidate.provider == kind,
                ).len() > n by {
                let n = lemma_reached(a, models, offers);
                assert(prices[n as int] is None);
                lemma_refusal(a, i.budgets@);
            }
        }
    }
}

/// What is placed is the cheapest there is: as long as all were looked at, no
/// placing of the set that is within every ceiling costs less, and none but the
/// one that is placed costs less than the runner-up, which is another of them.
/// Where there is no runner-up there is no other.
#[verifier::rlimit(40)]
pub proof fn nothing_cheaper_was_passed_over(
    models: Seq<String>,
    i: Inputs,
    p: Plan,
    a: Seq<Assigned>,
)
    requires
        models.len() == i.offers@.len(),
        planned(models, i, p),
        places_all(a, models, i.offers@),
        forall|kind: ProviderKind, n: u32| #[trigger]
            allows(i.budgets@, kind, n) ==> Set::<int>::new(
                |k: int| 0 <= k < a.len() && a[k].candidate.provider == kind,
            ).len() <= n,
        !p.capped,
    ensures
        p.verdict is Fits || p.verdict is DoesNotFit,
        p.charged_bytes == price(p.assigned@, i.baselines@, i.running@),
        p.charged_bytes <= price(a, i.baselines@, i.running@),
        p.runner_up matches Some((r, c)) ==> {
            &&& places_all(r@, models, i.offers@)
            &&& c == price(r@, i.baselines@, i.running@)
            &&& p.charged_bytes <= c
            &&& a != p.assigned@ ==> c <= price(a, i.baselines@, i.running@)
        },
        p.runner_up is None ==> a == p.assigned@,
{
    let offers = i.offers@;
    let c = offered(offers);
    let prices = prices_of(models, i);
    lemma_obstacle(models, offers);
    the_search_finds_the_best_two(prices);
    let n = lemma_reached(a, models, offers);
    lemma_refusal(a, i.budgets@);
    assert(prices[n as int] == Some(price(a, i.baselines@, i.running@)));
    let w = winner(prices)->0;
    if winner(prices) is Some {
        assert(is_cheapest(prices, w));
        if w != n {
            assert(prices[n as int] is Some);
        }
        if let Some(m) = second(prices) {
            assert(is_next(prices, w, m));
            lemma_numbered(models, offers, m as nat);
            assert(prices[m] is Some);
        }
    }
}

/// How many placings there are: one for each choice of an offer that may be
/// taken. All of them are looked at up to the backstop, and past it the plan
/// says so.
pub proof fn stopping_early_is_said(models: Seq<String>, i: Inputs, p: Plan)
    requires
        models.len() == i.offers@.len(),
        planned(models, i, p),
        p.verdict is Fits || p.verdict is DoesNotFit || p.verdict is CeilingRefusal,
    ensures
        p.capped == (ways(offered(i.offers@)) > 4096),
        ways(Seq::empty()) == 1,
        forall|c: Seq<Seq<Offer>>, more: Seq<Offer>| #[trigger]
            ways(c.push(more)) == ways(c) * more.len(),
{
    lemma_obstacle(models, i.offers@);
    assert forall|c: Seq<Seq<Offer>>, more: Seq<Offer>| #[trigger]
        ways(c.push(more)) == ways(c) * more.len() by {
        assert(c.push(more).drop_last() =~= c);
    }
}

/// A sum over what a filter and a map leave is a sum over everything.
proof fn lemma_total_kept(
    s: Seq<ProviderKind>,
    q: spec_fn(ProviderKind) -> bool,
    f: spec_fn(ProviderKind) -> Option<Overhead>,
)
    ensures
        total(s.filter(q).filter_map(f), |o: Overhead| overhead_charge(o)) == total(
            s,
            |p: ProviderKind|
                match f(p) {
                    Some(o) if q(p) => overhead_charge(o),
                    _ => 0,
                },
        ),
    decreases s.len(),
{
    let g = |o: Overhead| overhead_charge(o);
    let h = |p: ProviderKind|
        match f(p) {
            Some(o) if q(p) => overhead_charge(o),
            _ => 0,
        };
    if s.len() == 0 {
        lemma_filter_members(s, q);
        assert(s.filter(q).filter_map(f) =~= Seq::<Overhead>::empty());
    } else {
        let n = s.len() - 1;
        let t = s.take(n);
        lemma_total_kept(t, q, f);
        lemma_filter_take(s, q, n);
        assert(s.take(n + 1) =~= s);
        assert(s.drop_last() =~= t);
        if q(s[n]) {
            let kept = s.filter(q);
            assert(kept.drop_last() =~= t.filter(q));
            let before = t.filter(q).filter_map(f);
            if f(s[n]) is Some {
                assert(kept.filter_map(f) =~= before.push(f(s[n])->0));
                assert(kept.filter_map(f).drop_last() =~= before);
            } else {
                assert(kept.filter_map(f) =~= before);
            }
        }
    }
}

/// What a provider is charged for: its overhead, where anything is placed on
/// it.
spec fn share(
    a: Seq<Assigned>,
    baselines: Seq<Baseline>,
    running: Seq<ProviderKind>,
    p: ProviderKind,
) -> nat {
    match overhead_of(p, baselines, running) {
        Some(o) if places_on(a, p) => overhead_charge(o),
        _ => 0,
    }
}

proof fn lemma_shares(a: Seq<Assigned>, baselines: Seq<Baseline>, running: Seq<ProviderKind>)
    ensures
        price(a, baselines, running) == total(a, |x: Assigned| charge(x)) + share(
            a,
            baselines,
            running,
            ProviderKind::LlamaCpp,
        ) + share(a, baselines, running, ProviderKind::LmStudio) + share(
            a,
            baselines,
            running,
            ProviderKind::Ollama,
        ) + share(a, baselines, running, ProviderKind::Vllm),
{
    let q = |p: ProviderKind| places_on(a, p);
    let f = |p: ProviderKind| overhead_of(p, baselines, running);
    lemma_total_kept(by_name(), q, f);
    let h = |p: ProviderKind|
        match f(p) {
            Some(o) if q(p) => overhead_charge(o),
            _ => 0,
        };
    let s = by_name();
    let s3 = s.drop_last();
    let s2 = s3.drop_last();
    let s1 = s2.drop_last();
    assert(s1.drop_last().len() == 0);
    assert(total(s1.drop_last(), h) == 0);
    assert(total(s1, h) == h(ProviderKind::LlamaCpp));
    assert(total(s2, h) == total(s1, h) + h(ProviderKind::LmStudio));
    assert(total(s3, h) == total(s2, h) + h(ProviderKind::Ollama));
    assert(total(s, h) == total(s3, h) + h(ProviderKind::Vllm));
}

/// What a set costs, one model at a time: nothing costs nothing, and one model
/// more costs its own figure, or nothing where it is resident already. On a
/// provider that nothing was placed on yet it also costs that provider's first
/// baseline, unless the provider is running or has none.
#[verifier::rlimit(40)]
pub proof fn a_model_costs_its_figure_and_a_provider_its_baseline(
    a: Seq<Assigned>,
    x: Assigned,
    baselines: Seq<Baseline>,
    running: Seq<ProviderKind>,
    b: int,
)
    ensures
        price(Seq::empty(), baselines, running) == 0,
        ({
            let kind = x.candidate.provider;
            let own: nat = if x.resident || x.estimate.bytes is None {
                0
            } else {
                x.estimate.bytes->0 as nat
            };
            let before = price(a, baselines, running);
            let after = price(a.push(x), baselines, running);
            let used = exists|k: int|
                0 <= k < a.len() && (#[trigger] a[k]).candidate.provider == kind;
            let up = exists|k: int| 0 <= k < running.len() && #[trigger] running[k] == kind;
            &&& used || up ==> after == before + own
            &&& (forall|k: int|
                0 <= k < baselines.len() ==> (#[trigger] baselines[k]).provider != kind) ==> after
                == before + own
            &&& !used && !up && 0 <= b < baselines.len() && baselines[b].provider == kind && (
            forall|k: int| 0 <= k < b ==> (#[trigger] baselines[k]).provider != kind) ==> after
                == before + own + baselines[b].bytes
        }),
{
    let kind = x.candidate.provider;
    let c = a.push(x);
    let none = Seq::<Assigned>::empty();
    lemma_shares(none, baselines, running);
    lemma_shares(a, baselines, running);
    lemma_shares(c, baselines, running);
    assert(c.drop_last() =~= a);
    assert forall|p: ProviderKind| p != kind implies #[trigger] places_on(c, p) == places_on(
        a,
        p,
    ) by {
        if places_on(a, p) {
            let k = choose|k: int| 0 <= k < a.len() && (#[trigger] a[k]).candidate.provider == p;
            assert(c[k] == a[k]);
        }
        if places_on(c, p) {
            let k = choose|k: int| 0 <= k < c.len() && (#[trigger] c[k]).candidate.provider == p;
            assert(a[k] == c[k]);
        }
    }
    assert(places_on(c, kind)) by {
        assert(c[a.len() as int].candidate.provider == kind);
    }
    let q = |y: Baseline| y.provider == kind;
    lemma_first_index(baselines, q);
    let f = first_index(baselines, q);
    if 0 <= b < baselines.len() && baselines[b].provider == kind && (forall|k: int|
        0 <= k < b ==> (#[trigger] baselines[k]).provider != kind) {
        assert(q(baselines[b]));
        assert(baselines.any(q));
        assert(f == b) by {
            if f < b {
                assert(baselines[f].provider != kind);
            }
        }
    }
    if forall|k: int| 0 <= k < baselines.len() ==> (#[trigger] baselines[k]).provider != kind {
        if f < baselines.len() {
            assert(q(baselines[f]));
        }
    }
}

/// A provider is listed as used exactly when something is placed on it.
proof fn lemma_used(a: Seq<Assigned>, kind: ProviderKind)
    ensures
        used_by(a).contains(kind) <==> places_on(a, kind),
{
    let q = |x: ProviderKind| places_on(a, x);
    lemma_filter_members(by_name(), q);
    assert(by_name()[0] == ProviderKind::LlamaCpp);
    assert(by_name()[1] == ProviderKind::LmStudio);
    assert(by_name()[2] == ProviderKind::Ollama);
    assert(by_name()[3] == ProviderKind::Vllm);
    assert(by_name().contains(kind));
    assert(used_by(a).contains(kind) <==> by_name().contains(kind) && q(kind));
}

/// Whether an overhead is that of its provider: the figure of the first
/// baseline, and whether the provider is running.
pub open spec fn is_overhead(
    o: Overhead,
    baselines: Seq<Baseline>,
    running: Seq<ProviderKind>,
) -> bool {
    &&& o.running == running.contains(o.provider)
    &&& exists|b: int|
        0 <= b < baselines.len() && (#[trigger] baselines[b]).provider == o.provider
            && baselines[b].bytes == o.bytes && baselines[b].thin == o.thin && forall|m: int|
            0 <= m < b ==> (#[trigger] baselines[m]).provider != o.provider
}

proof fn lemma_overhead(kind: ProviderKind, baselines: Seq<Baseline>, running: Seq<ProviderKind>)
    ensures
        overhead_of(kind, baselines, running) is Some <==> exists|b: int|
            0 <= b < baselines.len() && (#[trigger] baselines[b]).provider == kind,
        overhead_of(kind, baselines, running) matches Some(o) ==> o.provider == kind && is_overhead(
            o,
            baselines,
            running,
        ),
{
    let its = |b: Baseline| b.provider == kind;
    lemma_first_index(baselines, its);
    let f = first_index(baselines, its);
    if exists|b: int| 0 <= b < baselines.len() && (#[trigger] baselines[b]).provider == kind {
        let b = choose|b: int| 0 <= b < baselines.len() && (#[trigger] baselines[b]).provider == kind;
        assert(its(baselines[b]));
        assert(baselines.any(its));
    }
    if f < baselines.len() {
        assert(its(baselines[f]));
        assert forall|m: int| 0 <= m < f implies (#[trigger] baselines[m]).provider != kind by {
            assert(!its(baselines[m]));
        }
        let o = overhead_of(kind, baselines, running)->0;
        assert(baselines[f].bytes == o.bytes);
        if running.contains(kind) {
            let k = running.index_of(kind);
            assert(running[k] == kind);
        }
    }
}

proof fn lemma_overheads(
    a: Seq<Assigned>,
    baselines: Seq<Baseline>,
    running: Seq<ProviderKind>,
    kind: ProviderKind,
)
    ensures
        (exists|o: int|
            0 <= o < overheads_of(a, baselines, running).len() && (#[trigger] overheads_of(
                a,
                baselines,
                running,
            )[o]).provider == kind) <==> places_on(a, kind) && exists|b: int|
            0 <= b < baselines.len() && (#[trigger] baselines[b]).provider == kind,
        forall|o: int|
            0 <= o < overheads_of(a, baselines, running).len() ==> is_overhead(
                #[trigger] overheads_of(a, baselines, running)[o],
                baselines,
                running,
            ),
{
    let f = |x: ProviderKind| overhead_of(x, baselines, running);
    let used = used_by(a);
    let all = overheads_of(a, baselines, running);
    lemma_filter_map_members(used, f);
    lemma_used(a, kind);
    lemma_overhead(kind, baselines, running);
    assert forall|o: int| 0 <= o < all.len() implies is_overhead(#[trigger] all[o], baselines, running)
        && f(all[o].provider) == Some(all[o]) && used.contains(all[o].provider) by {
        let k = choose|k: int| 0 <= k < used.len() && f(#[trigger] used[k]) == Some(all[o]);
        lemma_overhead(used[k], baselines, running);
        assert(used[k] == all[o].provider);
    }
    if places_on(a, kind) && f(kind) is Some {
        let k = used.index_of(kind);
        assert(f(used[k]) is Some);
        let o = all.index_of(f(kind)->0);
        assert(all[o].provider == kind);
    }
}

/// Whether a budget is the first of a provider.
pub open spec fn first_for(budgets: Seq<Budget>, kind: ProviderKind, b: int) -> bool {
    &&& 0 <= b < budgets.len()
    &&& budgets[b].provider == kind
    &&& forall|m: int| 0 <= m < b ==> (#[trigger] budgets[m]).provider != kind
}

#[verifier::rlimit(40)]
proof fn lemma_unread(a: Seq<Assigned>, budgets: Seq<Budget>, kind: ProviderKind)
    ensures
        used_by(a).filter(|q: ProviderKind| !readable(budgets, q)).contains(kind) <==> places_on(
            a,
            kind,
        ) && forall|b: int| #[trigger]
            first_for(budgets, kind, b) ==> budgets[b].ceiling is Unknown,
{
    let used = used_by(a);
    let unread = |q: ProviderKind| !readable(budgets, q);
    lemma_used(a, kind);
    lemma_filter_members(used, unread);
    assert(used.filter(unread).contains(kind) <==> used.contains(kind) && unread(kind));
    let ours = |b: Budget| b.provider == kind;
    lemma_first_index(budgets, ours);
    let g = first_index(budgets, ours);
    if g < budgets.len() {
        assert(ours(budgets[g]));
        assert forall|m: int| 0 <= m < g implies (#[trigger] budgets[m]).provider != kind by {
            assert(!ours(budgets[m]));
        }
    }
    assert(g < budgets.len() ==> first_for(budgets, kind, g));
    assert forall|b: int| #[trigger] first_for(budgets, kind, b) implies b == g by {
        assert(ours(budgets[b]));
        assert(budgets.any(ours));
        if g < b {
            assert(budgets[g].provider != kind);
        }
    }
}

/// The overheads a plan lists are those of the providers it places anything on
/// and that have a baseline, each once, with the figure of their first and
/// whether they are running; and the ceilings it lists as unchecked are those of
/// the providers it places anything on that have no budget, or whose first one
/// could not be read.
#[verifier::rlimit(40)]
pub proof fn a_plan_lists_every_overhead_and_every_unread_ceiling(
    models: Seq<String>,
    i: Inputs,
    p: Plan,
    kind: ProviderKind,
)
    requires
        models.len() == i.offers@.len(),
        planned(models, i, p),
    ensures
        ({
            let used = exists|k: int|
                0 <= k < p.assigned@.len() && (#[trigger] p.assigned@[k]).candidate.provider
                    == kind;
            &&& (exists|o: int| 0 <= o < p.overheads@.len() && (#[trigger] p.overheads@[o]).provider
                == kind) <==> used && exists|b: int|
                0 <= b < i.baselines@.len() && (#[trigger] i.baselines@[b]).provider == kind
            &&& p.unchecked_ceilings@.contains(kind) <==> used && forall|b: int| #[trigger]
                first_for(i.budgets@, kind, b) ==> i.budgets@[b].ceiling is Unknown
        }),
        forall|o: int|
            0 <= o < p.overheads@.len() ==> is_overhead(
                #[trigger] p.overheads@[o],
                i.baselines@,
                i.running@,
            ),
        forall|m: int, n: int|
            0 <= m < n < p.overheads@.len() ==> (#[trigger] p.overheads@[m]).provider != (
            #[trigger] p.overheads@[n]).provider,
{
    let offers = i.offers@;
    let prices = prices_of(models, i);
    lemma_obstacle(models, offers);
    the_search_finds_the_best_two(prices);
    if first_obstacle(offers) == models.len() && winner(prices) is Some {
        lemma_overheads(p.assigned@, i.baselines@, i.running@, kind);
        lemma_unread(p.assigned@, i.budgets@, kind);
        a_baseline_is_charged_once(p.assigned@, i.baselines@, i.running@);
    } else {
        assert(p.unchecked_ceilings@.len() == 0);
    }
}

/// A set that is placed fits exactly when what it costs is no more than the
/// room there is, which is what is free less the reserve; otherwise the
/// shortfall is what is missing.
pub proof fn a_set_fits_where_there_is_room(models: Seq<String>, i: Inputs, p: Plan)
    requires
        models.len() == i.offers@.len(),
        planned(models, i, p),
    ensures
        i.machine.used_bytes + i.reserve_bytes <= i.machine.total_bytes ==> p.headroom_bytes
            + i.machine.used_bytes + i.reserve_bytes == i.machine.total_bytes,
        i.machine.used_bytes + i.reserve_bytes > i.machine.total_bytes ==> p.headroom_bytes == 0,
        p.verdict is Fits ==> p.charged_bytes <= p.headroom_bytes,
        p.verdict matches Verdict::DoesNotFit { short_by_bytes, .. } ==> short_by_bytes > 0
            && p.charged_bytes == p.headroom_bytes + short_by_bytes,
{
    the_search_finds_the_best_two(prices_of(models, i));
}

/// Whether a member could be dropped to free something: it is not resident, its
/// figure is more than nothing, and no pin and no lease that has not lapsed is
/// about it.
pub open spec fn free_to_go(a: Assigned, pins: Seq<Pin>, now: u64) -> bool {
    &&& !a.resident
    &&& a.estimate.bytes matches Some(b) && b > 0
    &&& forall|k: int|
        0 <= k < pins.len() && (#[trigger] pins[k]).provider == a.candidate.provider
            && pins[k].model@ == a.candidate.provider_model_id@ ==> pins[k].expires_at is Some
            && pins[k].expires_at->0 <= now
}

proof fn lemma_droppable(a: Assigned, pins: Seq<Pin>, now: u64)
    ensures
        droppable(a, pins, now) == free_to_go(a, pins, now),
        droppable(a, pins, now) ==> a.estimate.bytes == Some(charge(a) as u64),
{
    let provider = a.candidate.provider;
    let model = a.candidate.provider_model_id@;
    held_iff_protected(pins, provider, model, now);
    if crate::pins::protected(pins, provider, model, now) {
        let k = choose|k: int|
            0 <= k < pins.len() && crate::pins::about(#[trigger] pins[k], provider, model)
                && crate::pins::live(pins[k], now);
        assert(pins[k].provider == provider && pins[k].model@ == model);
    } else {
        assert forall|k: int|
            0 <= k < pins.len() && (#[trigger] pins[k]).provider == provider && pins[k].model@
                == model implies pins[k].expires_at is Some && pins[k].expires_at->0 <= now by {
            assert(crate::pins::about(pins[k], provider, model));
            assert(!crate::pins::live(pins[k], now));
        }
    }
}

/// Sums over the same places agree.
proof fn lemma_same_sum(picks: Seq<int>, f: spec_fn(int) -> nat, g: spec_fn(int) -> nat)
    requires
        forall|k: int| 0 <= k < picks.len() ==> f(#[trigger] picks[k]) == g(picks[k]),
    ensures
        total(picks, f) == total(picks, g),
    decreases picks.len(),
{
    if picks.len() > 0 {
        let front = picks.drop_last();
        assert forall|k: int| 0 <= k < front.len() implies f(#[trigger] front[k]) == g(front[k]) by {
            assert(front[k] == picks[k]);
        }
        lemma_same_sum(front, f, g);
        assert(picks[picks.len() - 1] == picks.last());
    }
}

/// A sum over places, through a list of places.
proof fn lemma_sum_through(s: Seq<int>, at: Seq<int>, f: spec_fn(int) -> nat)
    ensures
        total(s.map_values(|k: int| at[k]), f) == total(s, |k: int| f(at[k])),
    decreases s.len(),
{
    let m = s.map_values(|k: int| at[k]);
    if s.len() > 0 {
        lemma_sum_through(s.drop_last(), at, f);
        assert(m.drop_last() =~= s.drop_last().map_values(|k: int| at[k]));
    }
}

/// What is proposed to be dropped are different members of what is placed, by
/// their names, each of which is free to go. Together their figures make up the
/// shortfall wherever those of any members that are free to go do, and no fewer
/// such members would; where even these do not, nothing that is free to go is
/// left out.
#[verifier::rlimit(40)]
pub proof fn a_drop_is_enough_and_no_smaller_one_is(
    models: Seq<String>,
    i: Inputs,
    p: Plan,
    short: u64,
    names: Vec<String>,
    others: Seq<int>,
) -> (picks: Seq<int>)
    requires
        models.len() == i.offers@.len(),
        planned(models, i, p),
        p.verdict == (Verdict::DoesNotFit { short_by_bytes: short, smallest_drop: names }),
        others.no_duplicates(),
        forall|k: int|
            0 <= k < others.len() ==> 0 <= #[trigger] others[k] < p.assigned@.len() && free_to_go(
                p.assigned@[others[k]],
                i.pins@,
                i.now,
            ),
    ensures
        picks.len() == names@.len(),
        picks.no_duplicates(),
        forall|k: int|
            0 <= k < picks.len() ==> {
                &&& 0 <= #[trigger] picks[k] < p.assigned@.len()
                &&& names@[k]@ == p.assigned@[picks[k]].model@
                &&& free_to_go(p.assigned@[picks[k]], i.pins@, i.now)
            },
        total(others, |k: int| p.assigned@[k].estimate.bytes->0 as nat) >= short ==> total(
            picks,
            |k: int| p.assigned@[k].estimate.bytes->0 as nat,
        ) >= short && picks.len() <= others.len(),
        total(picks, |k: int| p.assigned@[k].estimate.bytes->0 as nat) < short ==> forall|k: int|
            0 <= k < p.assigned@.len() && free_to_go(#[trigger] p.assigned@[k], i.pins@, i.now)
                ==> picks.contains(k),
{
    let a = p.assigned@;
    let pins = i.pins@;
    let now = i.now;
    the_search_finds_the_best_two(prices_of(models, i));
    let d = |x: Assigned| droppable(x, pins, now);
    let le = |x: Assigned, y: Assigned| charge(x) >= charge(y);
    let kept = a.filter(d);
    let line = drop_line(a, pins, now);
    let from = lemma_filter_places(a, d);
    let to = lemma_sort_places(kept, le);
    let at = Seq::new(line.len(), |k: int| from[to[k]]);
    let f = |x: Assigned| charge(x);
    let g = |k: int| a[k].estimate.bytes->0 as nat;
    let gone = drops(a, pins, now, short as nat);
    let n = shortest_front(line, f, short as int);
    lemma_shortest_front(line, f, short as int);
    assert forall|k: int| 0 <= k < line.len() implies 0 <= #[trigger] at[k] < a.len() && line[k]
        == a[at[k]] && free_to_go(a[at[k]], pins, now) && g(at[k]) == charge(line[k]) by {
        assert(0 <= to[k] < kept.len());
        assert(kept[to[k]] == line[k]);
        assert(0 <= from[to[k]] < a.len());
        lemma_droppable(a[at[k]], pins, now);
        assert(d(a[at[k]]));
    }
    assert forall|j: int, k: int| 0 <= j < at.len() && 0 <= k < at.len() && j != k implies at[j]
        != at[k] by {
        assert(to[j] != to[k]);
        assert(0 <= to[j] < from.len() && 0 <= to[k] < from.len());
        if to[j] < to[k] {
            assert(from[to[j]] < from[to[k]]);
        } else {
            assert(from[to[k]] < from[to[j]]);
        }
    }
    assert forall|k: int| 0 <= k < a.len() && free_to_go(#[trigger] a[k], pins, now) implies at.contains(
        k,
    ) by {
        lemma_droppable(a[k], pins, now);
        assert(d(a[k]));
        assert(from.contains(k));
        let x = from.index_of(k);
        assert(to.contains(x));
        let y = to.index_of(x);
        assert(at[y] == k);
    }
    let picks = at.take(n);
    assert(texts(names@).len() == names@.len());
    assert forall|k: int| 0 <= k < picks.len() implies {
        &&& 0 <= #[trigger] picks[k] < a.len()
        &&& names@[k]@ == a[picks[k]].model@
        &&& free_to_go(a[picks[k]], pins, now)
    } by {
        assert(picks[k] == at[k]);
        assert(texts(names@)[k] == names@[k]@);
        assert(model_names(gone)[k] == gone[k].model@);
        assert(gone[k] == line[k]);
    }
    lemma_front_sum(a, line, at, n);
    // The others, as places in line.
    let places = Seq::new(others.len(), |k: int| at.index_of(others[k]));
    assert forall|k: int| 0 <= k < others.len() implies 0 <= #[trigger] places[k] < line.len()
        && at[places[k]] == others[k] by {
        assert(free_to_go(a[others[k]], pins, now));
        assert(at.contains(others[k]));
    }
    assert(places.no_duplicates()) by {
        assert forall|j: int, k: int| 0 <= j < places.len() && 0 <= k < places.len() && j
            != k implies places[j] != places[k] by {
            assert(others[j] != others[k]);
        }
    }
    let rising = lemma_rising(places);
    assert forall|k: int| 0 <= k < rising.len() implies 0 <= #[trigger] rising[k] < line.len() by {
        assert(places.contains(rising[k]));
        let j = places.index_of(rising[k]);
        assert(0 <= places[j] < line.len());
    }
    let h = |k: int| charge(line[k]);
    lemma_total_permuted(rising, places, h);
    assert(places.map_values(|k: int| at[k]) =~= others);
    lemma_sum_through(places, at, g);
    lemma_same_sum(places, |k: int| g(at[k]), h);
    assert(total(others, g) == total(rising, h));
    no_smaller_drop_is_enough(a, pins, now, short as nat, rising);
    lemma_stable_sort(kept, le);
    lemma_front_is_largest(line, rising);
    if total(line, f) >= short {
    } else {
        assert(n == line.len());
        assert(line.take(n) =~= line);
        assert(picks =~= at);
        lemma_total_grows(line, f, rising.len() as int, n);
    }
    if total(picks, g) < short {
        assert(n == line.len());
        assert(picks =~= at);
    }
    picks
}

/// What the first of a line weigh, by the places they came from.
proof fn lemma_front_sum(a: Seq<Assigned>, line: Seq<Assigned>, at: Seq<int>, n: int)
    requires
        0 <= n <= line.len(),
        at.len() == line.len(),
        forall|k: int|
            0 <= k < line.len() ==> a[#[trigger] at[k]].estimate.bytes->0 as nat == charge(line[k]),
    ensures
        total(at.take(n), |k: int| a[k].estimate.bytes->0 as nat) == total(
            line.take(n),
            |x: Assigned| charge(x),
        ),
    decreases n,
{
    if n > 0 {
        lemma_front_sum(a, line, at, n - 1);
        assert(at.take(n).drop_last() =~= at.take(n - 1));
        assert(line.take(n).drop_last() =~= line.take(n - 1));
        assert(at.take(n).last() == at[n - 1]);
    } else {
        assert(at.take(0).len() == 0 && line.take(0).len() == 0);
    }
}

} // verus!
