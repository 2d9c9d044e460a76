//! What resolving a model promises, in terms of what is listed and offered.
use vstd::prelude::*;

use crate::actuate::laws::{chosen, lemma_target, room_left};
use crate::actuate::plan::target_of;
use crate::estimate::estimator::{Basis, Estimate};
use crate::inventory::artifact::Artifact;
use crate::inventory::identity::canonical;
use crate::ledger::ProviderRow;
use crate::memory::Machine;
use crate::provider::{kind_text, LoadedModel, State};
use crate::resolve::decide::{decision, in_state, sent, Decision};
use crate::resolve::identity::{
    all_asked_for, asked_for, goes_by, is_asked_for, lies_at, offers, Candidate,
};
use crate::seqs::{first_index, lemma_filter_members, lemma_first_index};
use crate::text::opt_text;

verus! {

/// Whether an offer is the first that is loaded, of those whose artifact was
/// reported where there is such a one.
pub open spec fn first_loaded(offers: Seq<Candidate>, k: int) -> bool {
    &&& 0 <= k < offers.len()
    &&& offers[k].state == State::Loaded
    &&& forall|j: int|
        0 <= j < offers.len() && j != k && (#[trigger] offers[j]).state == State::Loaded
            ==> if offers[k].provenance is Recorded {
            offers[j].provenance is Recorded ==> k < j
        } else {
            !(offers[j].provenance is Recorded) && k < j
        }
}

proof fn lemma_loaded(offers: Seq<Candidate>)
    ensures
        match crate::resolve::decide::loaded_offer(offers) {
            Some(c) => exists|k: int| #[trigger] first_loaded(offers, k) && offers[k] == c,
            None => forall|j: int|
                0 <= j < offers.len() ==> (#[trigger] offers[j]).state != State::Loaded,
        },
        forall|k: int| #[trigger]
            first_loaded(offers, k) ==> crate::resolve::decide::loaded_offer(offers) == Some(
                offers[k],
            ),
{
    let best = |c: Candidate| in_state(c, State::Loaded, true);
    let any = |c: Candidate| in_state(c, State::Loaded, false);
    lemma_first_index(offers, best);
    lemma_first_index(offers, any);
    let b = first_index(offers, best);
    let f = first_index(offers, any);
    if b < offers.len() {
        assert(best(offers[b]));
        assert forall|j: int|
            0 <= j < offers.len() && j != b && (#[trigger] offers[j]).state == State::Loaded
                && offers[j].provenance is Recorded implies b < j by {
            assert(best(offers[j]));
        }
        assert(first_loaded(offers, b));
    } else if f < offers.len() {
        assert(any(offers[f]));
        assert(!best(offers[f]));
        assert forall|j: int|
            0 <= j < offers.len() && j != f && (#[trigger] offers[j]).state
                == State::Loaded implies !(offers[j].provenance is Recorded) && f < j by {
            assert(!best(offers[j]));
            assert(any(offers[j]));
        }
        assert(first_loaded(offers, f));
    } else {
        assert forall|j: int| 0 <= j < offers.len() implies (#[trigger] offers[j]).state
            != State::Loaded by {
            assert(!any(offers[j]));
        }
    }
    assert forall|k: int| #[trigger]
        first_loaded(offers, k) implies crate::resolve::decide::loaded_offer(offers) == Some(
        offers[k],
    ) by {
        assert(any(offers[k]));
        assert(offers.any(any));
        if b < offers.len() {
            assert(best(offers[b]));
            if b != k {
                assert(offers[b].state == State::Loaded);
                assert(best(offers[k]));
            }
        } else {
            assert(!best(offers[k]));
            if f != k {
                assert(any(offers[f]));
                assert(offers[f].state == State::Loaded);
            }
        }
    }
}

/// Where a request goes. Where an offer is loaded it goes to one that is, of a
/// reported artifact first, and is resident. Otherwise, where one is loading, it
/// waits. Otherwise it goes to the offer a load would choose exactly when the
/// figure for it was measured or computed and fits in what is free beyond the
/// reserve, and is then not resident; and else it is denied. Wherever it goes it
/// goes to that offer's own address, under its own id.
#[verifier::rlimit(40)]
pub proof fn a_request_goes_where_the_model_is_or_fits(
    offers: Seq<Candidate>,
    estimate: Estimate,
    machine: Machine,
    reserve: u64,
    d: Decision,
)
    requires
        sent(d) == decision(offers, estimate, machine, reserve),
    ensures
        ({
            let loaded = exists|j: int|
                0 <= j < offers.len() && (#[trigger] offers[j]).state == State::Loaded;
            let loading = exists|j: int|
                0 <= j < offers.len() && (#[trigger] offers[j]).state == State::Loading;
            let fits = estimate.bytes is Some && (estimate.basis == Basis::Measured
                || estimate.basis == Basis::Computed) && estimate.bytes->0 <= room_left(
                machine,
                reserve,
            );
            &&& d is Wait <==> !loaded && loading
            &&& d is Ready <==> loaded || (!loading && fits && offers.len() > 0)
            &&& d is Ready ==> d->resident == loaded
            &&& d is Ready ==> exists|k: int|
                {
                    &&& 0 <= k < offers.len()
                    &&& loaded ==> first_loaded(offers, k)
                    &&& !loaded ==> chosen(offers, None, k)
                    &&& d->base_url@ == (#[trigger] offers[k]).url@
                    &&& d->provider_model_id@ == offers[k].provider_model_id@
                    &&& d->provider@ == kind_text(offers[k].provider)
                    &&& d->inferred <==> offers[k].provenance is Inferred
                }
        }),
{
    lemma_loaded(offers);
    lemma_target(offers, None);
    let on = |c: Candidate| in_state(c, State::Loading, false);
    lemma_first_index(offers, on);
    let f = first_index(offers, on);
    if f < offers.len() {
        assert(on(offers[f]));
    }
    if exists|j: int| 0 <= j < offers.len() && (#[trigger] offers[j]).state == State::Loading {
        let j = choose|j: int|
            0 <= j < offers.len() && (#[trigger] offers[j]).state == State::Loading;
        assert(on(offers[j]));
        assert(offers.any(on));
    }
    if let Some(c) = crate::resolve::decide::loaded_offer(offers) {
        let k = choose|k: int| #[trigger] first_loaded(offers, k) && offers[k] == c;
        assert(offers[k].state == State::Loaded);
    }
    if offers.len() > 0 {
        lemma_some_chosen(offers);
    }
    if let Some(c) = target_of(offers, None) {
        let k = choose|k: int| #[trigger] chosen(offers, None, k) && offers[k] == c;
        assert(offers[k] == c);
    }
}

proof fn lemma_some_chosen(offers: Seq<Candidate>)
    requires
        offers.len() > 0,
    ensures
        target_of(offers, None) is Some,
{
    let any = |c: Candidate| crate::actuate::plan::allowed(c, None);
    lemma_first_index(offers, any);
    assert(any(offers[0]));
    assert(offers.any(any));
}

/// Whether a listed model is asked for: by its own id, or by the name both go by.
pub open spec fn answers_to(m: LoadedModel, model: Seq<char>) -> bool {
    m.id@ == model || (canonical(m.id@) == canonical(model) && canonical(model).len() > 0)
}

/// Whether an offer is that of a listed model: at the row's provider and
/// address, under the model's own id and in its state.
pub open spec fn is_offer_of(c: Candidate, row: ProviderRow, m: LoadedModel) -> bool {
    &&& c.provider == row.kind
    &&& c.url@ == row.url@
    &&& c.provider_model_id@ == m.id@
    &&& c.state == m.state
}

/// Whether an offer is that of a model that is listed and asked for.
pub open spec fn is_listed(c: Candidate, rows: Seq<ProviderRow>, model: Seq<char>) -> bool {
    exists|r: int, k: int|
        {
            &&& 0 <= r < rows.len()
            &&& rows[r].outcome is Answered
            &&& 0 <= k < rows[r].outcome->Answered_0@.len()
            &&& answers_to(#[trigger] rows[r].outcome->Answered_0@[k], model)
            &&& is_offer_of(c, rows[r], rows[r].outcome->Answered_0@[k])
        }
}

proof fn lemma_asked(rows: Seq<ProviderRow>, model: Seq<char>)
    ensures
        forall|r: int, k: int|
            #![trigger rows[r].outcome->Answered_0@[k]]
            0 <= r < rows.len() && rows[r].outcome is Answered && 0 <= k
                < rows[r].outcome->Answered_0@.len() && answers_to(
                rows[r].outcome->Answered_0@[k],
                model,
            ) ==> all_asked_for(rows, model).contains((rows[r], rows[r].outcome->Answered_0@[k])),
        forall|i: int|
            0 <= i < all_asked_for(rows, model).len() ==> {
                let x = #[trigger] all_asked_for(rows, model)[i];
                &&& rows.contains(x.0)
                &&& x.0.outcome is Answered
                &&& x.0.outcome->Answered_0@.contains(x.1)
                &&& answers_to(x.1, model)
            },
    decreases rows.len(),
{
    if rows.len() > 0 {
        let t = rows.drop_last();
        let row = rows.last();
        lemma_asked(t, model);
        let before = all_asked_for(t, model);
        let own = asked_for(row.outcome, model);
        let all = all_asked_for(rows, model);
        let f = |m: LoadedModel| (row, m);
        assert(all == before + own.map_values(f));
        assert(rows[rows.len() - 1] == row);
        let p = |m: LoadedModel| is_asked_for(m, model);
        if row.outcome is Answered {
            lemma_filter_members(row.outcome->Answered_0@, p);
        }
        assert forall|r: int, k: int|
            #![trigger rows[r].outcome->Answered_0@[k]]
            0 <= r < rows.len() && rows[r].outcome is Answered && 0 <= k
                < rows[r].outcome->Answered_0@.len() && answers_to(
                rows[r].outcome->Answered_0@[k],
                model,
            ) implies all.contains((rows[r], rows[r].outcome->Answered_0@[k])) by {
            let m = rows[r].outcome->Answered_0@[k];
            if r < t.len() {
                assert(t[r] == rows[r]);
                assert(t[r].outcome->Answered_0@[k] == m);
                assert(before.contains((t[r], m)));
                let i = before.index_of((t[r], m));
                assert(all[i] == (rows[r], m));
            } else {
                assert(rows[r] == row);
                assert(row.outcome->Answered_0@.contains(m) && p(m));
                assert(own.contains(m));
                let i = own.index_of(m);
                assert(all[before.len() + i] == f(own[i]));
            }
        }
        assert forall|i: int| 0 <= i < all.len() implies {
            let x = #[trigger] all[i];
            &&& rows.contains(x.0)
            &&& x.0.outcome is Answered
            &&& x.0.outcome->Answered_0@.contains(x.1)
            &&& answers_to(x.1, model)
        } by {
            let x = all[i];
            if i < before.len() {
                assert(before[i] == x);
                let r = t.index_of(x.0);
                assert(rows[r] == x.0);
            } else {
                let m = own[i - before.len()];
                assert(x == f(m));
                assert(own.contains(m));
                assert(p(m));
            }
        }
    }
}

/// A model is offered wherever a provider that answered lists it, by its own id
/// or by the name both go by, and nowhere else: at that provider and address,
/// under the id it is listed by and in the state it is in.
pub proof fn a_model_is_offered_wherever_it_is_listed(
    rows: Seq<ProviderRow>,
    artifacts: Seq<Artifact>,
    model: Seq<char>,
    out: Seq<Candidate>,
)
    requires
        out.len() == all_asked_for(rows, model).len(),
        forall|i: int|
            0 <= i < out.len() ==> offers(
                #[trigger] out[i],
                all_asked_for(rows, model)[i].0,
                all_asked_for(rows, model)[i].1,
                artifacts,
            ),
    ensures
        forall|r: int, k: int|
            #![trigger rows[r].outcome->Answered_0@[k]]
            0 <= r < rows.len() && rows[r].outcome is Answered && 0 <= k
                < rows[r].outcome->Answered_0@.len() && answers_to(
                rows[r].outcome->Answered_0@[k],
                model,
            ) ==> exists|i: int|
                0 <= i < out.len() && is_offer_of(
                    #[trigger] out[i],
                    rows[r],
                    rows[r].outcome->Answered_0@[k],
                ),
        forall|i: int| 0 <= i < out.len() ==> is_listed(#[trigger] out[i], rows, model),
{
    lemma_asked(rows, model);
    let all = all_asked_for(rows, model);
    assert forall|r: int, k: int|
        #![trigger rows[r].outcome->Answered_0@[k]]
        0 <= r < rows.len() && rows[r].outcome is Answered && 0 <= k
            < rows[r].outcome->Answered_0@.len() && answers_to(
            rows[r].outcome->Answered_0@[k],
            model,
        ) implies exists|i: int|
        0 <= i < out.len() && is_offer_of(
            #[trigger] out[i],
            rows[r],
            rows[r].outcome->Answered_0@[k],
        ) by {
        let x = (rows[r], rows[r].outcome->Answered_0@[k]);
        assert(all.contains(x));
        let i = all.index_of(x);
        assert(offers(out[i], all[i].0, all[i].1, artifacts));
        assert(is_offer_of(out[i], rows[r], rows[r].outcome->Answered_0@[k]));
    }
    assert forall|i: int| 0 <= i < out.len() implies is_listed(#[trigger] out[i], rows, model) by {
        let x = all[i];
        let r = rows.index_of(x.0);
        let k = x.0.outcome->Answered_0@.index_of(x.1);
        assert(rows[r].outcome->Answered_0@[k] == x.1);
        assert(offers(out[i], all[i].0, all[i].1, artifacts));
        assert(is_offer_of(out[i], rows[r], rows[r].outcome->Answered_0@[k]));
    }
}

/// The artifact behind an offer was reported exactly when one lies where the
/// provider says, and it is then the first that does. Otherwise it is inferred,
/// and the first that goes by the model's name, where there is one.
pub proof fn an_artifact_is_recorded_only_where_it_was_reported(
    c: Candidate,
    row: ProviderRow,
    m: LoadedModel,
    artifacts: Seq<Artifact>,
)
    requires
        offers(c, row, m, artifacts),
    ensures
        c.provenance is Recorded <==> m.artifact_path is Some && exists|i: int|
            0 <= i < artifacts.len() && (#[trigger] artifacts[i]).path@ == m.artifact_path->0@,
        c.provenance is Recorded ==> c.artifact is Some && exists|i: int|
            0 <= i < artifacts.len() && (#[trigger] artifacts[i]).path@ == m.artifact_path->0@
                && c.artifact->0@ == artifacts[i].id@ && forall|j: int|
                0 <= j < i ==> (#[trigger] artifacts[j]).path@ != m.artifact_path->0@,
        c.provenance is Inferred ==> match c.artifact {
            Some(id) => exists|i: int|
                0 <= i < artifacts.len() && canonical((#[trigger] artifacts[i]).name_hint@)
                    == canonical(m.id@) && canonical(m.id@).len() > 0 && id@ == artifacts[i].id@
                    && forall|j: int|
                    0 <= j < i ==> canonical((#[trigger] artifacts[j]).name_hint@) != canonical(
                        m.id@,
                    ),
            None => canonical(m.id@).len() == 0 || forall|j: int|
                0 <= j < artifacts.len() ==> canonical((#[trigger] artifacts[j]).name_hint@)
                    != canonical(m.id@),
        },
{
    let path = opt_text(m.artifact_path);
    let p = |a: Artifact| lies_at(a, opt_text(m.artifact_path));
    let q = |a: Artifact| goes_by(a, m.id@);
    lemma_first_index(artifacts, p);
    lemma_first_index(artifacts, q);
    let f = first_index(artifacts, p);
    let g = first_index(artifacts, q);
    if f < artifacts.len() {
        assert(p(artifacts[f]));
        assert forall|j: int| 0 <= j < f implies (#[trigger] artifacts[j]).path@
            != m.artifact_path->0@ by {
            assert(!p(artifacts[j]));
        }
        assert(artifacts[f].path@ == m.artifact_path->0@);
    } else {
        assert forall|j: int| 0 <= j < artifacts.len() && m.artifact_path is Some implies (
        #[trigger] artifacts[j]).path@ != m.artifact_path->0@ by {
            assert(!p(artifacts[j]));
        }
        if g < artifacts.len() {
            assert(q(artifacts[g]));
        }
        assert forall|j: int| 0 <= j < g && canonical(m.id@).len() > 0 implies canonical(
            (#[trigger] artifacts[j]).name_hint@,
        ) != canonical(m.id@) by {
            assert(!q(artifacts[j]));
        }
    }
}

} // verus!
