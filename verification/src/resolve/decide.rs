//! Where a request for a model would be sent.
use vstd::prelude::*;

use crate::actuate::plan::{
    admissible, alternatives, alternatives_of, choose_candidate, figure_of, headroom_of,
    no_room_text, refusal_reason, target_of,
};
use crate::estimate::estimator::Estimate;
use crate::inventory::artifact::Provenance;
use crate::memory::Machine;
use crate::provider::{kind_text, State};
use crate::resolve::identity::Candidate;
use crate::seqs::{first_index, first_match, lemma_first_index, lemma_first_index_is};
use crate::text::{cat4, texts};

verus! {

/// What resolving a model came to.
#[derive(Debug)]
pub enum Decision {
    /// Send it here.
    Ready {
        base_url: String,
        provider_model_id: String,
        provider: String,
        resident: bool,
        /// The model behind it was told by its name alone.
        inferred: bool,
    },
    /// Ask again.
    Wait { reason: String },
    /// Not now, with what else could serve it.
    Deny { reason: String, alternatives: Vec<String> },
}

/// A decision, in texts.
#[verifier::ext_equal]
pub enum Sent {
    Ready {
        base_url: Seq<char>,
        provider_model_id: Seq<char>,
        provider: Seq<char>,
        resident: bool,
        inferred: bool,
    },
    Wait { reason: Seq<char> },
    Deny { reason: Seq<char>, alternatives: Seq<Seq<char>> },
}

pub open spec fn sent(d: Decision) -> Sent {
    match d {
        Decision::Ready { base_url, provider_model_id, provider, resident, inferred } => Sent::Ready {
            base_url: base_url@,
            provider_model_id: provider_model_id@,
            provider: provider@,
            resident,
            inferred,
        },
        Decision::Wait { reason } => Sent::Wait { reason: reason@ },
        Decision::Deny { reason, alternatives } => Sent::Deny {
            reason: reason@,
            alternatives: texts(alternatives@),
        },
    }
}

/// Whether an offer is in a state, and of a reported artifact where that is
/// asked.
pub open spec fn in_state(c: Candidate, state: State, recorded: bool) -> bool {
    c.state == state && (!recorded || c.provenance is Recorded)
}

/// The first offer in a state.
pub open spec fn first_in(offers: Seq<Candidate>, state: State, recorded: bool) -> Option<Candidate> {
    first_match(offers, |c: Candidate| in_state(c, state, recorded))
}

/// The offer a request goes to where the model is there already: of a reported
/// artifact rather than a derived one, and the first of equals.
pub open spec fn loaded_offer(offers: Seq<Candidate>) -> Option<Candidate> {
    match first_in(offers, State::Loaded, true) {
        Some(c) => Some(c),
        None => first_in(offers, State::Loaded, false),
    }
}

/// The first offer that is on its way.
pub open spec fn loading_offer(offers: Seq<Candidate>) -> Option<Candidate> {
    first_in(offers, State::Loading, false)
}

/// Sent to an offer.
pub open spec fn ready(c: Candidate, resident: bool) -> Sent {
    Sent::Ready {
        base_url: c.url@,
        provider_model_id: c.provider_model_id@,
        provider: kind_text(c.provider),
        resident,
        inferred: c.provenance is Inferred,
    }
}

/// Where a request goes as things stand: residency first, recorded identity
/// second, and nothing is unloaded for it.
pub open spec fn decision(
    offers: Seq<Candidate>,
    estimate: Estimate,
    machine: Machine,
    reserve: u64,
) -> Sent {
    match loaded_offer(offers) {
        Some(c) => ready(c, true),
        None => match loading_offer(offers) {
            Some(c) => Sent::Wait {
                reason: "`"@ + c.provider_model_id@ + "` is loading on "@ + kind_text(c.provider),
            },
            None => match target_of(offers, None) {
                None => Sent::Deny {
                    reason: "no provider serves this model"@,
                    alternatives: Seq::empty(),
                },
                Some(c) => match admissible(estimate) {
                    Err(why) => Sent::Deny {
                        reason: why,
                        alternatives: alternatives_of(offers, c),
                    },
                    Ok(wanted) => if wanted <= headroom_of(machine, reserve, 0) {
                        ready(c, false)
                    } else {
                        Sent::Deny {
                            reason: no_room_text(
                                wanted,
                                headroom_of(machine, reserve, 0),
                                Seq::empty(),
                            ),
                            alternatives: alternatives_of(offers, c),
                        }
                    },
                },
            },
        },
    }
}

fn ready_on(c: &Candidate, resident: bool) -> (d: Decision)
    ensures
        sent(d) == ready(*c, resident),
{
    Decision::Ready {
        base_url: c.url.clone(),
        provider_model_id: c.provider_model_id.clone(),
        provider: c.provider.as_str().to_owned(),
        resident,
        inferred: match &c.provenance {
            Provenance::Inferred { .. } => true,
            _ => false,
        },
    }
}

/// The first offer in a state, only of reported artifacts where that is asked.
fn find_in(offers: &[Candidate], state: State, recorded: bool) -> (r: Option<usize>)
    ensures
        match r {
            Some(i) => i < offers@.len() && first_in(offers@, state, recorded) == Some(
                offers@[i as int],
            ),
            None => first_in(offers@, state, recorded) is None,
        },
{
    let ghost p = |c: Candidate| in_state(c, state, recorded);
    let mut i: usize = 0;
    while i < offers.len()
        invariant
            i <= offers@.len(),
            p == (|c: Candidate| in_state(c, state, recorded)),
            forall|k: int| 0 <= k < i ==> !p(#[trigger] offers@[k]),
        decreases offers.len() - i,
    {
        let c = &offers[i];
        if c.state == state && (!recorded || c.provenance.is_recorded()) {
            proof {
                assert(p(offers@[i as int]));
                lemma_first_index_is(offers@, p, i as int);
            }
            return Some(i);
        }
        proof {
            assert(!p(offers@[i as int]));
        }
        i += 1;
    }
    proof {
        lemma_first_index_is(offers@, p, i as int);
    }
    None
}

/// Where a request would go as things stand. A model that is there needs no
/// admission; one that is not is admitted by the same ladder as a load, and
/// nothing is unloaded for it.
pub fn decide(offers: &[Candidate], estimate: &Estimate, machine: &Machine, reserve: u64) -> (d:
    Decision)
    ensures
        sent(d) == decision(offers@, *estimate, *machine, reserve),
{
    if let Some(i) = find_in(offers, State::Loaded, true) {
        return ready_on(&offers[i], true);
    }
    if let Some(i) = find_in(offers, State::Loaded, false) {
        return ready_on(&offers[i], true);
    }
    if let Some(i) = find_in(offers, State::Loading, false) {
        let c = &offers[i];
        return Decision::Wait {
            reason: cat4("`", c.provider_model_id.as_str(), "` is loading on ", c.provider.as_str()),
        };
    }
    let target = match choose_candidate(offers, None) {
        Some(i) => &offers[i],
        None => {
            let none: Vec<String> = Vec::new();
            proof {
                assert(texts(none@) =~= Seq::empty());
            }
            return Decision::Deny {
                reason: "no provider serves this model".to_owned(),
                alternatives: none,
            };
        },
    };
    match figure_of(estimate) {
        Err(reason) => Decision::Deny { reason, alternatives: alternatives(offers, target) },
        Ok(wanted) => {
            let headroom = machine.free_bytes().saturating_sub(reserve);
            if wanted <= headroom {
                ready_on(target, false)
            } else {
                let none: Vec<String> = Vec::new();
                proof {
                    assert(texts(none@) =~= Seq::empty());
                }
                Decision::Deny {
                    reason: refusal_reason(wanted, headroom, &none),
                    alternatives: alternatives(offers, target),
                }
            }
        },
    }
}

/// Residency comes first, and recorded identity second: where an offer is
/// loaded the request goes to a loaded one, whatever the figures say, and to
/// one of a reported artifact where such a one is loaded.
pub proof fn residency_comes_first(
    offers: Seq<Candidate>,
    estimate: Estimate,
    machine: Machine,
    reserve: u64,
    i: int,
)
    requires
        0 <= i < offers.len(),
        offers[i].state == State::Loaded,
    ensures
        exists|k: int|
            0 <= k < offers.len() && (#[trigger] offers[k]).state == State::Loaded && decision(
                offers,
                estimate,
                machine,
                reserve,
            ) == ready(offers[k], true) && (offers[i].provenance is Recorded
                ==> offers[k].provenance is Recorded),
{
    let best = |c: Candidate| in_state(c, State::Loaded, true);
    let any = |c: Candidate| in_state(c, State::Loaded, false);
    lemma_first_index(offers, best);
    lemma_first_index(offers, any);
    assert(any(offers[i]));
    if offers.any(best) {
        let k = first_index(offers, best);
        assert(best(offers[k]));
        assert(offers[k].state == State::Loaded);
    } else {
        let k = first_index(offers, any);
        assert(any(offers[k]));
        assert(!best(offers[i]));
        assert(offers[k].state == State::Loaded);
    }
}

/// A request is sent only where nothing has to make way: to a model that is
/// there, or one that fits beside what is resident and beyond the reserve.
pub proof fn a_request_displaces_nothing(
    offers: Seq<Candidate>,
    estimate: Estimate,
    machine: Machine,
    reserve: u64,
)
    requires
        decision(offers, estimate, machine, reserve) matches Sent::Ready { resident, .. }
            && !resident,
    ensures
        admissible(estimate) matches Ok(wanted) && (wanted == 0 || wanted + reserve
            <= machine.free()),
{
}

} // verus!
