//! What to unload, and what to load, decided before anything is touched.
//!
//! A pure function over the ledger, the pins and an estimate.
//!
//! A model *observed* to be busy is never evicted. No provider publishes
//! per-model request state, and where busy state is unpublished the protection
//! is the **pin**: the operator knows things the providers will not say.
use vstd::prelude::*;

use crate::actuate::room::{
    as_few_as_can_go, at_places, climbs, cost, freed, going, no_later, victims, victims_for,
};
use crate::estimate::estimator::{Basis, Estimate};
use crate::memory::Machine;
use crate::pins::{blame_text, holder, Pins};
use crate::provider::{kind_text, Actuation, ProviderKind};
use crate::render::{bytes_text, human_bytes};
use crate::resolve::identity::{same_offer, Candidate};
use crate::seqs::{
    capped, first_index, first_match, lemma_filter_members, lemma_filter_take, lemma_first_index,
    lemma_first_index_is, lemma_stable_sort, lemma_stable_sort_contains, sort_with, stable_sort,
    total, total_preorder,
};
use crate::text::{cat3, cat4, cat5, cat7, join, joined, same, texts};

verus! {

/// One resident model, as the planner needs to see it.
#[derive(Debug)]
pub struct Resident {
    pub provider: ProviderKind,
    pub model: String,
    /// What it is costing, by the same ladder admission uses.
    pub estimated_bytes: u64,
    /// Eviction order: **lower goes first**.
    ///
    /// Ollama supplies its expiry, which it moves forward on every use. The
    /// others publish nothing comparable and get 0, which leaves their order
    /// the ledger's own. It ranks; it does not measure.
    pub evict_rank: u64,
    /// Observed to be serving a request. `false` also covers "could not tell".
    pub busy: bool,
    pub actuation: Actuation,
}

impl Clone for Resident {
    fn clone(&self) -> (r: Self)
        ensures
            r == *self,
    {
        Resident {
            provider: self.provider,
            model: self.model.clone(),
            estimated_bytes: self.estimated_bytes,
            evict_rank: self.evict_rank,
            busy: self.busy,
            actuation: self.actuation,
        }
    }
}

/// What the caller asked for.
#[derive(Debug)]
pub struct Request {
    pub model: String,
    pub context_tokens: Option<u32>,
    /// `switch`: the model to free first, whatever the arithmetic says.
    pub free_first: Option<String>,
    /// Where the model must be served. A caller that says where it lives is
    /// not quietly resolved somewhere else.
    pub provider: Option<ProviderKind>,
    /// How long the provider should keep the model once idle.
    pub ttl_seconds: Option<u64>,
}

#[derive(Debug, Clone, Copy, PartialEq, Eq, Structural)]
pub enum UnloadReason {
    /// The caller named it. That is consent, and it overrides a pin.
    Named,
    /// Chosen by the planner to free room. Never crosses a pin.
    MakingRoom,
}

#[derive(Debug)]
pub enum Action {
    Unload { provider: ProviderKind, model: String, reason: UnloadReason },
    Load { provider: ProviderKind, model: String, context_tokens: Option<u32> },
}

#[derive(Debug)]
pub enum Plan {
    Actions(Vec<Action>),
    AlreadyResident { provider: ProviderKind, model: String, base_url: String },
    Refused {
        reason: String,
        /// Every protected model that would otherwise have been a candidate.
        pinned_blockers: Vec<String>,
        alternatives: Vec<String>,
    },
}

/// An action, in texts.
#[verifier::ext_equal]
pub enum Step {
    Unload { provider: ProviderKind, model: Seq<char>, reason: UnloadReason },
    Load { provider: ProviderKind, model: Seq<char>, context_tokens: Option<u32> },
}

/// A plan, in texts.
#[verifier::ext_equal]
pub enum Decided {
    Actions(Seq<Step>),
    AlreadyResident { provider: ProviderKind, model: Seq<char>, base_url: Seq<char> },
    Refused { reason: Seq<char>, blockers: Seq<Seq<char>>, alternatives: Seq<Seq<char>> },
}

pub open spec fn step_of(a: Action) -> Step {
    match a {
        Action::Unload { provider, model, reason } => Step::Unload {
            provider,
            model: model@,
            reason,
        },
        Action::Load { provider, model, context_tokens } => Step::Load {
            provider,
            model: model@,
            context_tokens,
        },
    }
}

pub open spec fn steps_of(a: Seq<Action>) -> Seq<Step> {
    a.map_values(|x: Action| step_of(x))
}

pub open spec fn decided(p: Plan) -> Decided {
    match p {
        Plan::Actions(a) => Decided::Actions(steps_of(a@)),
        Plan::AlreadyResident { provider, model, base_url } => Decided::AlreadyResident {
            provider,
            model: model@,
            base_url: base_url@,
        },
        Plan::Refused { reason, pinned_blockers, alternatives } => Decided::Refused {
            reason: reason@,
            blockers: texts(pinned_blockers@),
            alternatives: texts(alternatives@),
        },
    }
}

/// Whether a candidate is where the caller asked for.
pub open spec fn allowed(c: Candidate, wanted: Option<ProviderKind>) -> bool {
    wanted is None || wanted == Some(c.provider)
}

/// The candidate to load: a reported artifact beats a derived one, and the
/// first of equals wins.
pub open spec fn target_of(candidates: Seq<Candidate>, wanted: Option<ProviderKind>) -> Option<
    Candidate,
> {
    match first_match(candidates, |c: Candidate| allowed(c, wanted) && c.provenance is Recorded) {
        Some(c) => Some(c),
        None => first_match(candidates, |c: Candidate| allowed(c, wanted)),
    }
}

/// Whether a resident model is the one a candidate offers.
pub open spec fn is_target(r: Resident, c: Candidate) -> bool {
    r.provider == c.provider && r.model@ == c.provider_model_id@
}

/// Whether a resident model is the one the caller named to be freed.
pub open spec fn is_named(r: Resident, request: Request) -> bool {
    request.free_first matches Some(n) && r.model@ == n@
}

/// Whether a resident model could be moved at all: not already going, not
/// what is being loaded, unloadable, and not observed to be serving.
pub open spec fn movable(r: Resident, target: Candidate, request: Request) -> bool {
    !is_named(r, request) && !is_target(r, target) && r.actuation is ModelLevel && !r.busy
}

/// Whether a resident model may be unloaded to make room: movable, and nothing
/// protects it.
pub open spec fn evictable(
    r: Resident,
    pins: Seq<crate::pins::Pin>,
    now: u64,
    target: Candidate,
    request: Request,
) -> bool {
    movable(r, target, request) && holder(pins, r.provider, r.model@, now) is None
}

/// How a protected model that could otherwise have moved is named.
pub open spec fn blocker(
    r: Resident,
    pins: Seq<crate::pins::Pin>,
    now: u64,
    target: Candidate,
    request: Request,
) -> Option<Seq<char>> {
    if movable(r, target, request) {
        match holder(pins, r.provider, r.model@, now) {
            Some(p) => Some(blame_text(p, now)),
            None => None,
        }
    } else {
        None
    }
}

pub open spec fn blockers(
    resident: Seq<Resident>,
    pins: Seq<crate::pins::Pin>,
    now: u64,
    target: Candidate,
    request: Request,
) -> Seq<Seq<char>> {
    resident.filter_map(|r: Resident| blocker(r, pins, now, target, request))
}

/// What may be unloaded to make room, lowest rank first, ties in ledger order.
pub open spec fn in_line(
    resident: Seq<Resident>,
    pins: Seq<crate::pins::Pin>,
    now: u64,
    target: Candidate,
    request: Request,
) -> Seq<Resident> {
    stable_sort(
        resident.filter(|r: Resident| evictable(r, pins, now, target, request)),
        |a: Resident, b: Resident| a.evict_rank <= b.evict_rank,
    )
}

pub open spec fn alternatives_of(candidates: Seq<Candidate>, chosen: Candidate) -> Seq<Seq<char>> {
    candidates.filter(|c: Candidate| !same_offer(c, chosen)).map_values(
        |c: Candidate| c.provider_model_id@ + " on "@ + kind_text(c.provider),
    )
}

/// The figure a plan may admit on, or why there is none.
pub open spec fn admissible(e: Estimate) -> Result<u64, Seq<char>> {
    match (e.bytes, e.basis) {
        (Some(b), Basis::Measured) => Ok(b),
        (Some(b), Basis::Computed) => Ok(b),
        (Some(_), Basis::Declared) => Err(
            "only a declared figure is available, which covers weights and not the cache that scales with the window"@,
        ),
        _ => Err("this shape could not be measured or computed, so it cannot be admitted"@),
    }
}

/// The room there is: what is free beyond the reserve, and what was freed.
pub open spec fn headroom_of(machine: Machine, reserve: u64, freed: u64) -> u64 {
    capped(
        (if machine.free() >= reserve {
            (machine.free() - reserve) as nat
        } else {
            0
        }) + freed as nat,
    )
}

pub open spec fn ceiling_text(a: Actuation) -> Seq<char> {
    match a {
        Actuation::SelfManaged { ceiling } => ceiling@,
        Actuation::ModelLevel => "nothing"@,
    }
}

/// Why a model on a self-managed provider cannot be freed by name.
pub open spec fn self_managed_text(name: Seq<char>, r: Resident) -> Seq<char> {
    "`"@ + name + "` is on "@ + kind_text(r.provider)
        + ", which has no model-level unload; it self-manages under "@ + ceiling_text(r.actuation)
        + " -- stop the provider with `llm-harmony stop "@ + kind_text(r.provider)
        + "` if you mean to free it"@
}

/// Why there is no room, naming what is protected.
pub open spec fn no_room_text(wanted: u64, headroom: u64, blocked: Seq<Seq<char>>) -> Seq<char> {
    let base = "needs "@ + bytes_text(wanted as nat) + " but only "@ + bytes_text(headroom as nat)
        + " can be made available"@;
    if blocked.len() == 0 {
        base
    } else {
        base + "; pinned and therefore untouchable: "@ + joined(blocked, ", "@)
    }
}

pub open spec fn load_step(target: Candidate, request: Request) -> Step {
    Step::Load {
        provider: target.provider,
        model: target.provider_model_id@,
        context_tokens: request.context_tokens,
    }
}

pub open spec fn unload_step(r: Resident, reason: UnloadReason) -> Step {
    Step::Unload { provider: r.provider, model: r.model@, reason }
}

/// The resident model the caller named to be freed, if it is there.
pub open spec fn named_resident(resident: Seq<Resident>, request: Request) -> Option<Resident> {
    first_match(resident, |r: Resident| is_named(r, request))
}

/// What follows once the named model is dealt with: admit, make room, or refuse.
pub open spec fn making_room(
    candidates: Seq<Candidate>,
    resident: Seq<Resident>,
    pins: Seq<crate::pins::Pin>,
    now: u64,
    estimate: Estimate,
    headroom: u64,
    request: Request,
    target: Candidate,
    first: Seq<Step>,
) -> Decided {
    match admissible(estimate) {
        Err(why) => Decided::Refused {
            reason: why,
            blockers: Seq::empty(),
            alternatives: alternatives_of(candidates, target),
        },
        Ok(wanted) => if wanted <= headroom {
            Decided::Actions(first.push(load_step(target, request)))
        } else {
            let need = (wanted - headroom) as nat;
            match victims(in_line(resident, pins, now, target, request), need) {
                Some(vs) => Decided::Actions(
                    (first + vs.map_values(
                        |r: Resident| unload_step(r, UnloadReason::MakingRoom),
                    )).push(load_step(target, request)),
                ),
                None => Decided::Refused {
                    reason: no_room_text(
                        wanted,
                        headroom,
                        blockers(resident, pins, now, target, request),
                    ),
                    blockers: blockers(resident, pins, now, target, request),
                    alternatives: alternatives_of(candidates, target),
                },
            }
        },
    }
}

/// What to do about a request.
pub open spec fn answer(
    candidates: Seq<Candidate>,
    resident: Seq<Resident>,
    pins: Seq<crate::pins::Pin>,
    now: u64,
    estimate: Estimate,
    machine: Machine,
    reserve: u64,
    request: Request,
) -> Decided {
    match target_of(candidates, request.provider) {
        None => Decided::Refused {
            reason: "no provider serves `"@ + request.model@ + "`"@,
            blockers: Seq::empty(),
            alternatives: Seq::empty(),
        },
        Some(target) => if request.free_first is None && resident.any(
            |r: Resident| is_target(r, target),
        ) {
            Decided::AlreadyResident {
                provider: target.provider,
                model: target.provider_model_id@,
                base_url: target.url@,
            }
        } else {
            match named_resident(resident, request) {
                Some(r) => if !(r.actuation is ModelLevel) {
                    Decided::Refused {
                        reason: self_managed_text(request.free_first->0@, r),
                        blockers: Seq::empty(),
                        alternatives: alternatives_of(candidates, target),
                    }
                } else if r.busy {
                    Decided::Refused {
                        reason: "`"@ + request.free_first->0@ + "` has a request in flight"@,
                        blockers: Seq::empty(),
                        alternatives: Seq::empty(),
                    }
                } else {
                    making_room(
                        candidates,
                        resident,
                        pins,
                        now,
                        estimate,
                        headroom_of(machine, reserve, r.estimated_bytes),
                        request,
                        target,
                        seq![unload_step(r, UnloadReason::Named)],
                    )
                },
                // Not resident: switching away from something already gone is
                // a load, not an error.
                None => making_room(
                    candidates,
                    resident,
                    pins,
                    now,
                    estimate,
                    headroom_of(machine, reserve, 0),
                    request,
                    target,
                    Seq::empty(),
                ),
            }
        },
    }
}

pub(crate) fn choose_candidate(candidates: &[Candidate], wanted: Option<ProviderKind>) -> (r: Option<usize>)
    ensures
        match r {
            Some(i) => i < candidates@.len() && target_of(candidates@, wanted) == Some(
                candidates@[i as int],
            ),
            None => target_of(candidates@, wanted) is None,
        },
{
    let ghost best = |c: Candidate| allowed(c, wanted) && c.provenance is Recorded;
    let ghost any = |c: Candidate| allowed(c, wanted);
    let mut fallback: Option<usize> = None;
    let mut i: usize = 0;
    while i < candidates.len()
        invariant
            i <= candidates@.len(),
            best == (|c: Candidate| allowed(c, wanted) && c.provenance is Recorded),
            any == (|c: Candidate| allowed(c, wanted)),
            forall|j: int| 0 <= j < i ==> !best(#[trigger] candidates@[j]),
            match fallback {
                Some(k) => k < i && any(candidates@[k as int]) && forall|j: int|
                    0 <= j < k ==> !any(#[trigger] candidates@[j]),
                None => forall|j: int| 0 <= j < i ==> !any(#[trigger] candidates@[j]),
            },
        decreases candidates.len() - i,
    {
        let c = &candidates[i];
        let here: bool = match wanted {
            Some(k) => k == c.provider,
            None => true,
        };
        if here {
            if c.provenance.is_recorded() {
                proof {
                    lemma_first_index_is(candidates@, best, i as int);
                }
                return Some(i);
            }
            if fallback.is_none() {
                fallback = Some(i);
            }
        }
        i += 1;
    }
    proof {
        lemma_first_index_is(candidates@, best, candidates@.len() as int);
        match fallback {
            Some(k) => {
                lemma_first_index_is(candidates@, any, k as int);
            },
            None => {
                lemma_first_index_is(candidates@, any, candidates@.len() as int);
            },
        }
    }
    fallback
}

fn load_action(target: &Candidate, request: &Request) -> (a: Action)
    ensures
        step_of(a) == load_step(*target, *request),
{
    Action::Load {
        provider: target.provider,
        model: target.provider_model_id.clone(),
        context_tokens: request.context_tokens,
    }
}

fn unload_action(r: &Resident, reason: UnloadReason) -> (a: Action)
    ensures
        step_of(a) == unload_step(*r, reason),
{
    Action::Unload { provider: r.provider, model: r.model.clone(), reason }
}

fn ceiling_of(a: Actuation) -> (s: &'static str)
    ensures
        s@ == ceiling_text(a),
{
    match a {
        Actuation::SelfManaged { ceiling } => ceiling,
        Actuation::ModelLevel => "nothing",
    }
}

pub(crate) fn alternatives(candidates: &[Candidate], chosen: &Candidate) -> (r: Vec<String>)
    ensures
        texts(r@) == alternatives_of(candidates@, *chosen),
{
    let ghost p = |c: Candidate| !same_offer(c, *chosen);
    let ghost f = |c: Candidate| c.provider_model_id@ + " on "@ + kind_text(c.provider);
    let mut out: Vec<String> = Vec::new();
    let mut i: usize = 0;
    while i < candidates.len()
        invariant
            i <= candidates@.len(),
            p == (|c: Candidate| !same_offer(c, *chosen)),
            f == (|c: Candidate| c.provider_model_id@ + " on "@ + kind_text(c.provider)),
            texts(out@) =~= candidates@.take(i as int).filter(p).map_values(f),
        decreases candidates.len() - i,
    {
        proof {
            lemma_filter_take(candidates@, p, i as int);
        }
        let c = &candidates[i];
        if !c.is_same(chosen) {
            let ghost was = out@;
            let offer = cat3(c.provider_model_id.as_str(), " on ", c.provider.as_str());
            out.push(offer);
            proof {
                assert(texts(out@) =~= texts(was).push(f(candidates@[i as int])));
            }
        }
        i += 1;
    }
    proof {
        assert(candidates@.take(i as int) =~= candidates@);
    }
    out
}

/// What may be unloaded to make room, in the order it would go, and what had
/// to be passed over because it is protected.
fn line_for(
    resident: &[Resident],
    pins: &Pins,
    now: u64,
    target: &Candidate,
    request: &Request,
) -> (r: (Vec<Resident>, Vec<String>))
    ensures
        r.0@ == in_line(resident@, pins@, now, *target, *request),
        texts(r.1@) == blockers(resident@, pins@, now, *target, *request),
{
    let ghost p = |r: Resident| evictable(r, pins@, now, *target, *request);
    let ghost f = |r: Resident| blocker(r, pins@, now, *target, *request);
    let mut blocked: Vec<String> = Vec::new();
    let mut eligible: Vec<Resident> = Vec::new();
    let mut i: usize = 0;
    proof {
        assert(texts(blocked@) =~= resident@.take(0).filter_map(f));
    }
    while i < resident.len()
        invariant
            i <= resident@.len(),
            p == (|r: Resident| evictable(r, pins@, now, *target, *request)),
            f == (|r: Resident| blocker(r, pins@, now, *target, *request)),
            eligible@ == resident@.take(i as int).filter(p),
            texts(blocked@) == resident@.take(i as int).filter_map(f),
        decreases resident.len() - i,
    {
        proof {
            lemma_filter_take(resident@, p, i as int);
            resident@.lemma_filter_map_take_succ(f, i as int);
        }
        let r = &resident[i];
        // Already being unloaded by name, or is the thing being loaded.
        let named: bool = match &request.free_first {
            Some(n) => same(r.model.as_str(), n.as_str()),
            None => false,
        };
        let wanted: bool = r.provider == target.provider && same(
            r.model.as_str(),
            target.provider_model_id.as_str(),
        );
        if !named && !wanted && r.actuation.can_unload() && !r.busy {
            match pins.holds(r.provider, r.model.as_str(), now) {
                Some(pin) => {
                    let ghost was = blocked@;
                    let why = pin.blame(now);
                    blocked.push(why);
                    proof {
                        assert(texts(blocked@) =~= texts(was).push(why@));
                        assert(texts(blocked@) =~= resident@.take(i + 1).filter_map(f));
                    }
                },
                None => {
                    eligible.push(r.clone());
                    proof {
                        assert(resident@.take(i + 1).filter_map(f) =~= texts(blocked@));
                    }
                },
            }
        } else {
            proof {
                assert(resident@.take(i + 1).filter_map(f) =~= texts(blocked@));
            }
        }
        i += 1;
    }
    proof {
        assert(resident@.take(i as int) =~= resident@);
    }
    // Lowest rank first: where the provider gives a real signal this is the
    // model nobody has touched, and where it does not it is ledger order.
    let le = |a: &Resident, b: &Resident| -> (r: bool)
        ensures
            r == (a.evict_rank <= b.evict_rank),
    {
        a.evict_rank <= b.evict_rank
    };
    let line = sort_with(
        eligible,
        le,
        Ghost(|a: Resident, b: Resident| a.evict_rank <= b.evict_rank),
    );
    (line, blocked)
}

pub(crate) fn refusal_reason(wanted: u64, headroom: u64, blocked: &Vec<String>) -> (r: String)
    ensures
        r@ == no_room_text(wanted, headroom, texts(blocked@)),
{
    let base = cat5(
        "needs ",
        human_bytes(wanted).as_str(),
        " but only ",
        human_bytes(headroom).as_str(),
        " can be made available",
    );
    if blocked.len() == 0 {
        base
    } else {
        cat3(
            base.as_str(),
            "; pinned and therefore untouchable: ",
            join(blocked, ", ").as_str(),
        )
    }
}

fn refused(reason: String, alternatives: Vec<String>) -> (p: Plan)
    ensures
        decided(p) == (Decided::Refused {
            reason: reason@,
            blockers: Seq::empty(),
            alternatives: texts(alternatives@),
        }),
{
    let none: Vec<String> = Vec::new();
    proof {
        assert(texts(none@) =~= Seq::empty());
    }
    Plan::Refused { reason, pinned_blockers: none, alternatives }
}

/// The figure a plan may admit on, or why there is none.
pub(crate) fn figure_of(estimate: &Estimate) -> (r: Result<u64, String>)
    ensures
        match r {
            Ok(b) => admissible(*estimate) == Ok::<u64, Seq<char>>(b),
            Err(why) => admissible(*estimate) == Err::<u64, Seq<char>>(why@),
        },
{
    match (estimate.bytes, estimate.basis) {
        (Some(b), Basis::Measured) => Ok(b),
        (Some(b), Basis::Computed) => Ok(b),
        (Some(_), Basis::Declared) => Err(
            "only a declared figure is available, which covers weights and not the cache that scales with the window".to_owned(),
        ),
        _ => Err("this shape could not be measured or computed, so it cannot be admitted".to_owned()),
    }
}

/// Admits, makes room, or refuses, once the model named to be freed is dealt with.
fn make_room(
    candidates: &[Candidate],
    resident: &[Resident],
    pins: &Pins,
    now: u64,
    estimate: &Estimate,
    headroom: u64,
    request: &Request,
    target: &Candidate,
    first: Vec<Action>,
) -> (p: Plan)
    ensures
        decided(p) == making_room(
            candidates@,
            resident@,
            pins@,
            now,
            *estimate,
            headroom,
            *request,
            *target,
            steps_of(first@),
        ),
{
    let mut actions = first;
    let ghost named = steps_of(first@);
    let wanted: u64 = match figure_of(estimate) {
        Ok(b) => b,
        Err(why) => {
            return refused(why, alternatives(candidates, target));
        },
    };
    if wanted <= headroom {
        let load = load_action(target, request);
        actions.push(load);
        proof {
            assert(steps_of(actions@) =~= named.push(load_step(*target, *request)));
        }
        return Plan::Actions(actions);
    }
    // Not enough room. Find the smallest set that makes enough, never crossing
    // a pin and never taking a model observed to be serving.
    let need: u64 = wanted - headroom;
    let (line, blocked) = line_for(resident, pins, now, target, request);
    match victims_for(need, line) {
        Some(vs) => {
            let ghost f = |r: Resident| unload_step(r, UnloadReason::MakingRoom);
            let mut i: usize = 0;
            proof {
                assert(named + vs@.take(0).map_values(f) =~= named);
            }
            while i < vs.len()
                invariant
                    i <= vs@.len(),
                    f == (|r: Resident| unload_step(r, UnloadReason::MakingRoom)),
                    steps_of(actions@) == named + vs@.take(i as int).map_values(f),
                decreases vs.len() - i,
            {
                let ghost was = actions@;
                let a = unload_action(&vs[i], UnloadReason::MakingRoom);
                actions.push(a);
                proof {
                    assert(steps_of(actions@) =~= steps_of(was).push(step_of(a)));
                    assert(named + vs@.take(i + 1).map_values(f) =~= (named + vs@.take(
                        i as int,
                    ).map_values(f)).push(f(vs@[i as int])));
                }
                i += 1;
            }
            let ghost was = actions@;
            let load = load_action(target, request);
            actions.push(load);
            proof {
                assert(vs@.take(i as int) =~= vs@);
                assert(steps_of(actions@) =~= steps_of(was).push(load_step(*target, *request)));
            }
            Plan::Actions(actions)
        },
        None => Plan::Refused {
            reason: refusal_reason(wanted, headroom, &blocked),
            pinned_blockers: blocked,
            alternatives: alternatives(candidates, target),
        },
    }
}

/// Decide what to do, touching nothing.
pub fn plan(
    candidates: &[Candidate],
    resident: &[Resident],
    pins: &Pins,
    now: u64,
    estimate: &Estimate,
    machine: &Machine,
    reserve_bytes: u64,
    request: &Request,
) -> (p: Plan)
    ensures
        decided(p) == answer(
            candidates@,
            resident@,
            pins@,
            now,
            *estimate,
            *machine,
            reserve_bytes,
            *request,
        ),
{
    let target = match choose_candidate(candidates, request.provider) {
        Some(i) => &candidates[i],
        None => {
            let none: Vec<String> = Vec::new();
            proof {
                assert(texts(none@) =~= Seq::empty());
            }
            return refused(cat3("no provider serves `", request.model.as_str(), "`"), none);
        },
    };
    let ghost at_target = |r: Resident| is_target(r, *target);
    let ghost freed_by_name = |r: Resident| is_named(r, *request);
    // Residency short-circuits everything: a redundant load would start a
    // second instance.
    let mut already: bool = false;
    let mut named: Option<usize> = None;
    let mut i: usize = 0;
    while i < resident.len()
        invariant
            i <= resident@.len(),
            at_target == (|r: Resident| is_target(r, *target)),
            freed_by_name == (|r: Resident| is_named(r, *request)),
            already == exists|j: int| 0 <= j < i && at_target(#[trigger] resident@[j]),
            match named {
                Some(k) => k < i && freed_by_name(resident@[k as int]) && forall|j: int|
                    0 <= j < k ==> !freed_by_name(#[trigger] resident@[j]),
                None => forall|j: int| 0 <= j < i ==> !freed_by_name(#[trigger] resident@[j]),
            },
        decreases resident.len() - i,
    {
        let r = &resident[i];
        if r.provider == target.provider && same(
            r.model.as_str(),
            target.provider_model_id.as_str(),
        ) {
            proof {
                assert(at_target(resident@[i as int]));
            }
            already = true;
        }
        if named.is_none() {
            if let Some(n) = &request.free_first {
                if same(r.model.as_str(), n.as_str()) {
                    named = Some(i);
                }
            }
        }
        i += 1;
    }
    if already && request.free_first.is_none() {
        return Plan::AlreadyResident {
            provider: target.provider,
            model: target.provider_model_id.clone(),
            base_url: target.url.clone(),
        };
    }
    let free: u64 = machine.free_bytes();
    let mut actions: Vec<Action> = Vec::new();
    match (named, &request.free_first) {
        (Some(k), Some(name)) => {
            proof {
                lemma_first_index_is(resident@, freed_by_name, k as int);
            }
            let r = &resident[k];
            if !r.actuation.can_unload() {
                let head = cat4("`", name.as_str(), "` is on ", r.provider.as_str());
                let text = cat7(
                    head.as_str(),
                    ", which has no model-level unload; it self-manages under ",
                    ceiling_of(r.actuation),
                    " -- stop the provider with `llm-harmony stop ",
                    r.provider.as_str(),
                    "` if you mean to free it",
                    "",
                );
                proof {
                    reveal_strlit("");
                    assert(text@ =~= self_managed_text(name@, *r));
                }
                return refused(text, alternatives(candidates, target));
            }
            if r.busy {
                let none: Vec<String> = Vec::new();
                proof {
                    assert(texts(none@) =~= Seq::empty());
                }
                return refused(cat3("`", name.as_str(), "` has a request in flight"), none);
            }
            // `switch` frees the named model first, whatever the arithmetic
            // says: the verb means "I am done with this one".
            let headroom = free.saturating_sub(reserve_bytes).saturating_add(r.estimated_bytes);
            actions.push(unload_action(r, UnloadReason::Named));
            proof {
                assert(steps_of(actions@) =~= seq![unload_step(*r, UnloadReason::Named)]);
            }
            make_room(
                candidates,
                resident,
                pins,
                now,
                estimate,
                headroom,
                request,
                target,
                actions,
            )
        },
        _ => {
            proof {
                lemma_first_index_is(resident@, freed_by_name, resident@.len() as int);
                assert(steps_of(actions@) =~= Seq::empty());
            }
            let headroom = free.saturating_sub(reserve_bytes);
            make_room(
                candidates,
                resident,
                pins,
                now,
                estimate,
                headroom,
                request,
                target,
                actions,
            )
        },
    }
}

/// Whether an unload is one the planner may order: of a model the caller named
/// that can be unloaded and is not serving, or of one that nothing protects,
/// that can be unloaded, is not serving and is not what is being loaded.
pub open spec fn may_unload(
    step: Step,
    resident: Seq<Resident>,
    pins: Seq<crate::pins::Pin>,
    now: u64,
    request: Request,
) -> bool {
    match step {
        Step::Unload { provider, model, reason: UnloadReason::Named } => exists|i: int|
            #![trigger resident[i]]
            0 <= i < resident.len() && resident[i].provider == provider && resident[i].model@
                == model && is_named(resident[i], request) && resident[i].actuation is ModelLevel
                && !resident[i].busy,
        Step::Unload { provider, model, reason: UnloadReason::MakingRoom } => holder(
            pins,
            provider,
            model,
            now,
        ) is None && exists|i: int|
            #![trigger resident[i]]
            0 <= i < resident.len() && resident[i].provider == provider && resident[i].model@
                == model && resident[i].actuation is ModelLevel && !resident[i].busy && !is_named(
                resident[i],
                request,
            ),
        Step::Load { .. } => false,
    }
}

/// Every element of the line is a resident model that may be evicted.
proof fn lemma_line_members(
    resident: Seq<Resident>,
    pins: Seq<crate::pins::Pin>,
    now: u64,
    target: Candidate,
    request: Request,
    r: Resident,
)
    requires
        in_line(resident, pins, now, target, request).contains(r),
    ensures
        resident.contains(r),
        evictable(r, pins, now, target, request),
{
    let p = |r: Resident| evictable(r, pins, now, target, request);
    lemma_stable_sort_contains(
        resident.filter(p),
        |a: Resident, b: Resident| a.evict_rank <= b.evict_rank,
        r,
    );
    lemma_filter_members(resident, p);
}

/// A plan is some unloads the planner may order, then one load of the target,
/// and nothing else. In particular nothing protected, nothing observed to be
/// busy and nothing on a self-managed provider is ever unloaded to make room,
/// and naming a model overrides a pin but never a request in flight.
pub proof fn a_plan_unloads_only_what_it_may_and_ends_in_one_load(
    candidates: Seq<Candidate>,
    resident: Seq<Resident>,
    pins: Seq<crate::pins::Pin>,
    now: u64,
    estimate: Estimate,
    machine: Machine,
    reserve: u64,
    request: Request,
)
    ensures
        answer(candidates, resident, pins, now, estimate, machine, reserve, request) matches
            Decided::Actions(steps) ==> {
            &&& steps.len() > 0
            &&& target_of(candidates, request.provider) matches Some(t) && steps.last()
                == load_step(t, request)
            &&& forall|i: int|
                0 <= i < steps.len() - 1 ==> may_unload(
                    #[trigger] steps[i],
                    resident,
                    pins,
                    now,
                    request,
                )
        },
{
    let a = answer(candidates, resident, pins, now, estimate, machine, reserve, request);
    if let Decided::Actions(steps) = a {
        let target = target_of(candidates, request.provider)->0;
        let by_name = |r: Resident| is_named(r, request);
        lemma_first_index(resident, by_name);
        let named = named_resident(resident, request);
        let first = if named is Some {
            seq![unload_step(named->0, UnloadReason::Named)]
        } else {
            Seq::empty()
        };
        let headroom = headroom_of(
            machine,
            reserve,
            if named is Some {
                named->0.estimated_bytes
            } else {
                0
            },
        );
        assert(a == making_room(
            candidates,
            resident,
            pins,
            now,
            estimate,
            headroom,
            request,
            target,
            first,
        ));
        let wanted = admissible(estimate)->Ok_0;
        let line = in_line(resident, pins, now, target, request);
        let need = (wanted - headroom) as nat;
        let vs = if wanted <= headroom {
            Seq::<Resident>::empty()
        } else {
            victims(line, need)->0
        };
        let f = |r: Resident| unload_step(r, UnloadReason::MakingRoom);
        assert(steps =~= (first + vs.map_values(f)).push(load_step(target, request)));
        if wanted > headroom {
            as_few_as_can_go(line, need, Seq::empty());
        }
        assert forall|i: int| 0 <= i < steps.len() - 1 implies may_unload(
            #[trigger] steps[i],
            resident,
            pins,
            now,
            request,
        ) by {
            if i < first.len() {
                let k = first_index(resident, by_name);
                assert(by_name(resident[k]));
                assert(resident[k] == named->0);
            } else {
                let r = vs[i - first.len()];
                let at = going(line, need)[i - first.len()];
                assert(line[at] == r);
                assert(line.contains(r));
                lemma_line_members(resident, pins, now, target, request, r);
                let k = resident.index_of(r);
                assert(resident[k] == r);
            }
        }
    }
}

/// Making room frees the least it can: what goes is enough, no choice of fewer
/// models that may go is, and of the choices of as few none stands earlier in
/// line, which is in the order of the ranks.
pub proof fn making_room_takes_the_smallest_sufficient_set(
    resident: Seq<Resident>,
    pins: Seq<crate::pins::Pin>,
    now: u64,
    target: Candidate,
    request: Request,
    need: nat,
    picks: Seq<int>,
)
    requires
        climbs(picks, 0, in_line(resident, pins, now, target, request).len() as int),
    ensures
        victims(in_line(resident, pins, now, target, request), need) matches Some(vs) ==> {
            let line = in_line(resident, pins, now, target, request);
            &&& vs == at_places(line, going(line, need))
            &&& climbs(going(line, need), 0, line.len() as int)
            &&& freed(line, going(line, need)) >= need
            &&& picks.len() < vs.len() ==> freed(line, picks) < need
            &&& picks.len() == vs.len() && freed(line, picks) >= need ==> no_later(
                going(line, need),
                picks,
            )
        },
        victims(in_line(resident, pins, now, target, request), need) is None ==> total(
            in_line(resident, pins, now, target, request),
            |r: Resident| cost(r),
        ) < need,
        forall|i: int, j: int|
            #![trigger in_line(resident, pins, now, target, request)[i], in_line(resident, pins, now, target, request)[j]]
            0 <= i < j < in_line(resident, pins, now, target, request).len() ==> in_line(
                resident,
                pins,
                now,
                target,
                request,
            )[i].evict_rank <= in_line(resident, pins, now, target, request)[j].evict_rank,
        forall|r: Resident|
            #![trigger in_line(resident, pins, now, target, request).contains(r)]
            in_line(resident, pins, now, target, request).contains(r) <==> (resident.contains(r)
                && evictable(r, pins, now, target, request)),
{
    let p = |r: Resident| evictable(r, pins, now, target, request);
    let le = |a: Resident, b: Resident| a.evict_rank <= b.evict_rank;
    let line = in_line(resident, pins, now, target, request);
    if total(line, |r: Resident| cost(r)) >= need {
        as_few_as_can_go(line, need, picks);
    }
    lemma_stable_sort(resident.filter(p), le);
    assert(total_preorder(le));
    assert forall|i: int, j: int|
        #![trigger line[i], line[j]]
        0 <= i < j < line.len() implies line[i].evict_rank <= line[j].evict_rank by {
        assert(le(line[i], line[j]));
    }
    lemma_filter_members(resident, p);
    assert forall|r: Resident|
        #![trigger line.contains(r)]
        line.contains(r) <==> (resident.contains(r) && evictable(
            r,
            pins,
            now,
            target,
            request,
        )) by {
        lemma_stable_sort_contains(resident.filter(p), le, r);
        assert(resident.filter(p).contains(r) <==> resident.contains(r) && p(r));
    }
}

/// With room for the model beside what is resident, nothing is disturbed.
pub proof fn a_load_that_fits_unloads_nothing(
    candidates: Seq<Candidate>,
    resident: Seq<Resident>,
    pins: Seq<crate::pins::Pin>,
    now: u64,
    estimate: Estimate,
    machine: Machine,
    reserve: u64,
    request: Request,
    target: Candidate,
    wanted: u64,
)
    requires
        target_of(candidates, request.provider) == Some(target),
        request.free_first is None,
        !resident.any(|r: Resident| is_target(r, target)),
        admissible(estimate) == Ok::<u64, Seq<char>>(wanted),
        wanted + reserve <= machine.free(),
    ensures
        answer(candidates, resident, pins, now, estimate, machine, reserve, request)
            == Decided::Actions(seq![load_step(target, request)]),
{
    lemma_first_index(resident, |r: Resident| is_named(r, request));
    assert(Seq::<Step>::empty().push(load_step(target, request)) =~= seq![
        load_step(target, request),
    ]);
}

/// A switch always frees the named model: whenever it goes ahead and the model
/// is resident, that model is the first thing unloaded, whether or not both
/// would have fitted.
pub proof fn a_switch_always_frees_the_named_model(
    candidates: Seq<Candidate>,
    resident: Seq<Resident>,
    pins: Seq<crate::pins::Pin>,
    now: u64,
    estimate: Estimate,
    machine: Machine,
    reserve: u64,
    request: Request,
)
    requires
        named_resident(resident, request) is Some,
    ensures
        !(answer(candidates, resident, pins, now, estimate, machine, reserve, request) is AlreadyResident),
        answer(candidates, resident, pins, now, estimate, machine, reserve, request) matches
            Decided::Actions(steps) ==> steps[0] == unload_step(
            named_resident(resident, request)->0,
            UnloadReason::Named,
        ),
{
    lemma_first_index(resident, |r: Resident| is_named(r, request));
}

/// A model is reported as already there exactly when it is resident where it
/// would be loaded and nothing was named to be freed; it is then never loaded
/// a second time.
pub proof fn residency_short_circuits(
    candidates: Seq<Candidate>,
    resident: Seq<Resident>,
    pins: Seq<crate::pins::Pin>,
    now: u64,
    estimate: Estimate,
    machine: Machine,
    reserve: u64,
    request: Request,
)
    ensures
        answer(candidates, resident, pins, now, estimate, machine, reserve, request) is AlreadyResident
            <==> (target_of(candidates, request.provider) matches Some(t)
            && request.free_first is None && resident.any(|r: Resident| is_target(r, t))),
{
}

/// A refusal for want of room names every protected model that could otherwise
/// have moved.
pub proof fn a_refusal_for_room_names_every_blocker(
    resident: Seq<Resident>,
    pins: Seq<crate::pins::Pin>,
    now: u64,
    target: Candidate,
    request: Request,
    i: int,
)
    requires
        0 <= i < resident.len(),
        movable(resident[i], target, request),
        holder(pins, resident[i].provider, resident[i].model@, now) is Some,
    ensures
        blockers(resident, pins, now, target, request).contains(
            blame_text(holder(pins, resident[i].provider, resident[i].model@, now)->0, now),
        ),
    decreases resident.len(),
{
    let f = |r: Resident| blocker(r, pins, now, target, request);
    let rest = resident.drop_last();
    let whole = blockers(resident, pins, now, target, request);
    if i == resident.len() - 1 {
        let why = blame_text(holder(pins, resident[i].provider, resident[i].model@, now)->0, now);
        assert(whole == rest.filter_map(f) + seq![why]);
        assert(whole[whole.len() - 1] == why);
    } else {
        a_refusal_for_room_names_every_blocker(rest, pins, now, target, request, i);
        let why = blame_text(holder(pins, resident[i].provider, resident[i].model@, now)->0, now);
        let part = blockers(rest, pins, now, target, request);
        let k = part.index_of(why);
        assert(whole[k] == why);
    }
}

/// A declared figure, or none at all, admits nothing: it is refused before
/// anything is planned to go.
pub proof fn nothing_is_admitted_on_a_declared_figure(
    candidates: Seq<Candidate>,
    resident: Seq<Resident>,
    pins: Seq<crate::pins::Pin>,
    now: u64,
    estimate: Estimate,
    machine: Machine,
    reserve: u64,
    request: Request,
)
    requires
        estimate.basis == Basis::Declared || estimate.basis == Basis::Unknown,
    ensures
        !(answer(candidates, resident, pins, now, estimate, machine, reserve, request) is Actions),
{
}

} // verus!
