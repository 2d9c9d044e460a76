//! Planning a load or a switch.
use llm_harmony::actuate::plan::{plan, Action, Plan, Request, Resident, UnloadReason};
use llm_harmony::estimate::estimator::{Basis, Estimate};
use llm_harmony::inventory::artifact::Provenance;
use llm_harmony::memory::Machine;
use llm_harmony::pins::{Pin, Pins};
use llm_harmony::provider::{Actuation, ProviderKind, State};
use llm_harmony::resolve::identity::Candidate;

const NOW: u64 = 1_000;

const GB: u64 = 1024 * 1024 * 1024;

fn machine(free: u64) -> Machine {
    Machine {
        total_bytes: 24 * GB,
        used_bytes: 24 * GB - free,
        swap_total_bytes: 0,
        swap_used_bytes: 0,
    }
}

fn measured(bytes: u64) -> Estimate {
    Estimate { bytes: Some(bytes), basis: Basis::Measured, samples: 3, spread_bytes: Some(0) }
}

fn candidates(model: &str) -> Vec<Candidate> {
    vec![Candidate {
        provider: ProviderKind::LmStudio,
        provider_model_id: model.to_string(),
        url: "http://127.0.0.1:1234".into(),
        state: State::NotLoaded,
        artifact: Some("a".into()),
        provenance: Provenance::Recorded,
    }]
}

fn res(model: &str, bytes: u64, last_used: u64) -> Resident {
    Resident {
        provider: ProviderKind::LmStudio,
        model: model.to_string(),
        estimated_bytes: bytes,
        evict_rank: last_used,
        busy: false,
        actuation: Actuation::ModelLevel,
    }
}

fn resident(models: &[&str]) -> Vec<Resident> {
    models.iter().enumerate().map(|(i, m)| res(m, 9 * GB, i as u64)).collect()
}

fn pins_with(entries: &[(ProviderKind, &str)]) -> Pins {
    let mut p = Pins::empty();
    for (provider, model) in entries {
        p.add(Pin { provider: *provider, model: model.to_string(), at: 0, note: None, owner: None, expires_at: None });
    }
    p
}

fn req(model: &str) -> Request {
    Request { model: model.into(), context_tokens: None, free_first: None, provider: None, ttl_seconds: None }
}

fn req_switch(from: &str, to: &str) -> Request {
    Request { model: to.into(), context_tokens: None, free_first: Some(from.into()), provider: None, ttl_seconds: None }
}

/// A pin is a veto. The room exists, the model is idle, and it still does
/// not move -- that is the whole point of the flag.
#[test]
fn a_pinned_model_is_never_chosen_to_make_room() {
    let p = pins_with(&[(ProviderKind::LmStudio, "big-pinned")]);
    match plan(
        &candidates("wanted"),
        &resident(&["big-pinned"]),
        &p,
        NOW,
        &measured(9 * GB),
        &machine(2 * GB),
        0,
        &req("wanted"),
    ) {
        Plan::Refused { pinned_blockers, .. } => {
            assert_eq!(pinned_blockers, vec!["big-pinned on lmstudio"]);
        }
        p => panic!("{p:?}"),
    }
}

/// And because it is a veto rather than a reservation, the refusal has to
/// say so -- otherwise the operator reads "no room" on a machine that
/// looks half empty and has no way to discover why.
#[test]
fn a_refusal_caused_by_pins_names_them_in_its_reason() {
    let p = pins_with(&[(ProviderKind::LmStudio, "big-pinned")]);
    match plan(
        &candidates("wanted"),
        &resident(&["big-pinned"]),
        &p,
        NOW,
        &measured(9 * GB),
        &machine(2 * GB),
        0,
        &req("wanted"),
    ) {
        Plan::Refused { reason, .. } => {
            assert!(reason.contains("pinned"), "{reason}");
            assert!(reason.contains("big-pinned"), "{reason}");
        }
        p => panic!("{p:?}"),
    }
}

/// An explicitly named model beats a pin: the human named it, and that is
/// consent. The pin itself survives, so the next load is protected again.
#[test]
fn naming_a_pinned_model_for_switch_overrides_the_pin() {
    let p = pins_with(&[(ProviderKind::LmStudio, "pinned")]);
    match plan(
        &candidates("b"),
        &resident(&["pinned"]),
        &p,
        NOW,
        &measured(1 * GB),
        &machine(20 * GB),
        0,
        &req_switch("pinned", "b"),
    ) {
        Plan::Actions(a) => {
            assert!(matches!(
                &a[0],
                Action::Unload { model, reason: UnloadReason::Named, .. } if model == "pinned"
            ));
        }
        p => panic!("{p:?}"),
    }
}

/// Busy beats everything, where busy can actually be observed.
#[test]
fn a_model_observed_busy_is_never_evicted_to_make_room() {
    let mut busy = res("serving", 9 * GB, 0);
    busy.busy = true;
    match plan(
        &candidates("wanted"),
        &[busy],
        &Pins::empty(),
        NOW,
        &measured(9 * GB),
        &machine(2 * GB),
        0,
        &req("wanted"),
    ) {
        Plan::Refused { pinned_blockers, .. } => {
            assert!(pinned_blockers.is_empty(), "busy is not a pin");
        }
        p => panic!("a model with a request in flight must not be evicted: {p:?}"),
    }
}

/// And naming it does not override that: consent covers the eviction, not
/// the interruption of something already in flight.
#[test]
fn naming_a_busy_model_is_refused_rather_than_interrupting_it() {
    let mut busy = res("serving", 9 * GB, 0);
    busy.busy = true;
    match plan(
        &candidates("b"),
        &[busy],
        &Pins::empty(),
        NOW,
        &measured(1 * GB),
        &machine(20 * GB),
        0,
        &req_switch("serving", "b"),
    ) {
        Plan::Refused { reason, .. } => assert!(reason.contains("in flight"), "{reason}"),
        p => panic!("{p:?}"),
    }
}

/// `switch` means replace: it frees the named model even when both would
/// have fitted. `load` is how two models end up resident together.
#[test]
fn switch_always_unloads_the_named_model_even_when_both_would_fit() {
    match plan(
        &candidates("b"),
        &resident(&["a"]),
        &Pins::empty(),
        NOW,
        &measured(1 * GB),
        &machine(20 * GB),
        0,
        &req_switch("a", "b"),
    ) {
        Plan::Actions(a) => {
            assert_eq!(a.len(), 2);
            assert!(matches!(&a[0], Action::Unload { reason: UnloadReason::Named, .. }));
            assert!(matches!(&a[1], Action::Load { .. }));
        }
        p => panic!("{p:?}"),
    }
}

/// `load` adds. With room for both, nothing is disturbed -- this is the
/// multi-residency case, and it must cost zero unloads.
#[test]
fn load_does_not_evict_anything_when_the_model_fits_alongside() {
    match plan(
        &candidates("b"),
        &resident(&["a"]),
        &Pins::empty(),
        NOW,
        &measured(1 * GB),
        &machine(20 * GB),
        0,
        &req("b"),
    ) {
        Plan::Actions(a) => {
            assert_eq!(a.len(), 1);
            assert!(matches!(&a[0], Action::Load { .. }));
        }
        p => panic!("{p:?}"),
    }
}

/// Free the least it can. Evicting two models when one suffices is a bug
/// that looks like caution.
#[test]
fn making_room_evicts_the_smallest_sufficient_set_lru_first() {
    let residents = vec![res("old", 5 * GB, 1), res("recent", 5 * GB, 99)];
    match plan(
        &candidates("wanted"),
        &residents,
        &Pins::empty(),
        NOW,
        &measured(4 * GB),
        &machine(3 * GB),
        0,
        &req("wanted"),
    ) {
        Plan::Actions(a) => {
            let unloads: Vec<&str> = a
                .iter()
                .filter_map(|x| match x {
                    Action::Unload { model, .. } => Some(model.as_str()),
                    _ => None,
                })
                .collect();
            assert_eq!(unloads, vec!["old"], "one unload, least-recently-used");
        }
        p => panic!("{p:?}"),
    }
}

/// A model resident on a self-managed provider cannot be evicted at all,
/// so it can never appear in a plan.
#[test]
fn a_self_managed_residency_is_never_planned_for_eviction() {
    let mut stuck = res("on-llamacpp", 9 * GB, 0);
    stuck.provider = ProviderKind::LlamaCpp;
    stuck.actuation = Actuation::SelfManaged { ceiling: "max_instances" };

    match plan(
        &candidates("wanted"),
        &[stuck],
        &Pins::empty(),
        NOW,
        &measured(9 * GB),
        &machine(2 * GB),
        0,
        &req("wanted"),
    ) {
        Plan::Refused { reason, .. } => assert!(reason.contains("needs"), "{reason}"),
        p => panic!("harmony cannot unload one model from llama.cpp: {p:?}"),
    }
}

/// And naming one says so, with the lever that does exist.
#[test]
fn switching_away_from_a_self_managed_model_names_the_stop_verb() {
    let mut stuck = res("on-llamacpp", 9 * GB, 0);
    stuck.provider = ProviderKind::LlamaCpp;
    stuck.actuation = Actuation::SelfManaged { ceiling: "max_instances" };

    match plan(
        &candidates("b"),
        &[stuck],
        &Pins::empty(),
        NOW,
        &measured(1 * GB),
        &machine(20 * GB),
        0,
        &req_switch("on-llamacpp", "b"),
    ) {
        Plan::Refused { reason, .. } => {
            assert!(reason.contains("max_instances"), "name the ceiling: {reason}");
            assert!(reason.contains("stop"), "name the lever that exists: {reason}");
        }
        p => panic!("{p:?}"),
    }
}

/// Residency short-circuits everything. On LM Studio a redundant load
/// would start a second instance, so this is a safety property and not
/// merely an optimisation.
#[test]
fn a_model_already_resident_is_reported_not_reloaded() {
    match plan(
        &candidates("wanted"),
        &resident(&["wanted"]),
        &Pins::empty(),
        NOW,
        &measured(9 * GB),
        &machine(0),
        0,
        &req("wanted"),
    ) {
        Plan::AlreadyResident { model, .. } => assert_eq!(model, "wanted"),
        p => panic!("{p:?}"),
    }
}

#[test]
fn a_model_nothing_serves_is_refused_by_name() {
    match plan(
        &[],
        &[],
        &Pins::empty(),
        NOW,
        &measured(1 * GB),
        &machine(20 * GB),
        0,
        &req("ghost"),
    ) {
        Plan::Refused { reason, .. } => assert!(reason.contains("ghost"), "{reason}"),
        p => panic!("{p:?}"),
    }
}

/// The reserve is held back before any of this: it is what the OS is owed.
#[test]
fn the_reserve_is_subtracted_before_the_arithmetic() {
    match plan(
        &candidates("b"),
        &[],
        &Pins::empty(),
        NOW,
        &measured(5 * GB),
        &machine(6 * GB),
        8 * GB,
        &req("b"),
    ) {
        Plan::Refused { .. } => {}
        p => panic!("6 GB free minus an 8 GB reserve is no room at all: {p:?}"),
    }
}

/// Switching to a model that is already resident still frees the named
/// one: the caller said they were done with it.
#[test]
fn switch_to_an_already_resident_model_still_frees_the_named_one() {
    let residents = vec![res("a", 5 * GB, 0), res("b", 5 * GB, 1)];
    match plan(
        &candidates("b"),
        &residents,
        &Pins::empty(),
        NOW,
        &measured(5 * GB),
        &machine(20 * GB),
        0,
        &req_switch("a", "b"),
    ) {
        Plan::Actions(a) => {
            assert!(matches!(
                &a[0],
                Action::Unload { model, reason: UnloadReason::Named, .. } if model == "a"
            ));
        }
        p => panic!("{p:?}"),
    }
}

/// Ollama's expiry moves forward on every use, so the model expiring
/// soonest is the one least recently touched.
#[test]
fn a_provider_that_publishes_an_expiry_orders_by_it() {
    // `stale` expires sooner, so it is the one that goes.
    let residents = vec![res("fresh", 5 * GB, 9_000), res("stale", 5 * GB, 1_000)];
    match plan(
        &candidates("wanted"),
        &residents,
        &Pins::empty(),
        NOW,
        &measured(4 * GB),
        &machine(3 * GB),
        0,
        &req("wanted"),
    ) {
        Plan::Actions(a) => {
            let unloads: Vec<&str> = a
                .iter()
                .filter_map(|x| match x {
                    Action::Unload { model, .. } => Some(model.as_str()),
                    _ => None,
                })
                .collect();
            assert_eq!(unloads, vec!["stale"]);
        }
        p => panic!("{p:?}"),
    }
}

fn request(model: &str, provider: Option<ProviderKind>) -> Request {
    Request { model: model.into(), context_tokens: None, free_first: None, provider, ttl_seconds: None }
}

/// A lease protects until it lapses, and its refusal names who holds it.
#[test]
fn a_live_lease_vetoes_and_a_lapsed_one_does_not() {
    let mut pins = Pins::empty();
    pins.add(Pin {
        provider: ProviderKind::LmStudio,
        model: "held".into(),
        at: 0,
        note: None,
        owner: Some("delroy".into()),
        expires_at: Some(1_060),
    });
    let ask = |now: u64| {
        plan(
            &candidates("wanted"),
            &resident(&["held"]),
            &pins,
            now,
            &measured(9 * GB),
            &machine(2 * GB),
            0,
            &req("wanted"),
        )
    };
    match ask(1_000) {
        Plan::Refused { pinned_blockers, .. } => {
            assert_eq!(pinned_blockers, vec!["held on lmstudio (leased by delroy, 60s left)"]);
        }
        p => panic!("{p:?}"),
    }
    match ask(2_000) {
        Plan::Actions(a) => assert_eq!(a.len(), 2),
        p => panic!("{p:?}"),
    }
}

/// A caller that says where the model lives is not resolved somewhere else.
#[test]
fn a_named_provider_constrains_the_target() {
    match plan(
        &candidates("b"),
        &[],
        &Pins::empty(),
        NOW,
        &measured(GB),
        &machine(20 * GB),
        0,
        &request("b", Some(ProviderKind::Ollama)),
    ) {
        Plan::Refused { .. } => {}
        p => panic!("{p:?}"),
    }
    match plan(
        &candidates("b"),
        &[],
        &Pins::empty(),
        NOW,
        &measured(GB),
        &machine(20 * GB),
        0,
        &request("b", Some(ProviderKind::LmStudio)),
    ) {
        Plan::Actions(a) => assert_eq!(a.len(), 1),
        p => panic!("{p:?}"),
    }
}

/// Nothing is admitted on a declared figure.
#[test]
fn a_declared_figure_admits_nothing() {
    let declared = Estimate { bytes: Some(GB), basis: Basis::Declared, samples: 0, spread_bytes: None };
    match plan(
        &candidates("b"),
        &[],
        &Pins::empty(),
        NOW,
        &declared,
        &machine(20 * GB),
        0,
        &req("b"),
    ) {
        Plan::Refused { .. } => {}
        p => panic!("{p:?}"),
    }
}

fn unloads(residents: &[Resident], short: u64) -> Vec<String> {
    match plan(
        &candidates("wanted"),
        residents,
        &Pins::empty(),
        NOW,
        &measured(short),
        &machine(0),
        0,
        &req("wanted"),
    ) {
        Plan::Actions(a) => a
            .into_iter()
            .filter_map(|x| match x {
                Action::Unload { model, .. } => Some(model),
                _ => None,
            })
            .collect(),
        p => panic!("{p:?}"),
    }
}

/// One model goes where one is enough, though another was touched longer ago.
#[test]
fn as_few_go_as_can() {
    let line = [res("small", GB, 1), res("large", 5 * GB, 2), res("middle", 3 * GB, 3)];
    assert_eq!(unloads(&line, 4 * GB), vec!["large"]);
    assert_eq!(unloads(&line, GB), vec!["small"], "the oldest of those that do alone");
    assert_eq!(unloads(&line, 6 * GB), vec!["small", "large"]);
    assert_eq!(unloads(&line, 8 * GB), vec!["large", "middle"]);
    assert_eq!(unloads(&line, 9 * GB), vec!["small", "large", "middle"]);
}
