//! Every place a model could be served from, priced.
use llm_harmony::estimate::estimator::{Basis, Estimate};
use llm_harmony::inventory::artifact::Provenance;
use llm_harmony::memory::Machine;
use llm_harmony::provider::{ProviderKind, State};
use llm_harmony::render_compare::{render, render_json, Priced};
use llm_harmony::resolve::decide::Decision;
use llm_harmony::resolve::identity::Candidate;

const LLAMA_CPP: ProviderKind = ProviderKind::LlamaCpp;
const LM_STUDIO: ProviderKind = ProviderKind::LmStudio;
const VLLM: ProviderKind = ProviderKind::Vllm;

const RESERVE: u64 = 8 * 1024 * 1024 * 1024;

fn machine(free: u64) -> Machine {
    Machine {
        total_bytes: 25_769_803_776,
        used_bytes: 25_769_803_776 - free,
        swap_total_bytes: 0,
        swap_used_bytes: 0,
    }
}

fn cand(kind: ProviderKind, recorded: bool) -> Candidate {
    Candidate {
        provider: kind,
        provider_model_id: format!("m-on-{}", kind.as_str()),
        url: format!("http://127.0.0.1:{}", kind.default_port()),
        state: State::NotLoaded,
        artifact: Some("a".into()),
        provenance: if recorded {
            Provenance::Recorded
        } else {
            Provenance::Inferred { basis: "derived from LM Studio's store layout".into() }
        },
    }
}

fn priced(kind: ProviderKind, bytes: u64, basis: Basis) -> Priced {
    Priced {
        candidate: cand(kind, true),
        estimate: Estimate { bytes: Some(bytes), basis, samples: 3, spread_bytes: Some(0) },
    }
}

fn inferred(kind: ProviderKind, bytes: u64) -> Priced {
    Priced {
        candidate: cand(kind, false),
        estimate: Estimate {
            bytes: Some(bytes),
            basis: Basis::Measured,
            samples: 3,
            spread_bytes: Some(0),
        },
    }
}

fn ready(kind: ProviderKind) -> Decision {
    Decision::Ready {
        base_url: format!("http://127.0.0.1:{}", kind.default_port()),
        provider_model_id: format!("m-on-{}", kind.as_str()),
        provider: kind.as_str().to_string(),
        resident: false,
        inferred: false,
    }
}

fn deny() -> Decision {
    Decision::Deny { reason: "no room".into(), alternatives: Vec::new() }
}

/// The whole point of the command: `resolve` computes this list and throws
/// all but one row away.
#[test]
fn every_candidate_is_listed_not_only_the_chosen_one() {
    let out = render(
        "m",
        &[priced(LLAMA_CPP, 8_400_000_000, Basis::Measured), priced(VLLM, 4_700_000_000, Basis::Declared)],
        &machine(21 << 30),
        RESERVE,
        &ready(LLAMA_CPP),
    );
    assert!(out.contains("llamacpp"), "{out}");
    assert!(out.contains("vllm"), "the unchosen candidate is the point: {out}");
}

/// A price is worthless without its rung.
#[test]
fn each_candidate_carries_its_own_basis() {
    let out = render(
        "m",
        &[priced(LLAMA_CPP, 8_400_000_000, Basis::Measured), priced(VLLM, 4_700_000_000, Basis::Declared)],
        &machine(21 << 30),
        RESERVE,
        &ready(LLAMA_CPP),
    );
    assert!(out.contains("measured"), "{out}");
    assert!(out.contains("declared"), "{out}");
}

/// A candidate that cannot be admitted is still information: it tells the
/// operator what would have to be freed.
#[test]
fn a_candidate_that_does_not_fit_is_marked_rather_than_dropped() {
    let out = render("m", &[priced(LLAMA_CPP, 20 << 30, Basis::Measured)], &machine(9 << 30), RESERVE, &deny());
    assert!(out.contains("llamacpp"), "{out}");
    assert!(out.contains("does not fit"), "{out}");
}

/// An inferred edge may not silently drive a decision, so
/// the row it produced has to say it was inferred.
#[test]
fn an_inferred_candidate_says_so() {
    let out = render("m", &[inferred(LM_STUDIO, 8_900_000_000)], &machine(21 << 30), RESERVE, &ready(LM_STUDIO));
    assert!(out.contains("inferred"), "{out}");
}

/// The invariant that keeps the menu honest: the marked row is whatever
/// `decide` returned. Here the cheaper candidate is *not* the pick, and
/// the renderer must say so rather than sorting by price.
#[test]
fn the_marked_candidate_is_the_one_resolve_would_pick() {
    let out = render(
        "m",
        &[priced(LLAMA_CPP, 4_000_000_000, Basis::Measured), priced(VLLM, 8_000_000_000, Basis::Measured)],
        &machine(21 << 30),
        RESERVE,
        &ready(VLLM),
    );
    let marked = out
        .lines()
        .find(|l| l.starts_with('>'))
        .expect("exactly one row is marked");
    assert!(marked.contains("vllm"), "cheaper is not the rule; decide is: {out}");
}

/// Nothing to compare is a sentence, not an empty table.
#[test]
fn a_model_nothing_serves_says_so_rather_than_printing_an_empty_table() {
    let out = render("ghost", &[], &machine(21 << 30), RESERVE, &deny());
    assert!(out.contains("no provider serves `ghost`"), "{out}");
    assert_eq!(out.lines().count(), 1, "{out}");
}

/// A `Wait` and a `Deny` have no coordinate, so they mark no row. An
/// unmarked table is correct; a table marking a row the resolver would not
/// return is not.
#[test]
fn a_refusal_marks_no_row_at_all() {
    let out = render("m", &[priced(LLAMA_CPP, 20 << 30, Basis::Measured)], &machine(9 << 30), RESERVE, &deny());
    assert!(!out.lines().any(|l| l.starts_with('>')), "{out}");
}

/// The JSON is a separate contract with its own schema.
#[test]
fn the_json_carries_its_own_schema_and_every_candidate() {
    let json = render_json(
        "m",
        &[priced(LLAMA_CPP, 8_400_000_000, Basis::Measured), priced(VLLM, 4_700_000_000, Basis::Declared)],
        &machine(21 << 30),
        RESERVE,
        &ready(LLAMA_CPP),
    );
    let v: serde_json::Value = serde_json::from_str(&json).unwrap();
    assert_eq!(v["schema"], 1);
    assert_eq!(v["candidates"].as_array().unwrap().len(), 2);
    assert_eq!(v["candidates"][0]["pick"], true);
    assert_eq!(v["candidates"][1]["pick"], false);
}
