//! Tables, documents and reports.
use llm_harmony::actuate::plan::UnloadReason;
use llm_harmony::actuate::run::{Report, Status, UnloadRecord, ACTUATE_SCHEMA};
use llm_harmony::estimate::estimator::Estimate;
use llm_harmony::ledger::{Ledger, Outcome, ProviderRow};
use llm_harmony::memory::Machine;
use llm_harmony::pins::{Pin, Pins};
use llm_harmony::provider::{Actuation, LoadedModel, ProbeError, ProviderKind, State};
use llm_harmony::render::{human_bytes, render_json, render_table, render_verify};
use llm_harmony::render_actuate;

const NOW: u64 = 1_000;

fn machine() -> Machine {
    Machine {
        total_bytes: 25_769_803_776,
        used_bytes: 17_343_315_968,
        swap_total_bytes: 6_442_450_944,
        swap_used_bytes: 4_749_852_672,
    }
}

fn loaded(id: &str, weights: Option<u64>) -> LoadedModel {
    LoadedModel {
        id: id.to_string(),
        state: State::Loaded,
        context_tokens: Some(8192),
        weights_bytes: weights,
        expires_at_unix: None,
        model_type: None,
        artifact_path: None,
    }
}

fn ledger() -> Ledger {
    Ledger::assemble(
        machine(),
        vec![
            ProviderRow {
                kind: ProviderKind::LmStudio,
                url: "http://127.0.0.1:1234".into(),
                outcome: Outcome::Answered(vec![loaded("qwen3-14b", None)]),
                pids: vec![647],
                footprint_bytes: Some(9_800_000_000),
                phys_footprint_bytes: Some(9_800_000_000),
                rss_bytes: Some(9_800_000_000),
                processes: Vec::new(),
            },
            ProviderRow {
                kind: ProviderKind::Ollama,
                url: "http://127.0.0.1:11434".into(),
                outcome: Outcome::Answered(vec![loaded("nomic-embed-text:latest", Some(274_302_450))]),
                pids: vec![4140],
                footprint_bytes: Some(400_000_000),
                phys_footprint_bytes: Some(400_000_000),
                rss_bytes: Some(400_000_000),
                processes: Vec::new(),
            },
            ProviderRow {
                kind: ProviderKind::LlamaCpp,
                url: "http://127.0.0.1:8080".into(),
                outcome: Outcome::Failed(ProbeError::NotListening),
                pids: vec![],
                footprint_bytes: None,
                phys_footprint_bytes: None,
                rss_bytes: None,
                processes: Vec::new(),
            },
        ],
    )
}

/// Binary units, so `hw.memsize` reads as the 24G everyone calls it.
#[test]
fn bytes_render_in_readable_units() {
    assert_eq!(human_bytes(0), "0B");
    assert_eq!(human_bytes(274_302_450), "261.6M");
    assert_eq!(human_bytes(9_800_000_000), "9.1G");
    assert_eq!(human_bytes(25_769_803_776), "24.0G");
}

#[test]
fn a_down_provider_says_not_running_and_shows_no_numbers() {
    let out = render_table(&ledger(), &Pins::empty(), NOW);
    let line = out.lines().find(|l| l.contains("llamacpp")).unwrap();
    assert!(line.contains("not running"), "got: {line}");
    assert!(!line.contains('G'), "a down provider must not show a size: {line}");
}

#[test]
fn a_provider_without_published_weights_shows_a_question_mark() {
    let out = render_table(&ledger(), &Pins::empty(), NOW);
    let line = out.lines().find(|l| l.contains("lmstudio")).unwrap();
    assert!(line.contains("9.1G"), "footprint is always known: {line}");
    assert!(line.contains('?'), "weights are unknown for LM Studio: {line}");
}

#[test]
fn a_provider_with_weights_shows_the_gap() {
    let out = render_table(&ledger(), &Pins::empty(), NOW);
    let line = out.lines().find(|l| l.contains("ollama")).unwrap();
    assert!(line.contains("261.6M"), "weights: {line}");
    assert!(line.contains("+119.9M"), "gap is footprint minus weights, signed: {line}");
}

#[test]
fn the_machine_line_names_swap() {
    let out = render_table(&ledger(), &Pins::empty(), NOW);
    assert!(out.contains("24.0G total"), "{out}");
    assert!(out.contains("swap"), "{out}");
}

#[test]
fn json_is_valid_and_carries_errors() {
    let json = render_json(&ledger(), &Pins::empty());
    let v: serde_json::Value = serde_json::from_str(&json).expect("valid JSON");
    assert_eq!(v["rows"].as_array().unwrap().len(), 3);
    assert_eq!(v["schema"], 1, "consumers must be able to detect a shape change");
    assert_eq!(v["rows"][2]["outcome"]["status"], "failed");
    assert_eq!(v["rows"][2]["outcome"]["detail"]["error"], "not-listening");
    assert_eq!(v["rows"][0]["outcome"]["status"], "ok");
    assert_eq!(v["machine"]["total_bytes"], 25_769_803_776u64);
}

#[test]
fn verify_names_the_ceiling_of_a_self_managed_provider() {
    let out = render_verify(&[
        (ProviderKind::LmStudio, "http://127.0.0.1:1234".into(), true, Actuation::ModelLevel),
        (
            ProviderKind::LlamaCpp,
            "http://127.0.0.1:8080".into(),
            true,
            Actuation::SelfManaged { ceiling: "max_instances" },
        ),
    ]);
    assert!(out.contains("lmstudio"), "{out}");
    assert!(out.contains("model-level"), "{out}");
    assert!(out.contains("self-managed (max_instances)"), "a bare 'self-managed' tells the operator nothing actionable: {out}");
}

fn pinned(model: &str) -> Pins {
    let mut p = Pins::empty();
    p.add(Pin {
        provider: ProviderKind::LmStudio,
        model: model.into(),
        at: 0,
        note: None,
        owner: None,
        expires_at: None,
    });
    p
}

/// A pin is why an admission can be refused on a machine that looks half
/// empty, so `status` has to show it without being asked.
#[test]
fn the_table_names_what_is_pinned() {
    let out = render_table(&ledger(), &pinned("qwen3-14b"), NOW);
    let line = out.lines().find(|l| l.starts_with("pinned")).expect("a pins line: {out}");
    assert!(line.contains("qwen3-14b on lmstudio"), "{line}");
}

/// And says nothing at all when nothing is protected -- a permanent empty
/// row would train the eye to skip it.
#[test]
fn the_table_is_silent_when_nothing_is_pinned() {
    let out = render_table(&ledger(), &Pins::empty(), NOW);
    assert!(!out.contains("pinned"), "{out}");
}

/// Per model, not as a separate list: a consumer reading a row must not
/// have to join two collections to know whether it may be evicted.
#[test]
fn json_marks_the_pinned_model_and_only_that_one() {
    let json = render_json(&ledger(), &pinned("qwen3-14b"));
    let v: serde_json::Value = serde_json::from_str(&json).expect("valid JSON");
    assert_eq!(v["schema"], 1, "pins are additive; the schema must not move");
    assert_eq!(v["rows"][0]["outcome"]["detail"][0]["id"], "qwen3-14b");
    assert_eq!(v["rows"][0]["outcome"]["detail"][0]["pinned"], true);
    assert_eq!(
        v["rows"][1]["outcome"]["detail"][0]["pinned"], false,
        "the same pin must not protect another provider's model"
    );
}

/// A failed row has no models to mark, and must survive the pass anyway.
#[test]
fn json_leaves_a_failed_row_untouched() {
    let json = render_json(&ledger(), &pinned("qwen3-14b"));
    let v: serde_json::Value = serde_json::from_str(&json).unwrap();
    assert_eq!(v["rows"][2]["outcome"]["status"], "failed");
}

/// The digit shown is the one a division in double precision gives.
#[test]
fn bytes_round_the_way_a_double_does() {
    assert_eq!(human_bytes(1023), "1023B");
    assert_eq!(human_bytes(1024), "1.0K");
    assert_eq!(human_bytes(1075), "1.0K");
    assert_eq!(human_bytes(1076), "1.1K");
    assert_eq!(human_bytes(u64::MAX), "16777216.0T");
}

/// A lease in the table says how long it has left.
#[test]
fn the_table_says_how_long_a_lease_has_left() {
    let mut p = Pins::empty();
    p.add(Pin {
        provider: ProviderKind::LmStudio,
        model: "qwen3-14b".into(),
        at: 0,
        note: None,
        owner: None,
        expires_at: Some(NOW + 60),
    });
    let out = render_table(&ledger(), &p, NOW);
    assert!(out.contains("60s left"), "{out}");
}

fn report(outcome: Status, unloaded: Vec<UnloadRecord>) -> Report {
    Report {
        schema: ACTUATE_SCHEMA,
        verb: "switch",
        outcome,
        unloaded,
        estimate: Estimate::unknown(),
        free_bytes: 8_000_000_000,
        swap_used_bytes: 0,
    }
}

/// A refusal a pin caused must name the pin, or the operator reads "no
/// room" on a half-empty machine with no way to find out why.
#[test]
fn a_refusal_names_the_pins_that_caused_it() {
    let out = render_actuate::render(&report(
        Status::Refused {
            reason: "needs 9.0G but only 2.0G can be made available".into(),
            pinned_blockers: vec!["qwen3-14b on lmstudio".into()],
            alternatives: Vec::new(),
        },
        Vec::new(),
    ));
    assert!(out.contains("pinned"), "{out}");
    assert!(out.contains("qwen3-14b on lmstudio"), "{out}");
}

/// No rollback by design, so the failure has to carry the way back.
#[test]
fn a_failure_prints_the_command_that_restores_what_was_freed() {
    let out = render_actuate::render(&report(
        Status::Failed {
            reason: "never became resident".into(),
            restore: Some("llm-harmony load qwen3-14b --provider lmstudio".into()),
        },
        vec![UnloadRecord {
            provider: ProviderKind::LmStudio,
            model: "qwen3-14b".into(),
            reason: UnloadReason::Named,
        }],
    ));
    assert!(out.contains("unloaded   qwen3-14b on lmstudio"), "{out}");
    assert!(out.contains("restore    llm-harmony load qwen3-14b"), "{out}");
}

/// An abort says the machine was left as it was found, because the whole
/// point of aborting is that nothing was kept.
#[test]
fn an_abort_says_nothing_new_is_resident() {
    let out = render_actuate::render(&report(
        Status::Aborted { reason: "free memory fell to 1.0G during the load".into() },
        Vec::new(),
    ));
    assert!(out.contains("aborted"), "{out}");
    assert!(out.contains("nothing new is resident"), "{out}");
}

/// Only a model that can be talked to is a success.
#[test]
fn only_ready_is_a_success() {
    let ready = Status::Ready {
        base_url: "http://127.0.0.1:1234".into(),
        provider: ProviderKind::LmStudio,
        provider_model_id: "m".into(),
        resident: true,
        took_s: 0,
    };
    assert!(report(ready, Vec::new()).is_success());
    assert!(!report(Status::Aborted { reason: "swap".into() }, Vec::new()).is_success());
    let failed = Status::Failed { reason: "gone".into(), restore: None };
    assert!(!report(failed, Vec::new()).is_success());
}
