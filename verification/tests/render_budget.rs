//! What each provider may take, as a table.
use llm_harmony::budget::{Budget, Ceiling};
use llm_harmony::memory::Machine;
use llm_harmony::provider::ProviderKind;
use llm_harmony::render_budget::{render, render_json};

const LLAMA_CPP: ProviderKind = ProviderKind::LlamaCpp;
const LM_STUDIO: ProviderKind = ProviderKind::LmStudio;
const OLLAMA: ProviderKind = ProviderKind::Ollama;
const VLLM: ProviderKind = ProviderKind::Vllm;

fn machine() -> Machine {
    Machine {
        total_bytes: 25_769_803_776,
        used_bytes: 5 << 30,
        swap_total_bytes: 0,
        swap_used_bytes: 0,
    }
}

fn b(provider: ProviderKind, ceiling: Ceiling) -> Budget {
    Budget { provider, ceiling, source: "from the argv".into() }
}

/// What was measured on this machine 2026-09-11, rendered.
fn live() -> Vec<Budget> {
    vec![
        b(LM_STUDIO, Ceiling::Unbounded),
        b(LLAMA_CPP, Ceiling::Count(1)),
        b(OLLAMA, Ceiling::Unknown { why: "OLLAMA_MAX_LOADED_MODELS is unset".into() }),
        b(VLLM, Ceiling::Bytes(14 * 1024 * 1024 * 1024)),
    ]
}

/// The point of the command. A sum across bytes, counts and nothing would
/// be a confident wrong number.
#[test]
fn there_is_no_total_row() {
    let out = render(&live(), &machine());
    assert!(!out.contains("total ceiling"), "{out}");
    // `machine 24.0G total` is the capacity, not a sum of ceilings.
    assert_eq!(out.matches("total").count(), 1, "{out}");
}

/// The fact that decides whether the machine survives.
#[test]
fn the_verdict_names_the_only_byte_ceiling_and_its_share() {
    let out = render(&live(), &machine());
    assert!(out.contains("the only byte ceiling here is vllm's 14.0G"), "{out}");
    assert!(out.contains("58% of the machine"), "{out}");
}

/// Nothing stops the other three in bytes.
#[test]
fn the_verdict_names_what_is_not_bounded_in_bytes() {
    let out = render(&live(), &machine());
    let line = out.lines().find(|l| l.starts_with("nothing bounds")).expect("{out}");
    for p in ["lmstudio", "llamacpp", "ollama"] {
        assert!(line.contains(p), "{line}");
    }
}

/// `?` for what cannot be read -- the convention `status` already uses for
/// `weights` and `gap` -- with the reason beside it.
#[test]
fn an_unreadable_ceiling_prints_a_question_mark_and_says_why() {
    let out = render(&live(), &machine());
    let line = out.lines().find(|l| l.starts_with("ollama")).expect("{out}");
    assert!(line.contains('?'), "{line}");
    assert!(line.contains("OLLAMA_MAX_LOADED_MODELS is unset"), "{line}");
}

/// The unit is printed even when the value is not, because "a count I
/// could not read" and "no limit at all" are different facts.
#[test]
fn the_unit_is_printed_even_when_the_value_is_unknown() {
    let out = render(&live(), &machine());
    let ollama = out.lines().find(|l| l.starts_with("ollama")).unwrap();
    let lmstudio = out.lines().find(|l| l.starts_with("lmstudio")).unwrap();
    assert!(ollama.contains("count"), "{ollama}");
    assert!(lmstudio.contains("none"), "{lmstudio}");
}

/// Bytes do add. A total across units never does.
#[test]
fn two_byte_ceilings_are_summed_because_bytes_add() {
    let out = render(
        &[b(VLLM, Ceiling::Bytes(10 << 30)), b(LLAMA_CPP, Ceiling::Bytes(6 << 30))],
        &machine(),
    );
    assert!(out.contains("2 byte ceilings sum to 16.0G"), "{out}");
}

#[test]
fn a_machine_with_no_byte_ceiling_anywhere_says_exactly_that() {
    let out = render(&[b(LM_STUDIO, Ceiling::Unbounded), b(LLAMA_CPP, Ceiling::Count(1))], &machine());
    assert!(out.contains("nothing here is bounded in bytes at all"), "{out}");
}

#[test]
fn the_json_carries_its_own_schema_and_no_total() {
    let v: serde_json::Value = serde_json::from_str(&render_json(&live(), &machine())).unwrap();
    assert_eq!(v["schema"], 1);
    assert_eq!(v["budgets"].as_array().unwrap().len(), 4);
    assert!(v.get("total_ceiling_bytes").is_none(), "there is no total");
}
