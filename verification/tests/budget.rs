//! How much each provider may take.
use llm_harmony::budget::{
    budget, count_limit, decisive_process, from_argv, from_environ, from_lmstudio_config,
    from_status, Budget, Ceiling, ProcessReading, Readings,
};
use llm_harmony::json::Json;
use llm_harmony::provider::ProviderKind;

fn argv(parts: &[&str]) -> Vec<String> {
    parts.iter().map(|s| s.to_string()).collect()
}

/// Captured live 2026-09-11, pid 1733.
#[test]
fn llamacpp_ceiling_comes_from_models_max_in_the_argv() {
    let a = argv(&[
        "llama-server",
        "--models-dir",
        "/Users/x/.llamacpp/models",
        "--models-max",
        "1",
        "--jinja",
        "--port",
        "8080",
    ]);
    assert_eq!(from_argv(&a), Ceiling::Count(1));
}

/// Absent is not zero and not unlimited: llama.cpp has a default and
/// harmony does not know it.
#[test]
fn llamacpp_without_the_flag_is_unknown_rather_than_unbounded() {
    assert!(matches!(from_argv(&argv(&["llama-server", "--port", "8080"])), Ceiling::Unknown { .. }));
}

#[test]
fn a_flag_with_no_number_after_it_is_unknown() {
    assert!(matches!(from_argv(&argv(&["llama-server", "--models-max"])), Ceiling::Unknown { .. }));
}

/// Measured: the variable is simply not set, so Ollama's own default
/// applies and harmony does not know it. Guessing here would be the same
/// mistake as guessing a footprint.
#[test]
fn an_unset_ollama_variable_is_unknown_and_not_a_default() {
    let env = argv(&["OLLAMA_MODELS=/Users/x/.ollama/models", "OLLAMA_NO_CLOUD=0"]);
    match from_environ(&env) {
        Ceiling::Unknown { why } => assert!(why.contains("unset"), "{why}"),
        other => panic!("expected unknown, got {other:?}"),
    }
}

#[test]
fn a_set_ollama_variable_is_a_count() {
    assert_eq!(from_environ(&argv(&["OLLAMA_MAX_LOADED_MODELS=2"])), Ceiling::Count(2));
}

#[test]
fn an_unreadable_environment_is_unknown_for_a_different_reason() {
    match from_environ(&[]) {
        Ceiling::Unknown { why } => assert!(why.contains("could not be read"), "{why}"),
        other => panic!("expected unknown, got {other:?}"),
    }
}

/// vLLM-MLX is the only provider publishing a ceiling in bytes, and it
/// publishes it over the API rather than in a file. `gb` is read as GiB:
/// the bias inverts for a ceiling, because over-stating what a provider
/// may take under-states the danger.
#[test]
fn vllm_ceiling_comes_from_the_status_endpoint_and_gb_means_gib() {
    let s = Json::read(r#"{"model_manager": {"memory_budget_gb": 14.0, "models": []}}"#).unwrap();
    assert_eq!(from_status(&s), Ceiling::Bytes(14 * 1024 * 1024 * 1024));
}

#[test]
fn a_status_body_without_the_field_is_unknown() {
    let s = Json::read(r#"{"model_manager": {"models": []}}"#).unwrap();
    assert!(matches!(from_status(&s), Ceiling::Unknown { .. }));
}

/// JIT loading with no cap and every idle TTL disabled is not a ceiling in
/// either unit. Saying so is the finding, not a gap.
#[test]
fn lmstudio_is_unbounded_in_both_units() {
    let body = r#"{"port":1234,"justInTimeModelLoading": true,"cors":false}"#;
    assert_eq!(from_lmstudio_config(Some(body)), Ceiling::Unbounded);
}

/// A provider that is down has no process to read and no endpoint to ask.
/// Remembering its last known ceiling would be the wrong kind of helpful.
#[test]
fn a_provider_that_is_not_running_has_an_unknown_ceiling() {
    let b = budget(ProviderKind::Vllm, &Readings::default());
    match b.ceiling {
        Ceiling::Unknown { why } => assert_eq!(why, "not running"),
        other => panic!("expected unknown, got {other:?}"),
    }
}

/// Only a count ceiling can refuse a set on grounds other than bytes, so
/// only a count ceiling reaches `fit`.
#[test]
fn only_a_count_reaches_fit_as_a_limit() {
    let count = Budget {
        provider: ProviderKind::LlamaCpp,
        ceiling: Ceiling::Count(1),
        source: "x".into(),
    };
    let bytes = Budget {
        provider: ProviderKind::Vllm,
        ceiling: Ceiling::Bytes(1 << 30),
        source: "x".into(),
    };
    let unknown = Budget {
        provider: ProviderKind::Ollama,
        ceiling: Ceiling::Unknown { why: "unset".into() },
        source: "x".into(),
    };
    assert_eq!(count_limit(&count), Some(1));
    assert_eq!(count_limit(&bytes), None, "a byte ceiling is admission's business, not the search's");
    assert_eq!(count_limit(&unknown), None, "unknown marks; it does not refuse");
}

/// The table prints `?` for what it cannot know -- the convention `status`
/// already uses for `weights` and `gap`.
#[test]
fn an_unknown_ceiling_prints_as_a_question_mark() {
    assert_eq!(Ceiling::Unknown { why: "x".into() }.cell(), "?");
    assert_eq!(Ceiling::Unbounded.cell(), "none");
    assert_eq!(Ceiling::Count(1).cell(), "1 model");
}

/// A fraction of a gibibyte is dropped below the byte, and what is below zero
/// is no ceiling at all.
#[test]
fn a_fractional_ceiling_is_whole_bytes() {
    let half = Json::read(r#"{"model_manager": {"memory_budget_gb": 0.5}}"#).unwrap();
    assert_eq!(from_status(&half), Ceiling::Bytes(512 * 1024 * 1024));
    let tenth = Json::read(r#"{"model_manager": {"memory_budget_gb": 0.1}}"#).unwrap();
    assert_eq!(from_status(&tenth), Ceiling::Bytes((0.1f64 * 1024.0 * 1024.0 * 1024.0) as u64));
    let none = Json::read(r#"{"model_manager": {"memory_budget_gb": 0.0}}"#).unwrap();
    assert_eq!(from_status(&none), Ceiling::Unbounded);
}

/// Each provider's ceiling comes from its own reading.
#[test]
fn a_running_provider_is_read_where_it_publishes() {
    let r = Readings {
        running: true,
        argv: argv(&["llama-server", "--models-max", "3"]),
        environ: argv(&["OLLAMA_MAX_LOADED_MODELS=2"]),
        status: Some(Json::read(r#"{"model_manager": {"memory_budget_gb": 14.0}}"#).unwrap()),
        lmstudio_config: Some("{}".into()),
    };
    assert_eq!(budget(ProviderKind::LlamaCpp, &r).ceiling, Ceiling::Count(3));
    assert_eq!(budget(ProviderKind::Ollama, &r).ceiling, Ceiling::Count(2));
    assert_eq!(budget(ProviderKind::Vllm, &r).ceiling, Ceiling::Bytes(14 << 30));
    assert_eq!(budget(ProviderKind::LmStudio, &r).ceiling, Ceiling::Unbounded);
}

/// The process that carries the flag decides, not the first one in the tree.
#[test]
fn the_process_that_answers_decides() {
    let procs = vec![
        ProcessReading { argv: argv(&["sh"]), environ: argv(&[]) },
        ProcessReading { argv: argv(&["llama-server", "--models-max", "1"]), environ: argv(&[]) },
    ];
    assert_eq!(decisive_process(ProviderKind::LlamaCpp, &procs), Some(1));
    assert_eq!(decisive_process(ProviderKind::LlamaCpp, &[]), None);
}

#[test]
fn a_ceiling_of_several_models_is_plural() {
    assert_eq!(Ceiling::Count(2).cell(), "2 models");
    assert_eq!(Ceiling::Bytes(1 << 30).unit(), "bytes");
    assert_eq!(Ceiling::Count(2).unit(), "count");
}
