//! Providers, what they report, what is protected, what is recorded.
use llm_harmony::actuate::run::pin_by_hand;
use llm_harmony::adapters::{actuation, is_resident};
use llm_harmony::adapters::llamacpp::LlamaCpp;
use llm_harmony::adapters::lmstudio::LmStudio;
use llm_harmony::adapters::ollama::Ollama;
use llm_harmony::adapters::vllm::Vllm;
use llm_harmony::adapters::when::unix_time;
use llm_harmony::config::Config;
use llm_harmony::http::{map_err, Breakage, Failure};
use llm_harmony::json::Json;
use llm_harmony::ledger::{Ledger, Outcome, ProviderRow};
use llm_harmony::memory::{Machine, ProcessTree};
use llm_harmony::pins::{human_seconds, LeaseOutcome, Pin, Pins, ReleaseOutcome};
use llm_harmony::provider::{Actuation, LoadRequest, LoadedModel, ProbeError, ProviderKind, State};
use llm_harmony::record::observations;
use llm_harmony::resolve::identity::Candidate;
use llm_harmony::inventory::artifact::Provenance;
use llm_harmony::verbs;

#[test]
fn kind_round_trips_through_str() {
    for k in ProviderKind::ALL {
        assert_eq!(k.as_str().parse::<ProviderKind>().unwrap(), k);
    }
}

#[test]
fn kind_rejects_unknown_names() {
    assert!("vllm-mlx".parse::<ProviderKind>().is_err());
    assert!("".parse::<ProviderKind>().is_err());
}

#[test]
fn default_ports_match_the_machine() {
    assert_eq!(ProviderKind::LmStudio.default_port(), 1234);
    assert_eq!(ProviderKind::Ollama.default_port(), 11434);
    assert_eq!(ProviderKind::LlamaCpp.default_port(), 8080);
    assert_eq!(ProviderKind::Vllm.default_port(), 8000);
}

#[test]
fn an_unloaded_model_has_no_serving_window() {
    let m = LoadedModel::unloaded("qwen3-14b");
    assert_eq!(m.state, State::NotLoaded);
    assert_eq!(m.context_tokens, None, "a window is only knowable once resident");
}

fn machine() -> Machine {
    Machine {
        total_bytes: 25_769_803_776,
        used_bytes: 20_000_000_000,
        swap_total_bytes: 6_442_450_944,
        swap_used_bytes: 5_100_000_000,
    }
}

fn model(id: &str, state: State, ctx: Option<u32>) -> LoadedModel {
    LoadedModel {
        id: id.into(),
        state,
        context_tokens: ctx,
        weights_bytes: None,
        expires_at_unix: None,
        model_type: None,
        artifact_path: None,
    }
}

fn row(kind: ProviderKind, outcome: Outcome, fp: Option<u64>) -> ProviderRow {
    ProviderRow {
        kind,
        url: "http://127.0.0.1:1".into(),
        outcome,
        pids: vec![1],
        footprint_bytes: fp,
        phys_footprint_bytes: fp,
        rss_bytes: fp,
        processes: Vec::new(),
    }
}

fn ledger(rows: Vec<ProviderRow>) -> Ledger {
    Ledger::assemble(machine(), rows)
}

/// The high-value case: one model resident means
/// `footprint - idle_baseline` is attributable to it, with no
/// before/after delta needed.
#[test]
fn one_resident_model_is_an_attributable_observation() {
    let l = ledger(vec![row(
        ProviderKind::LmStudio,
        Outcome::Answered(vec![
            model("qwen3-14b", State::Loaded, Some(40960)),
            model("other", State::NotLoaded, None),
        ]),
        Some(9_600_000_000),
    )]);
    let obs = observations(&l, 1_757_000_000);
    assert_eq!(obs.len(), 1);
    assert!(obs[0].attributable);
    assert_eq!(obs[0].model.as_deref(), Some("qwen3-14b"));
    assert_eq!(obs[0].context_tokens, Some(40960));
}

/// Equally valuable: a provider with nothing loaded is its idle baseline,
/// which the estimator must subtract. LM Studio's is ~0.58 GB.
#[test]
fn zero_resident_models_is_a_baseline_observation() {
    let l = ledger(vec![row(
        ProviderKind::LmStudio,
        Outcome::Answered(vec![model("x", State::NotLoaded, None)]),
        Some(620_000_000),
    )]);
    let obs = observations(&l, 1);
    assert_eq!(obs.len(), 1);
    assert_eq!(obs[0].loaded, 0);
    assert!(obs[0].attributable, "a baseline is attributable to nothing, which is the point");
    assert_eq!(obs[0].model, None);
}

/// Two resident models share one footprint and cannot be split.
#[test]
fn two_resident_models_are_recorded_but_not_attributable() {
    let l = ledger(vec![row(
        ProviderKind::LmStudio,
        Outcome::Answered(vec![
            model("a", State::Loaded, Some(8192)),
            model("b", State::Loaded, Some(8192)),
        ]),
        Some(12_000_000_000),
    )]);
    let obs = observations(&l, 1);
    assert_eq!(obs[0].loaded, 2);
    assert!(!obs[0].attributable);
    assert_eq!(obs[0].model, None, "no single model owns this footprint");
}

#[test]
fn a_provider_that_did_not_answer_records_nothing() {
    let l = ledger(vec![row(
        ProviderKind::LlamaCpp,
        Outcome::Failed(ProbeError::NotListening),
        None,
    )]);
    assert!(observations(&l, 1).is_empty());
}

#[test]
fn a_provider_with_an_unreadable_footprint_records_nothing() {
    let l = ledger(vec![row(
        ProviderKind::LmStudio,
        Outcome::Answered(vec![model("a", State::Loaded, Some(8192))]),
        None,
    )]);
    assert!(observations(&l, 1).is_empty(), "an observation with no measurement is not one");
}

/// A store as a document holds it. A document that names no schema is of the
/// first, and a field nobody knows is passed over.
fn store(text: &str) -> Pins {
    let v: serde_json::Value = serde_json::from_str(text).unwrap();
    let pins = v["pins"]
        .as_array()
        .unwrap()
        .iter()
        .map(|p| Pin {
            provider: p["provider"].as_str().unwrap().parse().unwrap(),
            model: p["model"].as_str().unwrap().to_string(),
            at: p["at"].as_u64().unwrap(),
            note: None,
            owner: None,
            expires_at: p["expires_at"].as_u64(),
        })
        .collect();
    Pins::from_parts(v["schema"].as_u64().map(|n| n as u32), pins)
}

#[test]
fn a_document_without_a_schema_field_still_loads() {
    assert_eq!(store(r#"{"pins":[]}"#).schema(), 1);
}

#[test]
fn an_unknown_field_does_not_discard_the_store() {
    let p = store(
        r#"{"schema":1,"pins":[{"provider":"ollama","model":"m","at":1}],"future":true}"#,
    );
    assert!(p.is_pinned(ProviderKind::Ollama, "m"));
}

fn leased(model: &str, owner: Option<&str>, until: Option<u64>) -> Pin {
    Pin {
        provider: ProviderKind::Ollama,
        model: model.into(),
        at: 1,
        note: None,
        owner: owner.map(str::to_string),
        expires_at: until,
    }
}

/// A lease weakens nothing: it is taken, moved later, or refused.
#[test]
fn a_lease_is_taken_extended_or_refused() {
    let mut p = Pins::empty();
    assert_eq!(p.lease(leased("m", Some("a"), Some(100))), LeaseOutcome::Taken);
    assert_eq!(p.lease(leased("m", Some("b"), Some(50))), LeaseOutcome::AlreadyLonger);
    assert_eq!(p.all()[0].owner.as_deref(), Some("a"));
    assert_eq!(p.lease(leased("m", Some("b"), Some(200))), LeaseOutcome::Extended);
    assert_eq!(p.all()[0].expires_at, Some(200));
    assert!(p.holds(ProviderKind::Ollama, "m", 199).is_some());
    assert!(p.holds(ProviderKind::Ollama, "m", 200).is_none(), "lapsed at its end");
    assert!(p.holds(ProviderKind::LmStudio, "m", 1).is_none(), "keyed on the pair");
    assert!(p.add(leased("pinned", None, None)));
    assert!(!p.add(leased("pinned", None, None)));
    assert_eq!(p.lease(leased("pinned", None, Some(9))), LeaseOutcome::RefusedPinned);
}

#[test]
fn a_release_gives_back_a_lease_and_leaves_a_pin() {
    let mut p = Pins::empty();
    p.lease(leased("m", None, Some(100)));
    p.add(leased("pinned", None, None));
    assert_eq!(p.release(ProviderKind::Ollama, "m"), ReleaseOutcome::Released);
    assert_eq!(p.release(ProviderKind::Ollama, "m"), ReleaseOutcome::NotHeld);
    assert_eq!(p.release(ProviderKind::Ollama, "pinned"), ReleaseOutcome::WasPinned);
    assert!(p.remove(ProviderKind::Ollama, "pinned"));
    assert!(!p.remove(ProviderKind::Ollama, "pinned"));
}

/// Sweeping forgets what no longer protects and changes no answer.
#[test]
fn a_sweep_changes_no_answer() {
    let mut p = Pins::empty();
    p.lease(leased("old", None, Some(10)));
    p.lease(leased("new", None, Some(1_000)));
    assert!(p.holds(ProviderKind::Ollama, "old", 500).is_none());
    assert_eq!(p.sweep(500), 1);
    assert!(p.holds(ProviderKind::Ollama, "old", 500).is_none());
    assert!(p.holds(ProviderKind::Ollama, "new", 500).is_some());
}

#[test]
fn a_term_is_shown_coarsely() {
    assert_eq!(human_seconds(0), "expired");
    assert_eq!(human_seconds(89), "89s");
    assert_eq!(human_seconds(90), "1m");
    assert_eq!(human_seconds(5_399), "89m");
    assert_eq!(human_seconds(7_200), "2.0h");
}

#[test]
fn an_entry_is_blamed_by_who_holds_it() {
    assert_eq!(leased("m", None, None).blame(0), "m on ollama");
    assert_eq!(leased("m", Some("a"), None).blame(0), "m on ollama (pinned by a)");
    assert_eq!(leased("m", None, Some(60)).blame(0), "m on ollama (leased, 60s left)");
}

fn at(model: &str) -> (ProviderKind, String) {
    (ProviderKind::Ollama, model.to_string())
}

/// Asking for a state one is already in changes nothing and is no error.
#[test]
fn pinning_and_unpinning_say_what_changed() {
    let mut p = Pins::empty();
    let targets = [at("a"), at("b"), at("a")];
    assert_eq!(verbs::pin(&mut p, &targets, 5, &Some("why".into())), vec![true, true, false]);
    assert_eq!(p.all()[0].note.as_deref(), Some("why"));
    assert_eq!(p.all().len(), 2);
    assert_eq!(verbs::unpin(&mut p, &[at("a"), at("c")]), vec![true, false]);
    assert!(!p.is_pinned(ProviderKind::Ollama, "a"));
    assert!(p.is_pinned(ProviderKind::Ollama, "b"));
}

#[test]
fn leasing_and_releasing_sweep_first() {
    let mut p = Pins::empty();
    p.lease(leased("lapsed", None, Some(10)));
    let got = verbs::lease(&mut p, &[at("a")], 100, 60, &Some("me".into()));
    assert_eq!(got, vec![LeaseOutcome::Taken]);
    assert_eq!(p.all().len(), 1);
    assert_eq!(p.all()[0].expires_at, Some(160));
    assert_eq!(verbs::lease_line(&at("a"), got[0], 60), "leased a on ollama for 60s");
    assert!(!verbs::lease_refused(&got));
    assert!(verbs::lease_refused(&[LeaseOutcome::RefusedPinned]));
    assert_eq!(verbs::release(&mut p, &[at("a"), at("z")], 100), vec![
        ReleaseOutcome::Released,
        ReleaseOutcome::NotHeld
    ]);
}

#[test]
fn what_a_pin_reaches_is_the_model_and_not_one_spelling() {
    let c = Candidate {
        provider: ProviderKind::Vllm,
        provider_model_id: "q".into(),
        url: "http://127.0.0.1:8000".into(),
        state: State::NotLoaded,
        artifact: None,
        provenance: Provenance::Recorded,
    };
    let named = verbs::pin_targets("as-typed", Some("ollama"), &[]).unwrap();
    assert_eq!(named, vec![at("as-typed")]);
    let served = verbs::pin_targets("q", None, &[c]).unwrap();
    assert_eq!(served, vec![(ProviderKind::Vllm, "q".to_string())]);
    assert!(verbs::pin_targets("ghost", None, &[]).unwrap_err().contains("`ghost`"));
    assert!(verbs::pin_targets("q", Some("nope"), &[]).is_err());
}

#[test]
fn a_provider_is_looked_up_by_its_name() {
    let c = Config::defaults();
    assert_eq!(verbs::provider_config(Ok(&c), "vllm").unwrap().kind, ProviderKind::Vllm);
    let none = Config { providers: Vec::new() };
    assert_eq!(
        verbs::provider_config(Ok(&none), "vllm").unwrap_err(),
        "`vllm` is not in your config"
    );
    assert_eq!(verbs::provider_config(Err("unreadable"), "vllm").unwrap_err(), "unreadable");
    assert_eq!(
        verbs::provider_config(Err("unreadable"), "x").unwrap_err(),
        "unknown provider kind `x`"
    );
}

fn json(s: &str) -> Json {
    Json::read(s).unwrap()
}

/// LM Studio publishes its models, their state and their window.
#[test]
fn lm_studio_is_read() {
    let m = LmStudio::list(&json(
        r#"{"data":[{"id":"q","state":"loaded","loaded_context_length":4096,"type":"llm"},
                    {"id":"r","state":"not-loaded","max_context_length":8192}]}"#,
    ))
    .unwrap();
    assert_eq!(m[0].state, State::Loaded);
    assert_eq!(m[0].context_tokens, Some(4096));
    assert_eq!(m[1].context_tokens, None, "a capability is no serving window");
    assert!(LmStudio::list(&json("{}")).is_err());
}

#[test]
fn a_load_by_cli_carries_its_window_and_term() {
    let argv = LmStudio::load_argv(&LoadRequest {
        model: "q".into(),
        context_tokens: Some(4096),
        ttl_seconds: Some(60),
    });
    assert!(argv.contains(&"q".to_string()) && argv.contains(&"4096".to_string()), "{argv:?}");
    assert!(LmStudio::unload_argv("q").contains(&"q".to_string()));
}

#[test]
fn llama_cpp_is_read() {
    let m = LlamaCpp::list(&json(
        r#"{"data":[{"id":"q","status":{"value":"loaded","args":["--model","/m/q.gguf"]}}]}"#,
    ))
    .unwrap();
    assert_eq!(m[0].state, State::Loaded);
    assert_eq!(m[0].artifact_path.as_deref(), Some("/m/q.gguf"));
    assert!(LlamaCpp::list(&json("[]")).is_err());
}

#[test]
fn vllm_is_read() {
    let m = Vllm::list(&json(
        r#"{"model_manager":{"models":[{"name":"q","status":"loaded","memory_gb":2.0}]}}"#,
    ));
    assert!(m.is_ok(), "{m:?}");
    assert!(Vllm::list(&json("{}")).is_err());
}

/// Ollama lists what is resident and, apart, what is on disk.
#[test]
fn ollama_is_read_from_both_lists() {
    let ps = json(
        r#"{"models":[{"name":"q:latest","size":7,"expires_at":"2026-09-11T10:00:00Z"}]}"#,
    );
    let tags = json(r#"{"models":[{"name":"q:latest"},{"name":"r:latest","size":9}]}"#);
    let m = Ollama::list(&ps, Some(&tags)).unwrap();
    assert_eq!(m.len(), 2);
    assert_eq!(m[0].state, State::Loaded);
    assert_eq!(m[0].expires_at_unix, unix_time("2026-09-11T10:00:00Z"));
    assert_eq!(m[1].state, State::NotLoaded);
    assert!(is_resident(&Ok(m), "q:latest"));
    assert!(!is_resident(&Err(ProbeError::NotListening), "q:latest"));
}

#[test]
fn an_expiry_is_read_with_its_offset() {
    assert_eq!(unix_time("1970-01-01T00:00:00Z"), Some(0));
    assert_eq!(unix_time("2024-02-29T12:00:00.5+02:00"), Some(1_709_200_800));
    assert_eq!(unix_time("2023-02-29T12:00:00Z"), None);
    assert_eq!(unix_time("yesterday"), None);
}

#[test]
fn two_of_the_four_can_be_acted_on_model_by_model() {
    assert_eq!(actuation(ProviderKind::LmStudio), Actuation::ModelLevel);
    assert_eq!(actuation(ProviderKind::Ollama), Actuation::ModelLevel);
    assert!(!actuation(ProviderKind::LlamaCpp).can_unload());
    assert!(!actuation(ProviderKind::Vllm).can_unload());
}

/// A port nothing listens on is told apart from a slow answer.
#[test]
fn a_failed_call_says_what_it_says() {
    let io = |how: Breakage| map_err(Failure::Io { how, said: "broken".into() });
    assert_eq!(io(Breakage::ConnectionRefused), ProbeError::NotListening);
    assert_eq!(io(Breakage::AddrNotAvailable), ProbeError::NotListening);
    assert_eq!(io(Breakage::ConnectionReset), ProbeError::NotListening);
    assert_eq!(io(Breakage::TimedOut), ProbeError::Timeout);
    assert_eq!(io(Breakage::Other), ProbeError::Malformed { reason: "broken".into() });
    assert_eq!(map_err(Failure::Status { code: 404 }), ProbeError::Status { code: 404 });
    assert_eq!(map_err(Failure::Timeout), ProbeError::Timeout);
    assert_eq!(
        map_err(Failure::Unreadable { said: "eof".into() }),
        ProbeError::Malformed { reason: "not JSON: eof".into() }
    );
    assert_eq!(
        map_err(Failure::Other { said: "x".into() }),
        ProbeError::Malformed { reason: "x".into() }
    );
}

/// A port is read only behind a provider that answered, and what is found
/// there becomes its row.
#[test]
fn a_row_is_what_was_found_behind_its_port() {
    let url = "http://127.0.0.1:1234";
    let failed = Outcome::Failed(ProbeError::Timeout);
    assert_eq!(ProviderRow::port_to_read(&failed, url), None);
    let answered = Outcome::Answered(Vec::new());
    assert_eq!(ProviderRow::port_to_read(&answered, url), Some(1234));
    assert_eq!(ProviderRow::port_to_read(&answered, "http://127.0.0.1"), None);
    let tree = ProcessTree::from_usage(&vec![(7, Some((10, 30))), (8, None)]);
    let row = ProviderRow::assembled(ProviderKind::LmStudio, url.into(), answered, Some(tree));
    assert_eq!(row.footprint_bytes, Some(30));
    assert_eq!(row.phys_footprint_bytes, Some(10));
    assert_eq!(row.rss_bytes, Some(30));
    assert_eq!(row.pids, vec![7, 8]);
    let bare = ProviderRow::assembled(ProviderKind::Vllm, url.into(), failed, None);
    assert_eq!(bare.footprint_bytes, None);
    assert!(bare.pids.is_empty() && bare.processes.is_empty());
}

#[test]
fn a_pin_by_hand_never_expires() {
    let p = pin_by_hand(ProviderKind::Ollama, "m", 9);
    assert_eq!((p.model.as_str(), p.at, p.expires_at), ("m", 9, None));
    assert!(p.owner.is_none() && p.note.is_none());
}

/// Only a pin takes the place of a lease: what ends itself changes nothing.
#[test]
fn a_lease_gives_way_to_nothing_that_ends() {
    for until in [50, 100, 200] {
        let mut p = Pins::empty();
        p.lease(leased("m", Some("a"), Some(100)));
        assert!(!p.add(leased("m", None, Some(until))));
        assert_eq!(p.all().len(), 1);
        assert_eq!(p.all()[0].expires_at, Some(100));
        assert_eq!(p.all()[0].owner.as_deref(), Some("a"));
    }
    let mut p = Pins::empty();
    assert!(p.add(leased("m", None, Some(50))), "nothing was there");
    assert_eq!(p.all()[0].expires_at, Some(50));
}

/// A pin takes the place of a lease, lapsed or not.
#[test]
fn a_pin_over_a_lease_protects_without_end() {
    for until in [0, 5, u64::MAX] {
        let mut p = Pins::empty();
        p.lease(leased("m", Some("a"), Some(until)));
        assert!(p.add(leased("m", None, None)), "it was leased, not pinned");
        assert!(p.holds(ProviderKind::Ollama, "m", u64::MAX).is_some());
        assert_eq!(p.all().len(), 1);
        assert!(!p.add(leased("m", None, None)));
    }
}
