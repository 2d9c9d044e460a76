//! How safe it is to remove a build, and which files are duplicates.
use llm_harmony::inventory::artifact::{Artifact, FileKey, Format, Quant, Store};
use llm_harmony::inventory::dupes::{
    candidates, duplicates, duplicates_above, extent, reclaimable_bytes, Extent, MIN_BYTES,
    SAMPLE_BYTES,
};
use llm_harmony::inventory::identity::{canonical_name, group};
use llm_harmony::inventory::safety::{classify, Safety};
use llm_harmony::inventory::scan::vllm::RegistryEntry;
use llm_harmony::inventory::Inventory;
use llm_harmony::ledger::{Ledger, Outcome, ProviderRow};
use llm_harmony::memory::Machine;
use llm_harmony::provider::{LoadedModel, ProviderKind, State};
use llm_harmony::verbs::builds_named;

fn art(id: &str, name: &str, bits: Option<u8>, format: Format, store: Store) -> Artifact {
    Artifact {
        id: id.into(),
        path: format!("/x/{name}"),
        store,
        format,
        bits,
        bytes: 1024,
        key: None,
        is_link: false,
        name_hint: name.into(),
    }
}

/// A Q4 alongside a Q6 of the same model is redundant. Quantisation is
/// one-way, so the higher-bit artifact is the one worth keeping.
#[test]
fn a_lower_bit_build_beside_a_higher_one_is_redundant() {
    let q4 = art("a", "Qwen3.5-9B-heretic-Q4_K_M.gguf", Some(4), Format::Gguf, Store::LlamaCpp);
    let q6 = art("b", "Qwen3.5-9B-heretic-Q6_K.gguf", Some(6), Format::Gguf, Store::LlamaCpp);
    let peers = vec![q4.clone(), q6.clone()];
    assert!(matches!(classify(&q4, &peers), Safety::Redundant { .. }));
}

#[test]
fn the_highest_bit_build_is_never_redundant() {
    let q4 = art("a", "m-Q4_K_M.gguf", Some(4), Format::Gguf, Store::LlamaCpp);
    let q6 = art("b", "m-Q6_K.gguf", Some(6), Format::Gguf, Store::LlamaCpp);
    assert!(!matches!(classify(&q6, &vec![q4, q6.clone()]), Safety::Redundant { .. }));
}

/// There is no MLX <-> GGUF path. An MLX build does not make a GGUF build
/// redundant, whatever the bit depths.
#[test]
fn a_different_format_never_makes_an_artifact_redundant() {
    let gguf = art("a", "m-Q4_K_M.gguf", Some(4), Format::Gguf, Store::LlamaCpp);
    let mlx = art("b", "m-MLX-6bit", Some(6), Format::Mlx, Store::Vllm);
    assert!(!matches!(classify(&gguf, &vec![gguf.clone(), mlx]), Safety::Redundant { .. }));
}

#[test]
fn an_hf_source_is_reproducible() {
    let src = art("a", "org/model", None, Format::Safetensors(Quant::Bf16), Store::HfCache);
    assert!(matches!(classify(&src, &vec![src.clone()]), Safety::Reproducible { .. }));
}

#[test]
fn a_lone_build_with_no_source_is_irreplaceable() {
    let only = art("a", "m-Q4_K_M.gguf", Some(4), Format::Gguf, Store::LlamaCpp);
    assert!(matches!(classify(&only, &vec![only.clone()]), Safety::Irreplaceable { .. }));
}

#[test]
fn a_name_loses_what_varies_between_builds() {
    assert_eq!(canonical_name("lmstudio-community/Qwen3-14B-GGUF"), "qwen3-14b");
    assert_eq!(canonical_name("Qwen3-14B-Q4_K_M.gguf"), "qwen3-14b");
    assert_eq!(canonical_name("qwen3:14b"), "qwen3");
    assert_eq!(canonical_name("Llama-3.2-1B-Instruct-4bit"), "llama-3.2-1b-instruct");
}

fn allocated(id: &str, bytes: u64, ino: u64) -> Artifact {
    let mut a = art(id, id, None, Format::Gguf, Store::LlamaCpp);
    a.bytes = bytes;
    a.key = Some(FileKey { dev: 1, ino });
    a
}

#[test]
fn builds_of_one_name_are_one_model() {
    let q4 = art("a", "m-Q4_K_M.gguf", Some(4), Format::Gguf, Store::LlamaCpp);
    let q6 = art("b", "m-Q6_K.gguf", Some(6), Format::Gguf, Store::LlamaCpp);
    let models = group(&[q4.clone(), q6.clone()]);
    assert_eq!(models.len(), 1);
    assert_eq!(models[0].canonical, "m");
    assert!(!models[0].provenance.is_recorded(), "a name is only ever inferred from");
    let inv = Inventory::scan_offline(vec![q4, q6], &[]);
    assert_eq!(builds_named(&inv, "pub/M-GGUF").len(), 2);
    assert!(builds_named(&inv, "other").is_empty());
}

/// Two allocations of one size and one content are duplicates; two paths to
/// one allocation are not.
#[test]
fn duplicates_are_distinct_allocations_of_the_same_bytes() {
    let inv = Inventory::scan_offline(
        vec![allocated("a", 100, 1), allocated("b", 100, 2), allocated("c", 100, 3), allocated("d", 7, 4)],
        &[],
    );
    assert_eq!(candidates(&inv, 50).len(), 3);
    let samples = vec![
        ("a".to_string(), vec![1, 2]),
        ("b".to_string(), vec![1, 2]),
        ("c".to_string(), vec![9, 9]),
    ];
    let groups = duplicates_above(&inv, 50, &samples);
    assert_eq!(groups.len(), 1);
    assert_eq!(groups[0].members.len(), 2);
    assert_eq!(groups[0].reclaimable_bytes, 100);
    assert_eq!(reclaimable_bytes(&groups), 100);
    assert!(duplicates(&inv, &samples).is_empty(), "under the ordinary floor");
    let alias = Inventory::scan_offline(vec![allocated("a", 100, 1), allocated("b", 100, 1)], &[]);
    assert!(duplicates_above(&alias, 50, &samples).is_empty());
    assert!(MIN_BYTES > 100);
}

#[test]
fn a_long_file_is_sampled_at_both_ends() {
    assert!(matches!(extent(10), Extent::Whole));
    assert!(matches!(extent(u64::MAX), Extent::Ends { each } if each == SAMPLE_BYTES));
}

fn served(id: &str) -> Ledger {
    let m = LoadedModel {
        id: id.into(),
        state: State::Loaded,
        context_tokens: None,
        weights_bytes: None,
        expires_at_unix: None,
        model_type: None,
        artifact_path: None,
    };
    let row = ProviderRow {
        kind: ProviderKind::Ollama,
        url: "http://127.0.0.1:11434".into(),
        outcome: Outcome::Answered(vec![m]),
        pids: Vec::new(),
        footprint_bytes: None,
        phys_footprint_bytes: None,
        rss_bytes: None,
        processes: Vec::new(),
    };
    Ledger::assemble(Machine::zero(), vec![row])
}

/// Serving a model protects every path to its bytes.
#[test]
fn a_served_model_protects_its_aliases() {
    let mut real = allocated("real", 100, 1);
    real.name_hint = "m-Q4_K_M.gguf".into();
    let mut alias = allocated("alias", 100, 1);
    alias.name_hint = "pool-entry".into();
    let inv = Inventory::scan(vec![real, alias], &[], &served("m"));
    assert!(!inv.graph.requirers_of(&"real".to_string()).is_empty());
    assert!(!inv.graph.requirers_of(&"alias".to_string()).is_empty());
    assert_eq!(inv.total_bytes(), 100);
}

/// A registry entry protects what it names, router or no router.
#[test]
fn a_registered_model_is_required_offline_too() {
    let mut a = allocated("v", 100, 1);
    a.store = Store::Vllm;
    a.path = "/v/q/model.safetensors".into();
    let entry = RegistryEntry { name: "q".into(), path: "/v/q".into() };
    let inv = Inventory::scan_offline(vec![a], &[entry]);
    assert_eq!(inv.graph.requirers_of(&"v".to_string()).len(), 1);
}
