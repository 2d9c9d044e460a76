//! What is on disk, which paths reach the same bytes, and what may go.
use llm_harmony::inventory::artifact::{
    bits_from_name, Artifact, FileKey, Format, Provenance, Quant, Store,
};
use llm_harmony::inventory::clean::{redundant, CleanPlan};
use llm_harmony::inventory::graph::{Graph, Requirer};
use llm_harmony::inventory::identity::{canonical_name, group_with_aliases};
use llm_harmony::inventory::scan::total_unique_bytes;
use llm_harmony::inventory::Inventory;
use llm_harmony::provider::ProviderKind;

#[test]
fn format_is_read_from_the_file_shape() {
    assert_eq!(Format::from_path_str("model.q4_k_m.gguf"), Format::Gguf);
    assert_eq!(Format::from_path_str("model.safetensors"), Format::Safetensors(Quant::Bf16));
    assert_eq!(Format::from_path_str("weights.npz"), Format::Mlx);
    assert_eq!(Format::from_path_str("README.md"), Format::Other);
}

#[test]
fn bits_are_parsed_from_the_naming_conventions_in_use() {
    assert_eq!(bits_from_name("Qwen3-14B-Q4_K_M.gguf"), Some(4));
    assert_eq!(bits_from_name("Qwen3.5-9B-Heretic-Q6_K.gguf"), Some(6));
    assert_eq!(bits_from_name("Qwen3-14B-Q8_0.gguf"), Some(8));
    assert_eq!(bits_from_name("Qwen3.5-9B-MLX-6bit"), Some(6));
    assert_eq!(bits_from_name("Llama-3.2-1B-Instruct-4bit"), Some(4));
    assert_eq!(bits_from_name("bge-small-en-v1.5"), None);
}

#[test]
fn provenance_cannot_be_silently_treated_as_fact() {
    let inferred = Provenance::Inferred { basis: "name match".into() };
    assert!(!inferred.is_recorded());
    assert!(Provenance::Recorded.is_recorded());
}

struct Build {
    name: &'static str,
    bits: Option<u8>,
    bytes: u64,
    ino: u64,
    is_link: bool,
    store: Store,
    format: Format,
}

fn gguf(name: &'static str, bits: u8, bytes: u64, ino: u64) -> Build {
    Build {
        name,
        bits: Some(bits),
        bytes,
        ino,
        is_link: false,
        store: Store::LlamaCpp,
        format: Format::Gguf,
    }
}

fn artifact(b: &Build) -> Artifact {
    Artifact {
        id: format!("{}:/x/{}", b.store.as_str(), b.name),
        path: format!("/x/{}", b.name),
        store: b.store,
        format: b.format,
        bits: b.bits,
        bytes: b.bytes,
        key: Some(FileKey { dev: 1, ino: b.ino }),
        is_link: b.is_link,
        name_hint: b.name.to_string(),
    }
}

fn inventory(builds: &[Build]) -> Inventory {
    let artifacts: Vec<Artifact> = builds.iter().map(artifact).collect();
    let graph = Graph::build(&artifacts);
    let identities = group_with_aliases(&artifacts, &graph);
    Inventory {
        artifacts,
        graph,
        identities,
    }
}

fn planned_paths(plan: &CleanPlan) -> Vec<String> {
    plan.models
        .iter()
        .flat_map(|m| m.plan.steps.iter().map(|s| s.path.clone()))
        .collect()
}

#[test]
fn a_superseded_build_is_selected_and_the_better_one_is_left_alone() {
    let plan = redundant(&inventory(&[
        gguf("m-Q4_K_M.gguf", 4, 9_000, 1),
        gguf("m-Q6_K.gguf", 6, 12_000, 2),
    ]));
    assert_eq!(planned_paths(&plan), vec!["/x/m-Q4_K_M.gguf"]);
    assert_eq!(plan.reclaims_bytes, 9_000);
}

/// The survivor guarantee: every step must leave a better build of the
/// same format behind, so the highest-bit build is never in a plan.
#[test]
fn the_best_build_of_a_format_is_never_planned() {
    let plan = redundant(&inventory(&[
        gguf("m-Q4_K_M.gguf", 4, 9_000, 1),
        gguf("m-Q6_K.gguf", 6, 12_000, 2),
        gguf("m-Q8_0.gguf", 8, 15_000, 3),
    ]));
    let paths = planned_paths(&plan);
    assert!(paths.contains(&"/x/m-Q4_K_M.gguf".to_string()), "{paths:?}");
    assert!(paths.contains(&"/x/m-Q6_K.gguf".to_string()), "{paths:?}");
    assert!(!paths.contains(&"/x/m-Q8_0.gguf".to_string()), "{paths:?}");
    assert_eq!(plan.reclaims_bytes, 21_000);
}

/// There is no MLX <-> GGUF path, so a 6-bit
/// MLX build cannot make a 4-bit GGUF redundant. This is the case that
/// deleted a capability by hand -- the MTP tensors only the GGUF kept.
#[test]
fn a_build_in_another_format_is_never_selected() {
    let mut mlx = gguf("m-MLX-6bit", 6, 12_000, 2);
    mlx.format = Format::Mlx;
    mlx.store = Store::Vllm;
    let plan = redundant(&inventory(&[gguf("m-Q4_K_M.gguf", 4, 9_000, 1), mlx]));
    assert!(plan.models.is_empty(), "{:?}", planned_paths(&plan));
    assert_eq!(plan.reclaims_bytes, 0);
}

/// A symlink into another store carries no bit depth in its name, so it
/// does not classify as redundant on its own. It still has to go, or the
/// pool is left holding a dangling link.
#[test]
fn an_alias_of_a_selected_build_is_removed_with_it_and_frees_nothing() {
    let mut alias = gguf("pool-entry.gguf", 4, 9_000, 1);
    alias.bits = None;
    alias.is_link = true;
    alias.store = Store::LmStudio;
    let plan = redundant(&inventory(&[
        gguf("m-Q4_K_M.gguf", 4, 9_000, 1),
        gguf("m-Q6_K.gguf", 6, 12_000, 2),
        alias,
    ]));
    let steps = &plan.models[0].plan.steps;
    assert_eq!(steps.len(), 2, "the alias and its target: {steps:?}");
    assert!(steps[0].is_link, "aliases first: {steps:?}");
    assert_eq!(steps[0].frees_bytes, 0);
    assert_eq!(plan.reclaims_bytes, 9_000, "one allocation, not two");
}

/// The difference from `rm`: a refusal poisons one model's plan, not the
/// run. Forty models must not be held hostage by the one being served.
#[test]
fn a_refusal_skips_only_the_model_it_belongs_to() {
    let inv0 = inventory(&[
        gguf("served-Q4_K_M.gguf", 4, 9_000, 1),
        gguf("served-Q6_K.gguf", 6, 12_000, 2),
        gguf("idle-Q4_K_M.gguf", 4, 5_000, 3),
        gguf("idle-Q6_K.gguf", 6, 7_000, 4),
    ]);
    let mut inv = inv0;
    inv.graph.add_required_by(
        "llamacpp:/x/served-Q4_K_M.gguf".to_string(),
        Requirer::ServedLive {
            provider: ProviderKind::LlamaCpp,
            model_id: "served".into(),
        },
    );

    let plan = redundant(&inv);
    assert_eq!(planned_paths(&plan), vec!["/x/idle-Q4_K_M.gguf"]);
    assert_eq!(plan.skipped.len(), 1);
    assert_eq!(plan.skipped[0].model, "served");
    assert_eq!(
        plan.reclaims_bytes, 5_000,
        "a skipped model contributes nothing to the total"
    );
}

#[test]
fn an_inventory_with_one_build_per_model_plans_nothing() {
    let plan = redundant(&inventory(&[
        gguf("a-Q4_K_M.gguf", 4, 9_000, 1),
        gguf("b-Q6_K.gguf", 6, 12_000, 2),
    ]));
    assert!(plan.models.is_empty());
    assert!(plan.skipped.is_empty());
    assert_eq!(plan.reclaims_bytes, 0);
}

fn art(path: &str, format: Format, bytes: u64) -> Artifact {
    Artifact {
        id: path.to_string(),
        path: path.to_string(),
        store: Store::LmStudio,
        format,
        bits: None,
        bytes,
        key: None,
        is_link: false,
        name_hint: path.to_string(),
    }
}

fn unidentified(artifacts: Vec<Artifact>) -> Inventory {
    let graph = Graph::build(&artifacts);
    Inventory { artifacts, graph, identities: Vec::new() }
}

/// The defect, 2026-09-11: LM Studio's candidate resolves to the
/// `config.json` beside the GGUF, and pricing it reported a 9 GB model as
/// 1.3 GB -- the KV cache alone.
#[test]
fn a_config_file_resolves_to_the_weights_beside_it() {
    let inv = unidentified(vec![
        art("/models/TeichAI/Qwen3-GGUF/config.json", Format::Other, 1_940),
        art("/models/TeichAI/Qwen3-GGUF/qwen3-14b.q4_k_m.gguf", Format::Gguf, 9_000_000_000),
    ]);
    let a = inv.weights_artifact(&"/models/TeichAI/Qwen3-GGUF/config.json".to_string());
    assert_eq!(a.unwrap().bytes, 9_000_000_000);
}

/// A weights file is its own answer: llama.cpp and vLLM report the real
/// path, and second-guessing them would be how a correct answer gets lost.
#[test]
fn a_weights_file_is_returned_as_itself() {
    let inv = unidentified(vec![
        art("/m/a.gguf", Format::Gguf, 9_000_000_000),
        art("/m/b.gguf", Format::Gguf, 15_700_000_000),
    ]);
    let a = inv.weights_artifact(&"/m/a.gguf".to_string());
    assert_eq!(a.unwrap().bytes, 9_000_000_000, "not the larger sibling");
}

/// The rule stops at the directory. A Q4 and a Q8 of one model are the
/// same *identity* and different builds; crossing that line priced a 9 GB
/// Q4 as a 15.7 GB Q8.
#[test]
fn the_search_does_not_cross_into_another_directory() {
    let inv = unidentified(vec![
        art("/lmstudio/m/config.json", Format::Other, 1_940),
        art("/lmstudio/m/q4.gguf", Format::Gguf, 9_000_000_000),
        art("/llamacpp/models/q8.gguf", Format::Gguf, 15_700_000_000),
    ]);
    let a = inv.weights_artifact(&"/lmstudio/m/config.json".to_string());
    assert_eq!(a.unwrap().bytes, 9_000_000_000);
}

#[test]
fn a_config_beside_no_weights_at_all_is_none() {
    let inv = unidentified(vec![art("/m/config.json", Format::Other, 1_940)]);
    assert!(inv.weights_artifact(&"/m/config.json".to_string()).is_none());
}

/// Every path of every plan is counted.
#[test]
fn a_clean_counts_what_it_would_remove() {
    let plan = redundant(&inventory(&[
        gguf("m-Q4_K_M.gguf", 4, 9_000, 1),
        gguf("m-Q6_K.gguf", 6, 12_000, 2),
        gguf("m-Q8_0.gguf", 8, 15_000, 3),
    ]));
    assert_eq!(plan.artifact_count(), planned_paths(&plan).len());
    assert_eq!(plan.artifact_count(), 2);
}

/// No artifact belongs to two models.
#[test]
fn an_artifact_has_one_model() {
    let mut alias = gguf("pool-entry.gguf", 4, 9_000, 1);
    alias.is_link = true;
    let inv = inventory(&[
        gguf("m-Q4_K_M.gguf", 4, 9_000, 1),
        gguf("m-Q6_K.gguf", 6, 12_000, 2),
        gguf("other-Q6_K.gguf", 6, 12_000, 3),
        alias,
    ]);
    let held: Vec<&String> = inv.identities.iter().flat_map(|m| &m.artifacts).collect();
    assert_eq!(held.len(), 4);
    for a in &inv.artifacts {
        assert_eq!(held.iter().filter(|id| ***id == a.id).count(), 1, "{}", a.id);
    }
    assert_eq!(inv.identities.len(), 2, "the alias joins the model it reaches");
}

/// A better build that shares the worse one's bytes keeps both: removing one
/// would remove the other.
#[test]
fn a_better_build_on_the_same_bytes_keeps_them() {
    let shared = redundant(&inventory(&[
        gguf("m-Q4_K_M.gguf", 4, 9_000, 1),
        gguf("m-Q6_K.gguf", 6, 9_000, 1),
    ]));
    assert!(shared.models.is_empty(), "{:?}", planned_paths(&shared));
    let apart = redundant(&inventory(&[
        gguf("m-Q4_K_M.gguf", 4, 9_000, 1),
        gguf("m-Q6_K.gguf", 6, 9_000, 1),
        gguf("m-Q8_0.gguf", 8, 9_000, 2),
    ]));
    assert_eq!(planned_paths(&apart).len(), 2);
    assert!(!planned_paths(&apart).contains(&"/x/m-Q8_0.gguf".to_string()));
    let tied = redundant(&inventory(&[
        gguf("m-Q2_K.gguf", 2, 5_000, 1),
        gguf("m-Q4_K_M.gguf", 4, 9_000, 2),
        gguf("m-Q8_0.gguf", 8, 9_000, 2),
        gguf("m-a-Q8_0.gguf", 8, 9_000, 3),
    ]));
    for (_, better) in tied.models.iter().flat_map(|m| &m.superseded) {
        assert!(!planned_paths(&tied).iter().any(|p| better.ends_with(p.as_str())), "{better}");
    }
}

/// What is counted once is counted once in any order.
#[test]
fn bytes_are_counted_once_in_any_order() {
    let mut all = inventory(&[
        gguf("a.gguf", 4, 10, 1),
        gguf("b.gguf", 4, 20, 2),
        gguf("c.gguf", 4, 10, 1),
    ])
    .artifacts;
    assert_eq!(total_unique_bytes(&all), 30);
    all.reverse();
    assert_eq!(total_unique_bytes(&all), 30);
}

/// Publisher, extension, case and quantisation are no part of a name.
#[test]
fn a_canonical_name_holds_only_the_model() {
    for raw in ["Qwen3-14B", "pub/Qwen3-14B", "qwen3-14b.gguf", "QWEN3-14B-Q6_K", "Qwen3-14B.Q6_K.gguf",
        "Qwen3-14B.i1.IQ2_XXS.gguf", "qwen3-14b:latest", "Qwen3-14B-MLX-4bit", "-Qwen3-14B_"]
    {
        let want = if raw.contains(".i1") { "qwen3-14b.i1" } else { "qwen3-14b" };
        assert_eq!(canonical_name(raw), want, "{raw}");
    }
    assert_eq!(canonical_name("Qwen3.8-27B"), "qwen3.8-27b");
    assert_eq!(canonical_name("pub/dir/Qwen3-14B.gguf"), canonical_name("pub/dir/Qwen3-14B"));
}

/// Artifacts are one model by a chain of names and allocations, and not else.
#[test]
fn a_chain_makes_one_model() {
    let inv = inventory(&[
        gguf("a-Q4_K_M.gguf", 4, 1, 1),
        gguf("b.gguf", 4, 1, 1),
        gguf("b-Q8_0.gguf", 8, 2, 2),
        gguf("c.gguf", 4, 2, 2),
        gguf("d.gguf", 4, 3, 3),
    ]);
    let sizes: Vec<usize> = inv.identities.iter().map(|m| m.artifacts.len()).collect();
    assert_eq!(sizes.iter().sum::<usize>(), 5);
    assert!(sizes.contains(&4) && sizes.contains(&1), "{sizes:?}");
}
