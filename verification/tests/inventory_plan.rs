//! Removal plans, aliases, and what the stores hold.
use llm_harmony::inventory::artifact::{Artifact, FileKey, Format, Store};
use llm_harmony::inventory::graph::{Edge, Graph, Requirer};
use llm_harmony::inventory::plan::build_plan;
use llm_harmony::inventory::scan::ollama::{blob_path, parse_manifest, tagged, OllamaStore};
use llm_harmony::inventory::scan::vllm::parse_registry;
use llm_harmony::inventory::scan::{is_excluded, roots, total_unique_bytes};
use llm_harmony::inventory::scan::hf::{repo_id_from_dir, HfCache};
use llm_harmony::inventory::Inventory;
use llm_harmony::provider::ProviderKind;

/// `ino` is explicit: a link and its target share one, which is what makes
/// "an alias frees nothing" testable without touching the filesystem.
fn art(id: &str, name: &str, bytes: u64, is_link: bool, ino: u64) -> Artifact {
    Artifact {
        id: id.into(),
        path: format!("/x/{name}"),
        store: Store::LlamaCpp,
        format: Format::Gguf,
        bits: Some(4),
        bytes,
        key: Some(FileKey { dev: 1, ino }),
        is_link,
        name_hint: name.into(),
    }
}

/// Aliases go before targets, or the store is briefly full of dangling
/// links.
#[test]
fn symlinks_are_ordered_before_the_files_they_point_at() {
    let target = art("t", "model.gguf", 4096, false, 42);
    let link = art("l", "alias.gguf", 4096, true, 42);
    let plan = build_plan(vec![link, target], &Graph::build(&[]));
    assert!(plan.steps[0].is_link, "the alias must be removed first: {:?}", plan.steps);
}

#[test]
fn reclaimed_bytes_do_not_count_aliases() {
    let target = art("t", "model.gguf", 4096, false, 42);
    let link = art("l", "alias.gguf", 4096, true, 42);
    let plan = build_plan(vec![link, target], &Graph::build(&[]));
    assert_eq!(plan.reclaims_bytes, 4096, "one allocation, not two");
}

/// Refuses rather than warns.
#[test]
fn a_live_served_artifact_produces_a_refusal_and_no_steps() {
    let a = art("t", "model.gguf", 4096, false, 7);
    let mut g = Graph::build(&[a.clone()]);
    g.add_required_by(a.id.clone(), Requirer::ServedLive {
        provider: ProviderKind::LmStudio,
        model_id: "qwen3-14b".into(),
    });
    let plan = build_plan(vec![a], &g);
    assert!(plan.steps.is_empty(), "nothing may be planned while it is served");
    assert_eq!(plan.refusals.len(), 1);
    assert!(plan.refusals[0].reason.contains("served"), "{:?}", plan.refusals);
}

#[test]
fn an_artifact_scanned_by_a_router_is_also_refused() {
    let a = art("t", "blob", 64, false, 8);
    let mut g = Graph::build(&[a.clone()]);
    g.add_required_by(a.id.clone(), Requirer::Scanned { provider: ProviderKind::LlamaCpp });
    let plan = build_plan(vec![a], &g);
    assert!(plan.steps.is_empty());
    assert_eq!(plan.refusals.len(), 1);
}

/// One refusal and nothing is planned: what would have been reclaimed is
/// nothing either.
#[test]
fn a_refusal_takes_every_step_with_it() {
    let a = art("a", "served.gguf", 10, false, 1);
    let b = art("b", "idle.gguf", 20, false, 2);
    let mut g = Graph::build(&[a.clone(), b.clone()]);
    g.add_required_by(
        a.id.clone(),
        Requirer::Registry { store: "vllm".into(), name: "m".into() },
    );
    let plan = build_plan(vec![a, b], &g);
    assert!(plan.steps.is_empty());
    assert_eq!(plan.reclaims_bytes, 0);
    assert_eq!(plan.refusals[0].reason, "named in the vllm registry as m");
}

#[test]
fn paths_to_one_allocation_are_aliases() {
    let a = art("a", "x", 10, false, 1);
    let l = art("l", "y", 10, true, 1);
    let other = art("o", "z", 10, false, 2);
    let g = Graph::build(&[a.clone(), l.clone(), other]);
    assert_eq!(g.alias_groups().len(), 1);
    assert_eq!(g.aliases_of(&a.id), vec!["l"]);
    assert_eq!(total_unique_bytes(&[a, l]), 10, "an alias adds no bytes");
}

/// Being an alias goes either way round, and no requirement changes it.
#[test]
fn aliases_are_the_other_paths_and_nothing_else() {
    let a = art("a", "x", 10, false, 1);
    let l = art("l", "y", 10, true, 1);
    let m = art("m", "v", 10, true, 1);
    let mut unkeyed = art("n", "w", 10, false, 3);
    unkeyed.key = None;
    let mut g = Graph::build(&[a, l, m, art("o", "z", 10, false, 2), unkeyed]);
    for _ in 0..2 {
        assert_eq!(g.aliases_of("a"), vec!["l", "m"]);
        assert_eq!(g.aliases_of("l"), vec!["a", "m"]);
        assert_eq!(g.aliases_of("m"), vec!["a", "l"]);
        assert!(g.aliases_of("o").is_empty() && g.aliases_of("n").is_empty());
        assert!(g.aliases_of("unknown").is_empty());
        g.add_required_by("l".into(), Requirer::Scanned { provider: ProviderKind::LlamaCpp });
    }
}

/// The alias edges come first, one between each two neighbours of a group, and
/// the requirements after them.
#[test]
fn an_inventory_lays_its_edges_out() {
    let mut a = art("a", "x", 10, false, 1);
    a.store = Store::HfCache;
    let found = vec![a, art("l", "y", 10, true, 1), art("m", "v", 10, true, 1)];
    let inv = Inventory::scan_offline(found, &[]);
    let edges = &inv.graph.edges;
    assert_eq!(edges.len(), 3);
    assert!(matches!(&edges[0], Edge::Aliases { a, b } if a == "a" && b == "l"));
    assert!(matches!(&edges[1], Edge::Aliases { a, b } if a == "l" && b == "m"));
    assert!(matches!(&edges[2], Edge::RequiredBy { artifact, .. } if artifact == "a"));
}

fn at(path: &str, store: Store) -> Artifact {
    let mut a = art(path, path, 5, false, 9);
    a.path = path.to_string();
    a.store = store;
    a
}

#[test]
fn a_cache_directory_gives_its_repo() {
    assert_eq!(repo_id_from_dir("models--Qwen--Qwen3-14B").as_deref(), Some("Qwen/Qwen3-14B"));
    assert_eq!(repo_id_from_dir("datasets--x--y"), None);
    let found = [at("/h/models--a--b/snapshots/1/m.gguf", Store::HfCache)];
    let scanned = HfCache::scan("/h", &found);
    assert_eq!(scanned[0].name_hint, "a/b");
}

#[test]
fn what_is_no_model_is_left_out() {
    assert!(is_excluded("/h/.DS_Store") || is_excluded("/h/.git/config"));
    assert!(!is_excluded("/h/models/m.gguf"));
}

#[test]
fn each_store_has_its_roots() {
    assert_eq!(roots(Store::LlamaCpp, "/Users/x"), vec!["/Users/x/.llamacpp/models"]);
    assert_eq!(roots(Store::LmStudio, "/Users/x").len(), 2);
}

#[test]
fn a_manifest_names_the_blob_its_weights_are_in() {
    let m = parse_manifest(
        r#"{"layers":[
            {"mediaType":"application/vnd.ollama.image.license","digest":"sha256:00","size":1},
            {"mediaType":"application/vnd.ollama.image.model","digest":"sha256:ab","size":7}
        ]}"#,
    )
    .unwrap();
    assert_eq!((m.model_digest.as_str(), m.bytes), ("sha256:ab", 7));
    assert_eq!(blob_path("/o", "sha256:ab"), "/o/blobs/sha256-ab");
    assert!(parse_manifest("{").is_none());
    assert!(parse_manifest(r#"{"layers":[]}"#).is_none());
}

#[test]
fn a_registry_lists_its_entries() {
    let yaml = "models:\n  - name: q\n    path: /v/q\n  - name: no-path\n";
    let entries = parse_registry(yaml);
    assert_eq!(entries[0].name, "q");
    assert_eq!(entries[0].path, "/v/q");
    assert!(parse_registry(": : :").is_empty());
}

/// A manifest's path is its tag, and a file that is no manifest is passed over.
#[test]
fn manifests_are_listed_by_their_tags() {
    let text = r#"{"layers":[{"mediaType":"application/vnd.ollama.image.model",
        "digest":"sha256:ab","size":7}]}"#;
    let read = vec![
        ("/o/manifests/registry.ollama.ai/library/nomic/latest".to_string(), text.to_string()),
        ("/o/manifests/registry.ollama.ai/library/broken/latest".to_string(), "{".to_string()),
        ("/o/manifests/stray".to_string(), text.to_string()),
    ];
    let found = OllamaStore::entries("/o/manifests", &read);
    assert_eq!(found.len(), 1);
    let (tag, m) = &found[0];
    let a = tagged("/o", tag.clone(), m, None);
    assert_eq!(a.id, "ollama:nomic:latest");
    assert_eq!(a.path, "/o/blobs/sha256-ab");
    assert_eq!(a.bytes, 7);
}

/// A file is described by its name and its place.
#[test]
fn a_file_is_described_by_its_name_and_place() {
    let key = FileKey { dev: 1, ino: 2 };
    let a = Artifact::from_path("/s/m-Q4_K_M.gguf", "m-Q4_K_M.gguf", Store::LmStudio, false, Some(key), 7);
    assert_eq!(a.id, "lmstudio:/s/m-Q4_K_M.gguf");
    assert_eq!(a.path, "/s/m-Q4_K_M.gguf");
    assert_eq!(a.format, Format::Gguf);
    assert_eq!(a.bits, Some(4));
    assert_eq!((a.bytes, a.is_link, a.key), (7, false, Some(key)));
    assert_eq!(a.name_hint, "m-Q4_K_M.gguf");
}
