//! Which providers there are, and where they listen.
use llm_harmony::config::{Config, ProviderConfig, RawProvider};
use llm_harmony::memory::{combined, descendants, port_from_url, Machine, ProcessTree};
use llm_harmony::provider::ProviderKind;

/// The providers a file declares.
fn from_toml(text: &str) -> Result<Config, String> {
    let table: toml::Table = text.parse().unwrap();
    let entries = match table.get("provider").and_then(|p| p.as_array()) {
        Some(list) => list
            .iter()
            .map(|p| RawProvider {
                kind: p.get("kind").unwrap().as_str().unwrap().to_string(),
                url: p.get("url").unwrap().as_str().unwrap().to_string(),
                start: p.get("start").and_then(|s| s.as_str()).map(str::to_string),
                launchd_label: p.get("launchd_label").and_then(|s| s.as_str()).map(str::to_string),
                kv_dtype_bytes: p
                    .get("kv_dtype_bytes")
                    .and_then(|n| n.as_integer())
                    .map(|n| n as u64),
            })
            .collect(),
        None => Vec::new(),
    };
    Config::from_entries(entries)
}

#[test]
fn defaults_cover_all_four_providers() {
    let c = Config::defaults();
    assert_eq!(c.providers.len(), 4);
    let lms = c.providers.iter().find(|p| p.kind == ProviderKind::LmStudio).unwrap();
    assert_eq!(lms.url, "http://127.0.0.1:1234");
}

#[test]
fn toml_replaces_defaults_entirely() {
    let c = from_toml(
        r#"
        [[provider]]
        kind = "ollama"
        url = "http://127.0.0.1:99"
        "#,
    )
    .unwrap();
    assert_eq!(c.providers.len(), 1, "an explicit config is not merged with defaults");
    assert_eq!(c.providers[0].url, "http://127.0.0.1:99");
}

#[test]
fn empty_toml_falls_back_to_defaults() {
    assert_eq!(from_toml("").unwrap().providers.len(), 4);
}

#[test]
fn unknown_kind_is_a_config_error() {
    let err = from_toml(
        r#"
        [[provider]]
        kind = "vllm-mlx"
        url = "http://127.0.0.1:8000"
        "#,
    )
    .unwrap_err();
    assert!(err.contains("vllm-mlx"), "error should name the bad kind, got: {err}");
}

#[test]
fn trailing_slashes_are_stripped_so_urls_join_cleanly() {
    let c = from_toml(
        r#"
        [[provider]]
        kind = "ollama"
        url = "http://127.0.0.1:11434/"
        "#,
    )
    .unwrap();
    assert_eq!(c.providers[0].url, "http://127.0.0.1:11434");
}

#[test]
fn a_declared_provider_keeps_what_was_declared_of_it() {
    let c = from_toml(
        r#"
        [[provider]]
        kind = "vllm"
        url = "http://127.0.0.1:8000"
        start = "vllm-mlx serve"
        launchd_label = "com.example.vllm"
        kv_dtype_bytes = 1
        "#,
    )
    .unwrap();
    let p = c.provider(ProviderKind::Vllm).unwrap();
    assert_eq!(p.start.as_deref(), Some("vllm-mlx serve"));
    assert_eq!(p.label(), "com.example.vllm");
    assert_eq!(p.kv_dtype_bytes, Some(1));
    assert!(c.provider(ProviderKind::Ollama).is_none());
}

#[test]
fn a_label_is_made_from_the_kind_where_none_is_declared() {
    let p = ProviderConfig::at(ProviderKind::Ollama, "http://127.0.0.1:11434".into());
    assert_eq!(p.label(), "dev.llm-harmony.ollama");
}

/// Neither macOS metric sees the whole picture, and they are blind to
/// different things. Verified 2026-09-09 on this machine:
///
/// - `phys_footprint` misses memory-mapped GGUF weights, because clean
///   file-backed pages are not counted. `llama-server` held an 8.38 GB
///   model and the whole LM Studio tree reported 6.89 GB.
/// - RSS misses Metal buffers in unified memory. LM Studio's main process
///   reported 104 MB resident against a 285 MB footprint.
///
/// Taking the larger is crude, but it is wrong in the direction
/// that is safe: over-estimating wastes capacity,
/// under-estimating wedges the machine.
#[test]
fn the_larger_of_the_two_metrics_wins() {
    assert_eq!(combined(Some(6_890_000_000), Some(8_670_000_000)), Some(8_670_000_000));
    assert_eq!(combined(Some(285_000_000), Some(104_000_000)), Some(285_000_000));
}

#[test]
fn a_readable_metric_is_used_even_when_the_other_is_not() {
    assert_eq!(combined(Some(500), None), Some(500));
    assert_eq!(combined(None, Some(700)), Some(700));
}

/// An unreadable process must not silently contribute zero.
#[test]
fn neither_metric_readable_is_unknown_not_zero() {
    assert_eq!(combined(None, None), None);
}

#[test]
fn a_port_is_read_off_the_url() {
    assert_eq!(port_from_url("http://127.0.0.1:1234"), Some(1234));
    assert_eq!(port_from_url("http://127.0.0.1:1234/v1"), Some(1234));
    assert_eq!(port_from_url("http://localhost"), None);
    assert_eq!(port_from_url("http://localhost:99999"), None);
}

#[test]
fn a_tree_is_everything_below_the_root() {
    let table = vec![(10, Some(1)), (11, Some(10)), (12, Some(11)), (13, Some(1)), (1, None)];
    assert_eq!(descendants(&table, 10), vec![10, 11, 12]);
    assert_eq!(descendants(&table, 99), vec![99]);
}

#[test]
fn a_tree_costs_the_larger_metric_of_each_process() {
    let t = ProcessTree::from_usage(&vec![(1, Some((5, 9))), (2, None), (3, Some((7, 2)))]);
    assert_eq!(t.pids, vec![1, 2, 3]);
    assert_eq!(t.footprint_bytes, Some(16));
    assert_eq!(t.phys_footprint_bytes, Some(12));
    assert_eq!(t.rss_bytes, Some(11));
    let unread = ProcessTree::from_usage(&vec![(1, None)]);
    assert_eq!(unread.footprint_bytes, None, "never silently zero");
}

#[test]
fn a_machine_keeps_its_total_and_never_goes_below_nothing_free() {
    let m = Machine { total_bytes: 100, used_bytes: 75, swap_total_bytes: 0, swap_used_bytes: 0 };
    assert_eq!(m.free_bytes(), 25);
    assert_eq!(m.free_percent(), 25);
    assert_eq!(Machine::zero().free_bytes(), 0);
}
