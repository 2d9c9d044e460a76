//! What a model costs: attributed, measured, computed, declared.
use llm_harmony::config::{Config, ProviderConfig};
use llm_harmony::estimate::attribute::model_bytes;
use llm_harmony::estimate::computed::{computed, kv_bytes};
use llm_harmony::estimate::corpus::current;
use llm_harmony::estimate::estimator::{
    for_model, is_trustworthy, ladder, with_declared, Basis, Estimate,
};
use llm_harmony::estimate::price::{declared_bytes, estimate_for, shape_paths};
use llm_harmony::estimate::shape::{
    from_mlx_config, head_dim, parse_gguf, read_header, safetensors_bytes, Cursor, HeaderRead,
    MlxConfig, ModelShape, Stop, SuppliedShape, T_ARRAY, T_UINT32, T_UINT64,
};
use llm_harmony::inventory::artifact::{Artifact, Format, Provenance, Store};
use llm_harmony::inventory::Inventory;
use llm_harmony::ledger::{Ledger, Outcome, ProviderRow};
use llm_harmony::memory::{Machine, ProcessSample};
use llm_harmony::provider::{LoadedModel, ProviderKind, State};
use llm_harmony::record::{Observation, OBSERVATION_SCHEMA};
use llm_harmony::resolve::identity::{candidates, Candidate};

const SCHEMA: u32 = OBSERVATION_SCHEMA;

fn sample(pid: u32, bytes: u64) -> ProcessSample {
    ProcessSample {
        pid,
        footprint_bytes: bytes,
        phys_footprint_bytes: Some(bytes),
        rss_bytes: Some(bytes),
    }
}

fn base(
    model: &str,
    ctx: u32,
    loaded: usize,
    attributable: bool,
    procs: Vec<ProcessSample>,
) -> Observation {
    Observation {
        schema: SCHEMA,
        at: 1,
        provider: ProviderKind::LmStudio,
        loaded,
        model: Some(model.to_string()),
        context_tokens: Some(ctx),
        attributable,
        footprint_bytes: procs.iter().map(|p| p.footprint_bytes).sum(),
        phys_footprint_bytes: None,
        rss_bytes: None,
        processes: procs,
        machine_total_bytes: 25_769_803_776,
        machine_used_bytes: 20_000_000_000,
        swap_used_bytes: 0,
    }
}

/// One resident model whose backing process holds `bytes`, beside a small
/// shell process -- the real shape of an LM Studio tree.
fn loaded(model: &str, ctx: u32, bytes: u64) -> Observation {
    base(model, ctx, 1, true, vec![sample(647, 300_000_000), sample(25164, bytes)])
}

/// Two resident models: attributable is false and nothing may be inferred.
fn two_loaded(model: &str, ctx: u32, bytes: u64) -> Observation {
    base(model, ctx, 2, false, vec![sample(1, bytes / 2), sample(2, bytes / 2)])
}

/// The same reading, taken while the machine was paging. Not a measurement.
fn while_swapping(model: &str, ctx: u32, bytes: u64, swap: u64) -> Observation {
    let mut o = loaded(model, ctx, bytes);
    o.swap_used_bytes = swap;
    o
}

fn idle() -> Observation {
    base("unused", 0, 0, true, vec![sample(647, 600_000_000)])
}

/// Measured 2026-09-09: llama-server held 8.39 GB while LM Studio's five
/// Electron processes together held 0.28 GB. The model is the big one.
#[test]
fn the_model_is_the_largest_process_in_the_tree() {
    let o = loaded("qwen3-14b", 40960, 9_000_000_000);
    assert_eq!(model_bytes(&o), Some(9_000_000_000));
}

/// Two resident models share a tree and the largest process is one of
/// them, not both. Refusing beats guessing.
#[test]
fn two_resident_models_cannot_be_attributed() {
    let o = two_loaded("qwen3-14b", 40960, 9_000_000_000);
    assert_eq!(model_bytes(&o), None);
}

#[test]
fn a_provider_with_nothing_loaded_attributes_nothing() {
    assert_eq!(model_bytes(&idle()), None);
}

#[test]
fn an_observation_with_no_process_detail_attributes_nothing() {
    let mut o = loaded("qwen3-14b", 40960, 9_000_000_000);
    o.processes.clear();
    assert_eq!(model_bytes(&o), None, "a v1 record cannot be attributed");
}

#[test]
fn a_measured_shape_reports_its_measurement() {
    let corpus = vec![
        loaded("qwen3-14b", 40960, 9_000_000_000),
        loaded("qwen3-14b", 40960, 9_100_000_000),
    ];
    let e = for_model(&corpus, "qwen3-14b", Some(40960));
    assert!(matches!(e.basis, Basis::Measured));
    assert_eq!(e.samples, 2);
    // The high-water mark, not the mean: admitting by the average of two
    // readings admits below the larger one, and under-estimating is the
    // failure that wedges the machine.
    assert_eq!(e.bytes, Some(9_100_000_000));
    assert_eq!(e.spread_bytes, Some(100_000_000));
}

#[test]
fn an_unseen_shape_is_unknown_never_interpolated() {
    let corpus = vec![loaded("qwen3-14b", 40960, 9_000_000_000)];
    let e = for_model(&corpus, "qwen3-14b", Some(8192));
    assert!(matches!(e.basis, Basis::Unknown));
    assert_eq!(e.bytes, None, "8k is cheaper than 40k, but by how much is not known");
}

#[test]
fn an_unseen_model_is_unknown() {
    let corpus = vec![loaded("qwen3-14b", 40960, 9_000_000_000)];
    assert!(matches!(for_model(&corpus, "llama-3.2-1b", Some(8192)).basis, Basis::Unknown));
}

/// Asking without a context is asking about the worst case seen.
#[test]
fn omitting_the_context_takes_the_largest_measurement_for_that_model() {
    let corpus = vec![
        loaded("qwen3-14b", 8192, 7_000_000_000),
        loaded("qwen3-14b", 40960, 9_000_000_000),
    ];
    assert_eq!(for_model(&corpus, "qwen3-14b", None).bytes, Some(9_000_000_000));
}

#[test]
fn unattributable_observations_are_not_measurements() {
    let corpus = vec![two_loaded("qwen3-14b", 40960, 12_000_000_000)];
    assert!(matches!(for_model(&corpus, "qwen3-14b", Some(40960)).basis, Basis::Unknown));
}

fn of(basis: Basis, bytes: u64) -> Estimate {
    Estimate { bytes: Some(bytes), basis, samples: 0, spread_bytes: None }
}

fn nothing() -> Estimate {
    Estimate { bytes: None, basis: Basis::Unknown, samples: 0, spread_bytes: None }
}

/// Measurement wins even when a computation exists: it is the only source
/// that can be right about this machine.
#[test]
fn the_ladder_prefers_a_measurement_to_a_computation() {
    let e = ladder(of(Basis::Measured, 1), of(Basis::Computed, 2), Some(3));
    assert_eq!((e.basis, e.bytes), (Basis::Measured, Some(1)));
}

#[test]
fn the_ladder_prefers_a_computation_to_a_declared_floor() {
    let e = ladder(nothing(), of(Basis::Computed, 2), Some(3));
    assert_eq!((e.basis, e.bytes), (Basis::Computed, Some(2)));
}

/// The floor is still reported when it is all there is -- labelled, so
/// `decide` can refuse to admit on it while the operator still sees a
/// number.
#[test]
fn the_ladder_still_reports_a_declared_floor_when_nothing_else_exists() {
    let e = ladder(nothing(), nothing(), Some(3));
    assert_eq!((e.basis, e.bytes), (Basis::Declared, Some(3)));
}

#[test]
fn the_ladder_reports_unknown_when_there_is_nothing_at_all() {
    assert_eq!(ladder(nothing(), nothing(), None).basis, Basis::Unknown);
}

/// The finding that reordered this ladder's trust, 2026-09-11.
///
/// An observation taken under swap pressure is not a measurement. Keeping
/// it would let a depressed figure outrank the bias-high computation that
/// replaced it, which inverts the safety property the whole slice exists
/// to provide.
#[test]
fn an_observation_taken_while_swapping_is_not_a_measurement() {
    let calm = loaded("m", 40_960, 9_600_000_000);
    let paging = while_swapping("m", 40_960, 9_600_000_000, 5_000_000_000);

    assert!(is_trustworthy(&calm));
    assert!(!is_trustworthy(&paging));

    assert_eq!(for_model(&[paging], "m", Some(40_960)).basis, Basis::Unknown);
    assert_eq!(for_model(&[calm], "m", Some(40_960)).basis, Basis::Measured);
}

/// Filtering must not silently drop the good readings alongside the bad.
#[test]
fn a_calm_observation_survives_beside_a_paging_one() {
    let corpus = vec![
        while_swapping("m", 40_960, 12_000_000_000, 6_000_000_000),
        loaded("m", 40_960, 9_600_000_000),
    ];
    let e = for_model(&corpus, "m", Some(40_960));
    assert_eq!(e.samples, 1, "only the calm reading counts");
    assert_eq!(e.bytes, Some(9_600_000_000), "and the paging one cannot inflate it either");
}

/// The real geometry of the 14B on this machine, read from its own header
/// 2026-09-11.
fn qwen3_14b() -> ModelShape {
    ModelShape {
        arch: "qwen3".into(),
        n_layers: 40,
        n_kv_heads: 8,
        head_dim: 128,
        weights_bytes: 9_000_000_000,
        trained_context: Some(40_960),
    }
}

/// K and V, per layer, per kv head, per token, at the cache dtype.
/// 2 x 40 x 8 x 128 x 8192 x 2 = 1,342,177,280.
#[test]
fn kv_scales_linearly_with_context() {
    let s = qwen3_14b();
    assert_eq!(kv_bytes(&s, 8_192, 2), 1_342_177_280);
    assert_eq!(kv_bytes(&s, 16_384, 2), 2_684_354_560);
}

/// The whole point of the basis: the figure must move when the window
/// moves. LM Studio's own estimator does not, which is exactly why it
/// cannot carry admission.
#[test]
fn a_bigger_window_costs_more_than_a_smaller_one() {
    let s = qwen3_14b();
    let small = computed(&s, 8_192, 2).bytes.unwrap();
    let big = computed(&s, 40_960, 2).bytes.unwrap();
    assert!(big > small, "{big} should exceed {small}");
}

#[test]
fn the_estimate_is_weights_plus_kv_plus_margin() {
    let s = qwen3_14b();
    let e = computed(&s, 8_192, 2);
    let floor = s.weights_bytes + kv_bytes(&s, 8_192, 2);
    assert!(e.bytes.expect("a computed estimate is always a number") > floor);
    assert_eq!(e.basis, Basis::Computed);
}

/// A quantised cache halves the term that dominates at long windows.
/// Harmony cannot see the choice -- llama.cpp publishes nothing about
/// `-ctk`/`-ctv` -- so it assumes the expensive case and takes an override.
#[test]
fn a_quantised_cache_costs_less_and_is_expressible() {
    let s = qwen3_14b();
    assert_eq!(kv_bytes(&s, 8_192, 1), kv_bytes(&s, 8_192, 2) / 2);
}

/// Multiplied in u64 with the biggest window a caller could ask for: the
/// arithmetic must not wrap into a small, confident number.
#[test]
fn an_absurd_context_does_not_wrap() {
    let s = qwen3_14b();
    let e = computed(&s, u32::MAX, 8);
    assert!(e.bytes.unwrap() > 1 << 40, "saturating, not wrapping");
}

#[test]
fn head_dim_prefers_what_the_artifact_declares() {
    assert_eq!(head_dim(Some(128), Some(5120), 40), Some(128));
}

#[test]
fn head_dim_ignores_a_declared_zero() {
    assert_eq!(head_dim(Some(0), Some(5120), 40), Some(128));
}

/// No embedding width and no declared dimension is not a shape. Returning
/// a default here would put a plausible number into a multiplication that
/// decides whether the machine swaps.
#[test]
fn head_dim_refuses_rather_than_defaulting() {
    assert_eq!(head_dim(None, None, 40), None);
    assert_eq!(head_dim(None, Some(5120), 0), None);
}

#[test]
fn an_array_of_fixed_width_values_is_stepped_over_exactly() {
    let mut b: Vec<u8> = Vec::new();
    b.extend(T_UINT32.to_le_bytes());
    b.extend(3u64.to_le_bytes());
    b.extend(1u32.to_le_bytes());
    b.extend(2u32.to_le_bytes());
    b.extend(3u32.to_le_bytes());
    b.extend(b"after");

    let mut c = Cursor { b: &b, at: 0 };
    c.skip_value(T_ARRAY).expect("steps over the array");
    assert_eq!(c.take(5).unwrap(), b"after");
}

/// A corrupt count must not be multiplied into a wrapped offset.
#[test]
fn an_absurd_array_count_is_refused_not_wrapped() {
    let mut b: Vec<u8> = Vec::new();
    b.extend(T_UINT64.to_le_bytes());
    b.extend(u64::MAX.to_le_bytes());
    let mut c = Cursor { b: &b, at: 0 };
    assert!(c.skip_value(T_ARRAY).is_none());
}

fn kv_u32(key: &str, value: u32) -> Vec<u8> {
    let mut b = (key.len() as u64).to_le_bytes().to_vec();
    b.extend(key.as_bytes());
    b.extend(T_UINT32.to_le_bytes());
    b.extend(value.to_le_bytes());
    b
}

fn kv_text(key: &str, value: &str) -> Vec<u8> {
    let mut b = (key.len() as u64).to_le_bytes().to_vec();
    b.extend(key.as_bytes());
    b.extend(8u32.to_le_bytes());
    b.extend((value.len() as u64).to_le_bytes());
    b.extend(value.as_bytes());
    b
}

fn gguf(pairs: &[Vec<u8>]) -> Vec<u8> {
    let mut b = b"GGUF".to_vec();
    b.extend(3u32.to_le_bytes());
    b.extend(0u64.to_le_bytes());
    b.extend((pairs.len() as u64).to_le_bytes());
    for p in pairs {
        b.extend(p);
    }
    b
}

fn qwen_header() -> Vec<u8> {
    gguf(&[
        kv_text("general.architecture", "qwen3"),
        kv_u32("qwen3.block_count", 40),
        kv_u32("qwen3.attention.head_count", 40),
        kv_u32("qwen3.attention.head_count_kv", 8),
        kv_u32("qwen3.embedding_length", 5120),
        kv_u32("qwen3.context_length", 40960),
    ])
}

/// The geometry is in the header, whatever the file is called.
#[test]
fn a_header_gives_its_geometry() {
    let s = parse_gguf(&qwen_header(), 9_000_000_000).unwrap();
    assert_eq!(s, qwen3_14b());
}

/// Without grouped-query attention the two head counts are equal.
#[test]
fn a_header_without_kv_heads_has_as_many_as_heads() {
    let b = gguf(&[
        kv_text("general.architecture", "llama"),
        kv_u32("llama.block_count", 2),
        kv_u32("llama.attention.head_count", 4),
        kv_u32("llama.attention.key_length", 16),
    ]);
    let s = parse_gguf(&b, 1).unwrap();
    assert_eq!((s.n_kv_heads, s.head_dim, s.trained_context), (4, 16, None));
}

#[test]
fn a_header_that_stops_says_how() {
    assert!(matches!(parse_gguf(b"ELF\0....", 1), Err(Stop::NotGguf)));
    assert!(matches!(parse_gguf(&qwen_header()[..60], 1), Err(Stop::Truncated)));
    let no_arch = gguf(&[kv_u32("qwen3.block_count", 40)]);
    assert!(matches!(parse_gguf(&no_arch, 1), Err(Stop::Incomplete)));
}

/// A short prefix asks for more; the whole file cannot.
#[test]
fn a_truncated_prefix_is_read_on_only_where_there_is_more() {
    let b = qwen_header();
    assert!(matches!(read_header(&b[..60], 60, 1), HeaderRead::ReadMore));
    assert!(matches!(read_header(&b[..60], 61, 1), HeaderRead::Nothing));
    assert!(matches!(read_header(&b, b.len(), 1), HeaderRead::Shape(_)));
}

/// The tokenizer is not walked once the geometry is in hand.
#[test]
fn the_tokenizer_is_never_reached_for() {
    let mut pairs = vec![
        kv_text("general.architecture", "qwen3"),
        kv_u32("qwen3.block_count", 40),
        kv_u32("qwen3.attention.head_count", 40),
        kv_u32("qwen3.embedding_length", 5120),
    ];
    pairs.push(kv_text("tokenizer.ggml.model", "gpt2"));
    let mut b = gguf(&pairs);
    b.truncate(b.len() - 4);
    assert!(parse_gguf(&b, 1).is_ok());
}

fn mlx() -> MlxConfig {
    MlxConfig {
        model_type: Some("qwen3".into()),
        num_hidden_layers: Some(40),
        num_attention_heads: Some(40),
        num_key_value_heads: Some(8),
        head_dim: None,
        hidden_size: Some(5120),
        max_position_embeddings: Some(40_960),
    }
}

/// A config beside no weights is a config, not a model.
#[test]
fn an_mlx_config_needs_weights_beside_it() {
    assert_eq!(from_mlx_config(&mlx(), 9_000_000_000), Some(qwen3_14b()));
    assert_eq!(from_mlx_config(&mlx(), 0), None);
}

#[test]
fn every_shard_is_summed_and_nothing_else() {
    let entries = vec![
        ("model-1.safetensors".to_string(), Some(5)),
        ("model-2.SafeTensors".to_string(), Some(7)),
        ("config.json".to_string(), Some(100)),
        (".safetensors".to_string(), Some(1000)),
        ("unread.safetensors".to_string(), None),
    ];
    assert_eq!(safetensors_bytes(&entries), 12);
}

#[test]
fn a_supplied_shape_names_what_it_lacks() {
    let anonymous = SuppliedShape {
        arch: Some(" ".into()),
        n_layers: None,
        n_kv_heads: None,
        head_dim: None,
        weights_bytes: None,
        trained_context: None,
    };
    assert_eq!(ModelShape::from_supplied(anonymous).unwrap_err(), "shape is missing `arch`");
    let bare = SuppliedShape {
        arch: Some("qwen3".into()),
        n_layers: Some(0),
        n_kv_heads: None,
        head_dim: Some(128),
        weights_bytes: Some(1),
        trained_context: Some(0),
    };
    let e = ModelShape::from_supplied(bare).unwrap_err();
    assert!(e.starts_with("shape is incomplete: n_layers, n_kv_heads -- "), "{e}");
    let full = SuppliedShape {
        arch: Some("qwen3".into()),
        n_layers: Some(40),
        n_kv_heads: Some(8),
        head_dim: Some(128),
        weights_bytes: Some(1),
        trained_context: Some(0),
    };
    assert_eq!(ModelShape::from_supplied(full).unwrap().trained_context, None);
}

#[test]
fn only_the_current_schema_is_kept() {
    let mut old = idle();
    old.schema = SCHEMA + 1;
    assert_eq!(current(vec![old, idle()]).len(), 1);
}

#[test]
fn a_declared_floor_fills_in_only_for_nothing() {
    assert_eq!(with_declared(nothing(), Some(3)).basis, Basis::Declared);
    assert_eq!(with_declared(of(Basis::Measured, 1), Some(3)).bytes, Some(1));
}

fn artifact(path: &str, format: Format, bytes: u64) -> Artifact {
    Artifact {
        id: path.to_string(),
        path: path.to_string(),
        store: Store::LmStudio,
        format,
        bits: None,
        bytes,
        key: None,
        is_link: false,
        name_hint: "Qwen3-14B-Q4_K_M.gguf".to_string(),
    }
}

fn listed(id: &str, weights: Option<u64>, path: Option<&str>) -> LoadedModel {
    LoadedModel {
        id: id.into(),
        state: State::NotLoaded,
        context_tokens: None,
        weights_bytes: weights,
        expires_at_unix: None,
        model_type: None,
        artifact_path: path.map(str::to_string),
    }
}

fn ledger(models: Vec<LoadedModel>) -> Ledger {
    let row = ProviderRow {
        kind: ProviderKind::LmStudio,
        url: "http://127.0.0.1:1234".into(),
        outcome: Outcome::Answered(models),
        pids: Vec::new(),
        footprint_bytes: None,
        phys_footprint_bytes: None,
        rss_bytes: None,
        processes: Vec::new(),
    };
    Ledger::assemble(Machine::zero(), vec![row])
}

fn on_disk() -> Inventory {
    Inventory::scan_offline(
        vec![
            artifact("/m/q/config.json", Format::Other, 700),
            artifact("/m/q/model.gguf", Format::Gguf, 9_000_000_000),
        ],
        &[],
    )
}

/// A name reaches the model by what it is once the build's marks are gone, and
/// says whether the provider reported the file or the name gave it.
#[test]
fn a_name_finds_every_offer_and_the_file_behind_it() {
    let l = ledger(vec![
        listed("lmstudio-community/qwen3-14b", None, Some("/m/q/config.json")),
        listed("qwen3-14b", None, None),
        listed("llama-3.2-1b", None, None),
    ]);
    let c = candidates(&l, &on_disk(), "Qwen3-14B-GGUF");
    assert_eq!(c.len(), 2);
    assert_eq!(c[0].artifact.as_deref(), Some("/m/q/config.json"));
    assert_eq!(c[0].provenance, Provenance::Recorded);
    assert!(!c[1].provenance.is_recorded());
    assert!(candidates(&l, &on_disk(), "mistral-7b").is_empty());
}

/// The geometry is looked for in the file the provider named, then in the
/// weights beside it.
#[test]
fn a_config_leads_on_to_the_weights_beside_it() {
    let l = ledger(vec![listed("qwen3-14b", None, Some("/m/q/config.json"))]);
    let c = candidates(&l, &on_disk(), "qwen3-14b");
    assert_eq!(shape_paths(&on_disk(), &c[0]), vec!["/m/q/config.json", "/m/q/model.gguf"]);
}

fn offer() -> Vec<Candidate> {
    let l = ledger(vec![listed("qwen3-14b", None, Some("/m/q/model.gguf"))]);
    candidates(&l, &on_disk(), "qwen3-14b")
}

/// Measured, then computed at the window asked for or trained at, then
/// declared: by the provider first, by the file after it.
#[test]
fn a_price_climbs_down_the_ladder() {
    let config = Config::defaults();
    let l = ledger(vec![listed("qwen3-14b", None, Some("/m/q/model.gguf"))]);
    let said = ledger(vec![listed("qwen3-14b", Some(8), Some("/m/q/model.gguf"))]);
    let c = offer();
    assert_eq!(declared_bytes(&l, &on_disk(), &c), Some(9_000_000_000));
    assert_eq!(declared_bytes(&said, &on_disk(), &c), Some(8));

    let none = estimate_for(&config, &l, &on_disk(), &c, &[None], "qwen3-14b", None, &[]);
    assert_eq!((none.basis, none.bytes), (Basis::Declared, Some(9_000_000_000)));

    let shapes = [Some(qwen3_14b())];
    let trained = estimate_for(&config, &l, &on_disk(), &c, &shapes, "qwen3-14b", None, &[]);
    assert_eq!(trained, computed(&qwen3_14b(), 40_960, 2));
    let asked = estimate_for(&config, &l, &on_disk(), &c, &shapes, "qwen3-14b", Some(8_192), &[]);
    assert_eq!(asked, computed(&qwen3_14b(), 8_192, 2));

    let corpus = [loaded("qwen3-14b", 8_192, 9_500_000_000)];
    let seen =
        estimate_for(&config, &l, &on_disk(), &c, &shapes, "qwen3-14b", Some(8_192), &corpus);
    assert_eq!((seen.basis, seen.bytes), (Basis::Measured, Some(9_500_000_000)));
}

/// A provider that declared a quantised cache is priced with it.
#[test]
fn a_declared_cache_width_is_used() {
    let mut p = ProviderConfig::at(ProviderKind::LmStudio, "http://127.0.0.1:1234".into());
    p.kv_dtype_bytes = Some(1);
    let config = Config { providers: vec![p] };
    let l = ledger(vec![listed("qwen3-14b", None, Some("/m/q/model.gguf"))]);
    let shapes = [Some(qwen3_14b())];
    let e = estimate_for(&config, &l, &on_disk(), &offer(), &shapes, "qwen3-14b", Some(8_192), &[]);
    assert_eq!(e, computed(&qwen3_14b(), 8_192, 1));
}

/// A value cut short is a header cut short, whichever key it is of.
#[test]
fn a_kept_value_cut_short_is_worth_a_retry() {
    let mut b = b"GGUF".to_vec();
    b.extend(3u32.to_le_bytes());
    b.extend(0u64.to_le_bytes());
    b.extend(1u64.to_le_bytes());
    b.extend(13u64.to_le_bytes());
    b.extend(b"q.block_count");
    b.extend(4u32.to_le_bytes());
    b.extend([1, 0]);
    assert!(matches!(parse_gguf(&b, 9), Err(Stop::Truncated)));
    b.extend([0, 0]);
    assert!(matches!(parse_gguf(&b, 9), Err(Stop::Incomplete)));
}

/// Every front of a header either runs out or says what the whole says.
#[test]
fn more_bytes_change_no_answer() {
    let whole = qwen_header();
    let full = parse_gguf(&whole, 1).unwrap();
    for n in 0..=whole.len() {
        match parse_gguf(&whole[..n], 1) {
            Ok(s) => assert_eq!(s.n_layers, full.n_layers),
            Err(Stop::Truncated) => {}
            Err(e) => panic!("{n}: {e:?}"),
        }
    }
}

/// The margin comes on top however large the figures are.
#[test]
fn a_computed_figure_is_never_below_weights_and_cache() {
    let mut s = qwen3_14b();
    for weights in [0, 1, u64::MAX / 108, u64::MAX / 108 + 1, u64::MAX / 2, u64::MAX] {
        s.weights_bytes = weights;
        let floor = weights.saturating_add(kv_bytes(&s, 8_192, 2));
        assert!(computed(&s, 8_192, 2).bytes.unwrap() >= floor, "{weights}");
    }
    s.weights_bytes = u64::MAX / 2;
    s.n_layers = 0;
    assert_eq!(computed(&s, 8_192, 2).bytes, Some((u64::MAX / 2 / 100) * 108 + (u64::MAX / 2 % 100) * 108 / 100));
}
