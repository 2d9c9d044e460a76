//! Taking a model in: fit, place, provenance, search, plan.
use llm_harmony::estimate::estimator::{Basis, Estimate};
use llm_harmony::intake::download::{part_name, Transfer, REPORT_EVERY_BYTES};
use llm_harmony::intake::fit::{assess, Verdict};
use llm_harmony::intake::hf::{
    download_url, repo, repo_from_json, repo_url, search_ids, search_url, urlencode,
};
use llm_harmony::intake::place::{directory_for, store_for};
use llm_harmony::intake::provenance::{check, Finding};
use llm_harmony::inventory::artifact::{Format, Quant, Store};
use llm_harmony::json::Json;
use llm_harmony::memory::Machine;
use llm_harmony::provider::{ProbeError, ProviderKind};

fn machine(free: u64) -> Machine {
    let total = 25_769_803_776u64;
    Machine {
        total_bytes: total,
        used_bytes: total - free,
        swap_total_bytes: 0,
        swap_used_bytes: 0,
    }
}

fn priced(bytes: u64) -> Estimate {
    Estimate { bytes: Some(bytes), basis: Basis::Computed, samples: 0, spread_bytes: None }
}

#[test]
fn a_pull_is_admitted_against_disk_and_memory_before_a_byte_moves() {
    let f = assess(8_000, &priced(11_000), &machine(20_000), 100_000, 0);
    assert_eq!(f.verdict, Verdict::Fits);
    assert!(f.ok());
}

#[test]
fn landing_on_disk_and_being_loadable_are_reported_separately() {
    // The case the two-ledger claim exists for: plenty of disk, no room to
    // run it. Worth downloading; not worth pretending it will serve.
    let f = assess(8_000, &priced(30_000), &machine(3_000), 100_000, 0);
    assert_eq!(f.verdict, Verdict::FitsDiskOnly);
    assert!(!f.ok());
    assert!(f.message().contains("would land"), "{}", f.message());
}

#[test]
fn no_disk_says_so_in_disk_terms() {
    let f = assess(500_000, &priced(1), &machine(20_000), 100_000, 0);
    assert_eq!(f.verdict, Verdict::NoDisk);
    assert!(f.message().contains("on disk"), "{}", f.message());
}

#[test]
fn failing_both_names_both_rather_than_the_first_wall_it_hit() {
    let f = assess(500_000, &priced(30_000), &machine(3_000), 100_000, 0);
    assert_eq!(f.verdict, Verdict::Neither);
    let m = f.message();
    assert!(m.contains("on disk") && m.contains("loading it needs"), "{m}");
}

#[test]
fn an_unpriceable_model_does_not_admit_on_a_floor_of_zero() {
    let f = assess(8_000, &Estimate::unknown(), &machine(20_000), 100_000, 0);
    assert!(!f.ok(), "nobody can say what it costs, so nobody can say it fits");
    assert_eq!(f.verdict, Verdict::FitsDiskOnly);
    assert!(f.message().contains("unknown amount"), "{}", f.message());
}

/// The defect this signature exists for: 9 GB free, an 8 GB model, and an
/// 8 GB reserve. Raw free memory says yes and the loader says no, so
/// intake said yes and `load` refused afterwards -- the pull admitted
/// against one ledger that the second ledger was meant to stop.
#[test]
fn the_reserve_is_held_back_so_intake_and_load_cannot_disagree() {
    const GB: u64 = 1024 * 1024 * 1024;
    let eight = 8 * GB;
    let m = machine(9 * GB);
    assert_eq!(assess(eight, &priced(eight), &m, 500 * GB, 0).verdict, Verdict::Fits);
    assert_eq!(
        assess(eight, &priced(eight), &m, 500 * GB, eight).verdict,
        Verdict::FitsDiskOnly,
        "the reserve is not headroom a model may take"
    );
}

/// Found on a real machine 2026-09-11: a 24 GiB Mac, 7.9G free, an 8.0G
/// reserve, asked for a 25.6 GiB MLX build of a 27B. The refusal read
/// "loading it needs 25.6G where 0B is available" -- two wrong impressions
/// in one line. Nothing was going to free 25.6G on a 24 GiB machine, and
/// the machine was not out of memory; the reserve was simply wider than
/// what was free.
#[test]
fn a_model_larger_than_the_machine_says_so_rather_than_blaming_the_moment() {
    const GB: u64 = 1024 * 1024 * 1024;
    // machine() is 24 GiB total. 7.9 free, 8 held back: headroom is 0.
    let m = machine(7_900 * GB / 1000);
    let f = assess(25 * GB, &priced(25 * GB + GB / 2), &m, 500 * GB, 8 * GB);
    assert_eq!(f.verdict, Verdict::FitsDiskOnly);
    assert!(f.beyond_machine(), "25.5 GiB does not fit in 24 GiB, ever");
    let msg = f.message();
    assert!(msg.contains("in total"), "it names the machine's own ceiling: {msg}");
    assert!(
        !msg.contains("0B is available"),
        "and never reports a saturated reserve as a measurement: {msg}"
    );
}

/// The other zero. A model that WOULD fit on an idle machine, refused
/// because the reserve is currently wider than free memory -- which is a
/// thing that changes in a minute, and the message should say which of
/// the two situations the reader is in.
#[test]
fn a_reserve_wider_than_free_memory_names_the_reserve_not_an_empty_machine() {
    const GB: u64 = 1024 * 1024 * 1024;
    let f = assess(4 * GB, &priced(4 * GB), &machine(7 * GB), 500 * GB, 8 * GB);
    assert_eq!(f.verdict, Verdict::FitsDiskOnly);
    assert!(!f.beyond_machine(), "4 GiB fits in 24 GiB; the machine is not the wall");
    assert_eq!(f.free_memory_bytes, 0);
    let msg = f.message();
    assert!(msg.contains("reserve"), "{msg}");
    assert!(msg.contains("7.0G free"), "the free memory survives the saturation: {msg}");
}

/// Memory and disk are separate ledgers, and a caller that priced no
/// target directory is asking about exactly one of them.
#[test]
fn memory_ok_answers_for_memory_alone() {
    const GB: u64 = 1024 * 1024 * 1024;
    // No disk priced at all: `NoDisk`, and memory still said yes.
    let f = assess(4 * GB, &priced(4 * GB), &machine(20 * GB), 0, 0);
    assert_eq!(f.verdict, Verdict::NoDisk);
    assert!(f.memory_ok());
    let f = assess(4 * GB, &priced(30 * GB), &machine(20 * GB), 0, 0);
    assert!(!f.memory_ok());
}

/// A pull can only ever be priced on the published file size -- see
/// `run::price_build` -- and `decide` will not admit a load on one at all.
/// So "fits" here has to say which ledger it is speaking about and on what
/// basis, or it reads as a promise the loader will not keep.
#[test]
fn a_fitting_pull_reports_both_ledgers_and_badges_a_declared_floor() {
    let mut e = priced(11_000);
    e.basis = Basis::Declared;
    let f = assess(8_000, &e, &machine(20_000), 100_000, 0);
    let m = f.message();
    assert!(m.contains("free on disk"), "{m}");
    assert!(m.contains("headroom"), "the memory half is stated too: {m}");
    assert!(m.contains("declared floor"), "and the basis is badged: {m}");
}

fn json(s: &str) -> Json {
    Json::read(s).unwrap()
}

#[test]
fn only_loadable_files_are_listed() {
    let r = repo_from_json(&json(
        r#"{"id":"x/y","siblings":[
             {"rfilename":"README.md"},
             {"rfilename":"tokenizer.json"},
             {"rfilename":"model.q4_k_m.gguf","size":8192}
           ]}"#,
    ))
    .unwrap();
    assert_eq!(r.files.len(), 1, "a repo is mostly not weights");
    assert_eq!(r.files[0].bits, Some(4));
    assert_eq!(r.files[0].size_bytes, Some(8192));
}

#[test]
fn a_size_that_was_not_published_is_none_and_not_zero() {
    // A missing size and a zero-byte file admit very differently.
    let r = repo_from_json(&json(
        r#"{"id":"x/y","siblings":[{"rfilename":"m.gguf"}]}"#,
    ))
    .unwrap();
    assert_eq!(r.files[0].size_bytes, None);
}

#[test]
fn an_lfs_size_is_read_where_the_plain_one_is_absent() {
    let r = repo_from_json(&json(
        r#"{"id":"x/y","siblings":[{"rfilename":"m.gguf","lfs":{"size":999}}]}"#,
    ))
    .unwrap();
    assert_eq!(r.files[0].size_bytes, Some(999));
}

#[test]
fn a_bf16_only_repo_is_shown_and_marked_rather_than_hidden() {
    let r = repo_from_json(&json(
        r#"{"id":"x/y","siblings":[{"rfilename":"model.safetensors","size":1}]}"#,
    ))
    .unwrap();
    assert!(r.needs_conversion(), "it exists; harmony just cannot use it yet");
    assert!(!r.has_loadable_build());
}

#[test]
fn a_base_model_published_as_a_list_is_read_like_a_string() {
    // Verified live 2026-09-11: `unsloth/Qwen3.8-27B-GGUF` publishes
    // `["Qwen/Qwen3.8-27B"]`. Reading only the string form reported every
    // such repo as declaring nothing, which is noise on the careful ones.
    let r = repo_from_json(&json(
        r#"{"id":"x/y","cardData":{"base_model":["Qwen/Qwen3.8-27B"]},"siblings":[]}"#,
    ))
    .unwrap();
    assert_eq!(r.base_model.as_deref(), Some("Qwen/Qwen3.8-27B"));
}

#[test]
fn the_declared_base_model_is_read_from_the_card() {
    let r = repo_from_json(&json(
        r#"{"id":"x/y","cardData":{"base_model":"Qwen/Qwen3-14B"},"siblings":[]}"#,
    ))
    .unwrap();
    assert_eq!(r.base_model.as_deref(), Some("Qwen/Qwen3-14B"));
}

#[test]
fn a_query_with_spaces_and_slashes_survives_the_url() {
    assert_eq!(urlencode("qwen3 14b/gguf"), "qwen3+14b%2Fgguf");
}

#[test]
fn a_gguf_goes_to_the_store_of_the_provider_that_will_serve_it() {
    assert_eq!(store_for(ProviderKind::LmStudio, Format::Gguf), Some(Store::LmStudio));
    assert_eq!(store_for(ProviderKind::LlamaCpp, Format::Gguf), Some(Store::LlamaCpp));
    // Same bytes, different store. This is the whole point of the module.
    assert_ne!(
        store_for(ProviderKind::LmStudio, Format::Gguf),
        store_for(ProviderKind::LlamaCpp, Format::Gguf)
    );
}

#[test]
fn ollama_takes_no_loose_files() {
    // Its store is a digest-keyed blob database, so a file written into it
    // is a file nothing will ever load.
    assert_eq!(store_for(ProviderKind::Ollama, Format::Gguf), None);
}

#[test]
fn a_format_no_provider_here_can_load_has_nowhere_to_go() {
    assert_eq!(store_for(ProviderKind::LmStudio, Format::Safetensors(Quant::Bf16)), None);
}

#[test]
fn a_repo_id_becomes_its_directory_and_cannot_escape_the_store() {
    let d = directory_for(Store::LmStudio, "../../etc/passwd", Some("/Users/x")).expect("a root");
    assert!(!d.contains(".."), "{d:?}");
    assert!(d.ends_with("etc/passwd"), "the segments survive, the escape does not: {d:?}");
}

#[test]
fn a_publisher_prefix_is_not_a_mismatch() {
    // The common honest case: TheBloke builds Qwen's model and says so.
    assert!(matches!(
        check(Some("Qwen/Qwen3-14B"), Some("Qwen3-14B-GGUF")),
        Finding::Declared { .. }
    ));
}

#[test]
fn a_near_identical_name_is_still_a_mismatch() {
    // One character of version apart.
    let f = check(Some("Qwen/Qwen2.5-14B"), Some("qwen3-14b"));
    assert!(matches!(f, Finding::Mismatch { .. }), "{f:?}");
    assert!(f.message().contains("Qwen2.5-14B"), "both names are named");
    assert!(f.message().contains("qwen3-14b"));
}

#[test]
fn a_declaration_with_nothing_to_compare_it_to_is_a_fact_not_a_warning() {
    // Browsing: the user typed a query, not a model id. A GGUF repo
    // declaring its upstream base is the system working, and calling that
    // a mismatch warned on every careful repo while staying quiet on the
    // careless ones.
    let f = check(Some("Qwen/Qwen3.8-27B"), None);
    assert!(matches!(f, Finding::Declared { .. }), "{f:?}");
    assert!(!f.is_warning());
}

#[test]
fn declaring_nothing_warns_rather_than_passing() {
    let f = check(None, Some("qwen3-14b"));
    assert!(f.is_warning());
    assert!(f.message().contains("no base_model"));
    // And still warns while browsing, where there is no expected name.
    assert!(check(None, None).is_warning());
}

#[test]
fn an_empty_declaration_is_the_same_as_none() {
    assert_eq!(check(Some("  "), Some("m")), check(None, Some("m")));
}

/// What a repo declares of its own quantisation decides what is inside.
#[test]
fn a_declared_quantisation_is_not_taken_for_bf16() {
    let r = repo_from_json(&json(
        r#"{"id":"x/y","config":{"quantization_config":{"quant_method":"awq"}},
            "siblings":[{"rfilename":"model.safetensors","size":1}]}"#,
    ))
    .unwrap();
    assert_eq!(r.files[0].format, Format::Safetensors(Quant::Awq));
}

#[test]
fn a_repo_without_an_id_is_no_repo() {
    assert!(repo_from_json(&json(r#"{"siblings":[]}"#)).is_none());
    match repo("x/y", &json("[]")) {
        Err(ProbeError::Malformed { reason }) => {
            assert_eq!(reason, "`x/y` did not come back as a model");
        }
        r => panic!("{r:?}"),
    }
}

#[test]
fn a_search_lists_the_ids_it_found() {
    let ids = search_ids(&json(r#"[{"id":"a/b"},{"name":"c"},{"id":"d/e"}]"#));
    assert_eq!(ids, vec!["a/b", "d/e"]);
    assert!(search_ids(&json("{}")).is_empty());
}

#[test]
fn the_urls_carry_what_was_asked_for() {
    assert_eq!(repo_url("x/y"), "https://huggingface.co/api/models/x/y?blobs=true");
    assert_eq!(search_url("a b", 3), "https://huggingface.co/api/models?search=a+b&limit=3");
    assert_eq!(search_url("\u{e9}", 0), "https://huggingface.co/api/models?search=%C3%A9&limit=1");
    assert!(search_url("a", 900).ends_with("&limit=50"));
    assert_eq!(
        download_url("x/y", "m.gguf"),
        "https://huggingface.co/x/y/resolve/main/m.gguf?download=true"
    );
}

#[test]
fn a_transfer_reports_every_eight_mebibytes_and_checks_the_end() {
    let mut t = Transfer::new();
    assert_eq!(t.advance(REPORT_EVERY_BYTES - 1), None);
    assert_eq!(t.advance(1), Some(REPORT_EVERY_BYTES));
    assert_eq!(t.advance(5), None);
    assert!(t.finish(Some(REPORT_EVERY_BYTES + 5)).is_ok());
    assert!(t.finish(None).is_ok());
    assert_eq!(t.finish(Some(1)).unwrap_err(), "expected 1 bytes, got 8388613");
    assert_eq!(part_name("m.gguf"), "m.gguf.part");
}
