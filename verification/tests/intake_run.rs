//! Searching and adding, end to end.
use llm_harmony::estimate::estimator::{Basis, Estimate};
use llm_harmony::intake::fit::{assess, Verdict};
use llm_harmony::intake::hf::{Repo, RepoFile};
use llm_harmony::intake::ollama::{
    keep_line, parsed_progress, pull_argv, pull_failure, quantisation, split_progress,
    transport_for, TAIL_LINES,
};
use llm_harmony::intake::run::{
    admit_add, best_build, builds, placement, plan_add, price_build, search, shard_of, with_format,
    AddOutcome, Planning,
};
use llm_harmony::inventory::artifact::{bits_from_name, Format, Store};
use llm_harmony::memory::Machine;
use llm_harmony::provider::ProviderKind;

fn repo(files: &[(&str, Option<u64>)]) -> Repo {
    Repo {
        id: "pub/model".into(),
        downloads: 0,
        likes: 0,
        base_model: None,
        quant_method: None,
        files: files
            .iter()
            .map(|(n, s)| RepoFile {
                name: (*n).into(),
                format: Format::from_path_str(n),
                bits: bits_from_name(n),
                size_bytes: *s,
            })
            .collect(),
    }
}

/// A build that lands on disk is worth having even where there is no room to
/// load it right now: memory changes from minute to minute. Only a lack of
/// disk, or a size the repo never published, refuses it.
#[test]
fn a_build_that_lands_but_cannot_load_yet_is_planned_with_a_warning() {
    const GB: u64 = 1024 * 1024 * 1024;
    let m = Machine {
        total_bytes: 25_769_803_776,
        used_bytes: 25_769_803_776 - 9 * GB,
        swap_total_bytes: 0,
        swap_used_bytes: 0,
    };
    let e = Estimate {
        bytes: Some(8 * GB),
        basis: Basis::Declared,
        samples: 0,
        spread_bytes: None,
    };
    // 9 GB free, an 8 GB reserve, an 8 GB model: plenty of disk, no
    // headroom.
    let f = assess(8 * GB, &e, &m, 500 * GB, 8 * GB);
    assert_eq!(f.verdict, Verdict::FitsDiskOnly);
    assert!(!f.ok(), "and it is still not a clean fit");
}

#[test]
fn the_smallest_loadable_build_is_the_default() {
    let r = repo(&[("m.q8_0.gguf", Some(16384)), ("m.q4_k_m.gguf", Some(8192))]);
    assert_eq!(best_build(&r).unwrap().label(), "m.q4_k_m.gguf");
}

#[test]
fn the_shard_marker_is_parsed_including_its_of() {
    assert_eq!(
        shard_of("M-UD-Q3_K_XL-00001-of-00003.gguf"),
        Some(("M-UD-Q3_K_XL".to_string(), 3))
    );
    assert_eq!(shard_of("M-Q8_0.gguf"), None);
    // One of one is a whole build that happens to be numbered.
    assert_eq!(shard_of("M-00001-of-00001.gguf"), None);
}

#[test]
fn a_sharded_build_is_one_build_priced_at_its_total() {
    // Found running it: "smallest file" chose shard 7 of 7 of DeepSeek —
    // 3.25 GB, which fit, so a pull started for one seventh of a model.
    let r = repo(&[
        ("M-UD-Q3_K_XL-00001-of-00003.gguf", Some(1_000)),
        ("M-UD-Q3_K_XL-00002-of-00003.gguf", Some(1_000)),
        ("M-UD-Q3_K_XL-00003-of-00003.gguf", Some(1_000)),
        ("M-Q8_0.gguf", Some(2_500)),
    ]);
    let best = best_build(&r).unwrap();
    assert_eq!(best.label(), "M-Q8_0.gguf", "2.5k beats a 3k build, not a 1k shard");
    let sharded = builds(&r).into_iter().find(|b| b.files.len() == 3).unwrap();
    assert_eq!(sharded.bytes, Some(3_000), "the build costs the sum of its parts");
}

#[test]
fn one_unpriced_shard_makes_the_whole_build_unpriced() {
    // Summing what is published would understate the total, and
    // understating is the direction that admits a pull it should not.
    let r = repo(&[
        ("M-00001-of-00002.gguf", Some(1_000)),
        ("M-00002-of-00002.gguf", None),
    ]);
    assert_eq!(builds(&r)[0].bytes, None);
}

#[test]
fn a_bf16_file_is_never_the_default_because_nothing_here_loads_it() {
    let r = repo(&[("model.safetensors", Some(1)), ("m.q4_k_m.gguf", Some(9_000))]);
    assert_eq!(best_build(&r).unwrap().label(), "m.q4_k_m.gguf");
    assert!(best_build(&repo(&[("model.safetensors", Some(1))])).is_none());
}

#[test]
fn an_importance_matrix_is_not_a_build() {
    // 13 MB beside a 9 GB model, and "smallest" chose it. An imatrix is
    // used to make a quantisation, not to serve one.
    let r = repo(&[("imatrix_unsloth.gguf", Some(13_000_000)), ("m.q4_k_m.gguf", Some(9_000_000_000))]);
    assert_eq!(best_build(&r).unwrap().label(), "m.q4_k_m.gguf");
}

#[test]
fn a_projector_is_not_a_build_either() {
    let r = repo(&[("mmproj-model-f16.gguf", Some(600_000_000)), ("m.q4.gguf", Some(9_000_000_000))]);
    assert_eq!(best_build(&r).unwrap().label(), "m.q4.gguf");
}

#[test]
fn an_unsized_build_sorts_last_rather_than_first() {
    // `unwrap_or(0)` here would make every unpriceable file the default.
    let r = repo(&[("a.gguf", None), ("b.gguf", Some(9_000))]);
    assert_eq!(best_build(&r).unwrap().label(), "b.gguf");
}

#[test]
fn a_quantisation_is_read_off_the_end_of_the_file_name() {
    assert_eq!(quantisation("Qwen3.8-4B-Q4_K_M.gguf").as_deref(), Some("Q4_K_M"));
    assert_eq!(quantisation("y-Q8_0.gguf").as_deref(), Some("Q8_0"));
    assert_eq!(quantisation("y-BF16.gguf").as_deref(), Some("BF16"));
}

/// A repo name that itself contains something quant-shaped must not win
/// over the file's own tag, which is always last.
#[test]
fn an_earlier_quant_shaped_word_does_not_win() {
    assert_eq!(quantisation("Qwen3-Q8-Distill-Q4_K_M.gguf").as_deref(), Some("Q4_K_M"));
}

/// Importance-matrix quants are not `Q`-prefixed. Found running it against
/// `unsloth/Qwen3.5-4B-GGUF`, whose smallest build is `UD-IQ2_XXS` — the
/// first reader dropped the tag entirely and would have pulled whatever
/// Ollama defaults to instead of the build that was priced.
#[test]
fn an_importance_matrix_quant_is_recognised() {
    assert_eq!(quantisation("Qwen3.5-4B-IQ2_XXS.gguf").as_deref(), Some("IQ2_XXS"));
}

/// And unsloth's `UD-` prefix is part of the published tag, not part of
/// the model's name.
#[test]
fn an_unsloth_dynamic_quant_keeps_its_prefix() {
    assert_eq!(quantisation("Qwen3.5-4B-UD-IQ2_XXS.gguf").as_deref(), Some("UD-IQ2_XXS"));
    assert_eq!(quantisation("Qwen3.5-4B-UD-Q4_K_XL.gguf").as_deref(), Some("UD-Q4_K_XL"));
}

/// A word that merely starts with Q is not a quantisation.
#[test]
fn a_word_starting_with_q_is_not_a_quantisation() {
    assert_eq!(quantisation("Qwen3-4B.gguf"), None);
}

#[test]
fn a_name_with_no_quantisation_yields_none() {
    assert_eq!(quantisation("model.gguf"), None);
    assert_eq!(quantisation("model.safetensors"), None);
}

#[test]
fn a_transfer_line_becomes_bytes_rather_than_a_percentage() {
    let (done, total) = parsed_progress("pulling 1a2b3c... 50% \u{2595}\u{2588}\u{2588} \u{258f} 1.0 GB/2.0 GB").unwrap();
    assert_eq!(done, 1024 * 1024 * 1024);
    assert_eq!(total, Some(2 * 1024 * 1024 * 1024));
}

#[test]
fn a_line_that_is_not_a_transfer_is_not_progress() {
    assert!(parsed_progress("pulling manifest").is_none());
    assert!(parsed_progress("success").is_none());
}

/// A redrawn bar is many updates, not one long line.
#[test]
fn carriage_returns_split_into_separate_updates() {
    let lines = split_progress(b"a\rb\rc\n");
    assert_eq!(lines, vec!["a", "b", "c"]);
}

/// What double precision makes of a size, to the byte.
#[test]
fn a_size_is_what_a_double_gives() {
    let kib = 1024.0f64;
    let sizes = [
        ("1.5 KB", (1.5 * kib) as u64),
        ("0.1 GB", (0.1 * kib * kib * kib) as u64),
        ("387.3 MB", (387.3 * kib * kib) as u64),
        ("4.07 TiB", (4.07 * kib * kib * kib * kib) as u64),
        (".5 kib", 512),
        ("7. B", 7),
        ("0.0000000000000000001 TB", 0),
        ("123456789012345678.9 B", 123456789012345678.9f64 as u64),
        ("99999999999999999999 B", u64::MAX),
        ("18014398509481985 KB", (18014398509481985.0f64 * kib) as u64),
    ];
    for (text, want) in sizes {
        let line = format!("pulling x: {text}/2.0 GB");
        assert_eq!(parsed_progress(&line).unwrap().0, want, "{text}");
    }
}

#[test]
fn a_transfer_of_unknown_size_still_counts() {
    assert_eq!(parsed_progress("x 1 KB/"), Some((1024, None)));
    assert_eq!(parsed_progress("x 1 KB/s"), Some((1024, None)));
    assert_eq!(parsed_progress("1.2.3 KB/2 KB"), None);
    assert_eq!(parsed_progress("1 QB/2 KB"), None);
    assert_eq!(parsed_progress("no size/2 KB"), None);
}

/// A failed pull is explained by the last thing it said, or else by its end.
#[test]
fn a_failed_pull_is_explained() {
    let argv = pull_argv("hf.co/x/y:Q4_K_M");
    assert_eq!(argv, vec!["ollama", "pull", "hf.co/x/y:Q4_K_M"]);
    let said = vec!["pulling manifest".to_string(), "Error: gone".to_string(), "  ".to_string()];
    assert_eq!(pull_failure(&argv, &said, Some(1)), "Error: gone");
    assert_eq!(
        pull_failure(&argv, &Vec::new(), Some(2)),
        "`ollama pull hf.co/x/y:Q4_K_M` exited 2"
    );
    assert_eq!(
        pull_failure(&argv, &Vec::new(), None),
        "`ollama pull hf.co/x/y:Q4_K_M` exited -1"
    );
}

#[test]
fn a_tail_keeps_the_last_lines() {
    let mut tail = Vec::new();
    for i in 0..20 {
        keep_line(&mut tail, format!("{i}"));
    }
    assert_eq!(tail.len(), TAIL_LINES);
    assert_eq!(tail[0], "8");
    assert_eq!(tail[11], "19");
}

fn machine(free: u64) -> Machine {
    let total = 25_769_803_776u64;
    Machine {
        total_bytes: total,
        used_bytes: total - free,
        swap_total_bytes: 0,
        swap_used_bytes: 0,
    }
}

const HOME: Option<&str> = Some("/Users/x");

/// Every provider but one takes a file drop; Ollama takes a name.
#[test]
fn a_build_is_placed_where_its_provider_will_find_it() {
    let r = repo(&[("m-Q4_K_M.gguf", Some(8_000))]);
    let build = best_build(&r).unwrap();
    let lm = placement(ProviderKind::LmStudio, "pub/model", &build, HOME).unwrap();
    assert_eq!(lm.store, Store::LmStudio);
    assert!(lm.target_dir.unwrap().ends_with("pub/model"));
    assert!(lm.registry_name.is_none());
    let o = placement(ProviderKind::Ollama, "pub/model", &build, HOME).unwrap();
    assert_eq!(o.registry_name.as_deref(), Some("hf.co/pub/model:Q4_K_M"));
    assert!(o.target_dir.is_none());
}

/// Ollama's registry takes one GGUF file, and says why it takes no other.
#[test]
fn a_build_ollama_cannot_pull_says_why() {
    let parts = repo(&[("M-00001-of-00002.gguf", Some(1)), ("M-00002-of-00002.gguf", Some(1))]);
    let e = transport_for("a/b", &builds(&parts)[0]).unwrap_err();
    assert!(e.contains("2-part build"), "{e}");
    let plain = repo(&[("model.gguf", Some(1))]);
    assert_eq!(transport_for("a/b", &builds(&plain)[0]).unwrap(), "hf.co/a/b");
}

/// The whole order: chosen, placed, priced, planned.
#[test]
fn a_pull_is_planned_before_a_byte_moves() {
    let r = repo(&[("m-Q8_0.gguf", Some(16_000)), ("m-Q4_K_M.gguf", Some(8_000))]);
    match plan_add(Ok(&r), "pub/model", None, ProviderKind::LmStudio, HOME) {
        Planning::Placed { doc, build, .. } => {
            assert_eq!(doc.file, "m-Q4_K_M.gguf");
            let done = admit_add(doc, &build, &machine(20_000_000_000), 100_000);
            assert!(matches!(done.outcome, AddOutcome::Planned), "{:?}", done.outcome);
            assert_eq!(done.bytes, Some(8_000));
        }
        p => panic!("{p:?}"),
    }
}

/// Every refusal is made before the download starts.
#[test]
fn a_pull_is_refused_for_each_of_its_reasons() {
    let refused = |p: Planning| match p {
        Planning::Refused(doc) => match doc.outcome {
            AddOutcome::Refused { reason } => reason,
            o => panic!("{o:?}"),
        },
        p => panic!("{p:?}"),
    };
    let r = repo(&[("m-Q4_K_M.gguf", Some(8_000))]);
    let unread = plan_add(Err("timed out"), "pub/model", None, ProviderKind::LmStudio, HOME);
    assert!(refused(unread).contains("timed out"));
    let no_file = plan_add(Ok(&r), "pub/model", Some("zzz.gguf"), ProviderKind::LmStudio, HOME);
    assert_eq!(refused(no_file), "`pub/model` publishes no GGUF or MLX build");
    let nowhere = plan_add(Ok(&r), "pub/model", None, ProviderKind::Vllm, HOME);
    assert!(!refused(nowhere).is_empty());
    let bf16 = repo(&[("model.safetensors", Some(1))]);
    let unusable = plan_add(Ok(&bf16), "pub/model", None, ProviderKind::LmStudio, HOME);
    assert!(!refused(unusable).is_empty());
    match plan_add(Ok(&r), "pub/model", None, ProviderKind::LmStudio, HOME) {
        Planning::Placed { doc, build, .. } => {
            let done = admit_add(doc, &build, &machine(20_000_000_000), 100);
            assert!(matches!(done.outcome, AddOutcome::Refused { .. }), "no disk");
        }
        p => panic!("{p:?}"),
    }
}

/// A search reports every repo, and a format keeps those that publish it.
#[test]
fn a_search_is_filtered_by_the_format_published() {
    let m = machine(20_000_000_000);
    let found = || vec![repo(&[("m-Q4_K_M.gguf", Some(8))]), repo(&[("model.safetensors", Some(8))])];
    let doc = search("model", found(), &m, 100_000);
    assert_eq!(doc.hits.len(), 2);
    assert!(doc.hits[1].needs_conversion);
    assert!(doc.hits[0].fit.is_some() && doc.hits[1].fit.is_none());
    assert_eq!(with_format(doc, "GGUF").hits.len(), 1);
    assert!(price_build(&m, &best_build(&found()[0]).unwrap(), 1).is_some());
}
