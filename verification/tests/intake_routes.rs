//! Other builds, conversions, and where a model could go.
use llm_harmony::actuate::plan::Plan;
use llm_harmony::actuate::run::{after_plan, Next, Status};
use llm_harmony::adapters::lmstudio::{run_outcome, RunEnd};
use llm_harmony::adapters::ollama::{warm_up_body, Ollama, Stay};
use llm_harmony::config::{Config, ProviderConfig};
use llm_harmony::document::{fields, flag, list, no_fields, put, whole, word};
use llm_harmony::estimate::estimator::Estimate;
use llm_harmony::intake::convert::{
    build_tag, discover, looked_in, plan, root_for, source_of, Converter, Request, Target,
};
use llm_harmony::intake::destinations;
use llm_harmony::intake::hf::{Repo, RepoFile};
use llm_harmony::intake::siblings;
use llm_harmony::inventory::artifact::{bits_from_name, Format, Quant};
use llm_harmony::document::Doc;
use llm_harmony::json::Json;
use llm_harmony::memory::Machine;
use llm_harmony::paths::{file_name, is_under, join, parent};
use llm_harmony::provider::{ActuateError, ProviderKind};
use llm_harmony::yaml::Yaml;

const GB: u64 = 1024 * 1024 * 1024;

fn repo(id: &str, base: Option<&str>, files: &[(&str, Option<u64>)]) -> Repo {
    Repo {
        id: id.into(),
        downloads: 0,
        likes: 0,
        base_model: base.map(str::to_string),
        quant_method: None,
        files: files
            .iter()
            .map(|(n, s)| RepoFile {
                name: (*n).into(),
                format: Format::from_path_str(n),
                bits: bits_from_name(n),
                size_bytes: *s,
            })
            .collect(),
    }
}

const SERVABLE: [Format; 2] = [Format::Gguf, Format::Mlx];

/// Two ids that name one model are builds of it; the smallest first.
#[test]
fn another_build_of_the_same_model_is_offered() {
    let source = repo("a/Qwen3-14B-FP8", Some("Qwen/Qwen3-14B"), &[("model.safetensors", Some(9))]);
    let found = [
        repo("b/Qwen3-14B-GGUF", None, &[("m-Q8_0.gguf", Some(16)), ("m-Q4_K_M.gguf", Some(8))]),
        repo("c/Qwen3-14B-MLX", None, &[("weights.npz", Some(4))]),
        repo("d/Other-7B-GGUF", None, &[("m-Q4_K_M.gguf", Some(1))]),
        repo("e/Qwen3-14B-GGUF", None, &[("mmproj-f16.gguf", Some(1)), ("m.gguf", None)]),
    ];
    let s = siblings::for_repo(&source, &found, &SERVABLE);
    let named: Vec<(&str, &str, u64)> =
        s.iter().map(|x| (x.repo.as_str(), x.file.as_str(), x.bytes)).collect();
    assert_eq!(
        named,
        vec![("c/Qwen3-14B-MLX", "weights.npz", 4), ("b/Qwen3-14B-GGUF", "m-Q4_K_M.gguf", 8)]
    );
    assert_eq!(s[0].base_model, "Qwen/Qwen3-14B");
}

/// Two fine-tunes of one base are not builds of one model.
#[test]
fn a_common_base_makes_no_siblings() {
    let source = repo("a/Alpha-Tune", Some("Qwen/Qwen3-14B"), &[("model.safetensors", Some(9))]);
    let other = repo("b/Beta-Tune-GGUF", Some("Qwen/Qwen3-14B"), &[("m-Q4_K_M.gguf", Some(8))]);
    assert!(siblings::from_candidates(&source, &[other], &SERVABLE).is_empty());
}

/// A parent and its child are, in either direction.
#[test]
fn a_declared_parent_is_ground_enough() {
    let child = repo("a/Tuned-14B", Some("x/Base-14B"), &[("model.safetensors", Some(9))]);
    let parent = repo("x/Base-14B-GGUF", None, &[("m-Q4_K_M.gguf", Some(8))]);
    let s = siblings::from_candidates(&child, &[parent], &SERVABLE);
    assert_eq!(s[0].base_model, "x/Base-14B");
    let root = repo("x/Base-14B", None, &[("model.safetensors", Some(9))]);
    let tuned = repo("b/Tuned-GGUF", Some("x/Base-14B"), &[("m-Q4_K_M.gguf", Some(8))]);
    assert_eq!(siblings::from_candidates(&root, &[tuned], &SERVABLE).len(), 1);
}

/// A source that loads as it stands has nothing to replace.
#[test]
fn a_repo_that_serves_needs_no_sibling() {
    let source = repo("a/M-GGUF", None, &[("m-Q8_0.gguf", Some(16))]);
    let other = repo("b/M-GGUF", None, &[("m-Q4_K_M.gguf", Some(8))]);
    assert!(siblings::for_repo(&source, &[other], &SERVABLE).is_empty());
}

fn request(target: Target, source: Quant, bits: Option<u8>, converter: Converter) -> Request {
    Request {
        repo: "a/m".into(),
        target,
        source_format: Format::Safetensors(source),
        download_bytes: 10 * GB,
        bits,
        converter,
        free_disk_bytes: 100 * GB,
        out_path: "/out/m".into(),
    }
}

/// The scratch is what makes converting the expensive route.
#[test]
fn a_conversion_is_priced_before_it_is_run() {
    let p = plan(&request(
        Target::Gguf,
        Quant::Fp8,
        Some(8),
        Converter::for_test(Target::Gguf),
    ))
    .unwrap();
    assert_eq!(p.scratch_bytes, 30 * GB);
    assert_eq!(p.total_bytes(), 50 * GB);
    assert_eq!(p.converter_build.as_deref(), Some("b10240"));
    assert_eq!(p.argv[2..], ["--outfile", "/out/m", "--outtype", "q8_0", "--fp8-as-q8"]);
    let b = plan(&request(Target::Mlx, Quant::Bf16, Some(4), Converter::for_test(Target::Mlx)))
        .unwrap();
    assert_eq!(b.scratch_bytes, 0, "already full precision");
    assert_eq!(b.argv[7..], ["--quantize", "--q-bits", "4"]);
}

#[test]
fn a_conversion_is_refused_for_each_of_its_reasons() {
    let gguf = || Converter::for_test(Target::Gguf);
    let why = |r: Request| plan(&r).unwrap_err();
    let mut already = request(Target::Gguf, Quant::Bf16, None, gguf());
    already.source_format = Format::Gguf;
    assert!(why(already).contains("nothing to convert"));
    let unknown = request(Target::Gguf, Quant::Unknown, None, gguf());
    assert!(why(unknown).contains("does not know how to read"));
    let crossed =
        request(Target::Gguf, Quant::Bf16, None, Converter::mismatched_for_test());
    assert!(why(crossed).contains("`master`"));
    let missing = request(Target::Gguf, Quant::Bf16, None, discover("/r", Target::Gguf, false, None));
    assert_eq!(
        why(missing),
        "no gguf converter found; looked in `/r/repo/convert_hf_to_gguf.py`"
    );
    let four = request(Target::Gguf, Quant::Bf16, Some(4), gguf());
    assert!(why(four).contains("llama-quantize"));
    let wrong = request(Target::Mlx, Quant::Bf16, None, gguf());
    assert_eq!(why(wrong), "the llama.cpp converter cannot produce mlx");
    let mut tight = request(Target::Gguf, Quant::Fp8, None, gguf());
    tight.free_disk_bytes = 49 * GB;
    assert!(why(tight).contains("50.0G at once"));
}

/// The converter is found through the provider, not through a search path.
#[test]
fn a_converter_is_found_beside_its_server() {
    let home = Some("/Users/x");
    let mut c = Config::defaults();
    assert_eq!(root_for(&c, Target::Gguf, home), "/Users/x/.llamacpp");
    let mut p = ProviderConfig::at(ProviderKind::LlamaCpp, "http://127.0.0.1:8080".into());
    p.start = Some("$HOME/tools/serve-pool --port 8080".into());
    c.providers = vec![p];
    assert_eq!(root_for(&c, Target::Gguf, home), "/Users/x/tools");
    assert_eq!(looked_in("/r", Target::Mlx), "/r/venv/bin/python");
    let found = discover("/r", Target::Gguf, true, Some("b1".into()));
    assert_eq!(found.build(), Some("b1"));
    assert_eq!(discover("/r", Target::Mlx, true, None).build(), None);
    assert_eq!(Target::Gguf.as_str(), "gguf");
}

#[test]
fn a_sharded_source_is_summed_or_unknown() {
    let whole_repo = repo("a/m", None, &[("a.safetensors", Some(3)), ("b.safetensors", Some(4))]);
    assert_eq!(source_of(&whole_repo), Some((Format::Safetensors(Quant::Bf16), 7)));
    let part = repo("a/m", None, &[("a.safetensors", Some(3)), ("b.safetensors", None)]);
    assert_eq!(source_of(&part), None);
    assert_eq!(source_of(&repo("a/m", None, &[("m.gguf", Some(3))])), None);
}

/// Every provider is reported, the ones that cannot take it with their reason.
#[test]
fn every_provider_says_where_it_would_put_a_model() {
    let m = Machine {
        total_bytes: 24 * GB,
        used_bytes: 4 * GB,
        swap_total_bytes: 0,
        swap_used_bytes: 0,
    };
    let r = repo("a/m", None, &[("m-Q4_K_M.gguf", Some(GB))]);
    let kinds = [ProviderKind::LmStudio, ProviderKind::Vllm, ProviderKind::Ollama];
    let ask = |read: Result<&Repo, &str>| {
        destinations::for_repo(read, &m, "a/m", &kinds, None, Some("/Users/x"), &[9 * GB; 3])
    };
    let doc = ask(Ok(&r));
    assert_eq!(doc.file, "m-Q4_K_M.gguf");
    let oks: Vec<bool> = doc.destinations.iter().map(|d| d.ok).collect();
    assert_eq!(oks, vec![true, false, true]);
    assert!(!doc.destinations[1].reason.is_empty());
    assert_eq!(doc.destinations[2].registry_name.as_deref(), Some("hf.co/a/m:Q4_K_M"));
    assert!(doc.destinations[0].fit.is_some());
    assert_eq!(ask(Err("gone")).refusal.as_deref(), Some("could not read `a/m`: gone"));
    let none = repo("a/m", None, &[("model.safetensors", Some(1))]);
    assert!(ask(Ok(&none)).refusal.unwrap().contains("publishes no build"));
}

/// A request that loads carries a window; one that drops carries nothing.
#[test]
fn a_residency_request_is_shaped_by_its_endpoint() {
    let embeds = Json::read(r#"{"capabilities":["embedding"]}"#).unwrap();
    assert_eq!(Ollama::endpoint(Some(&embeds)), "/api/embed");
    assert_eq!(Ollama::endpoint(None), "/api/generate");
    let sent = |d: Doc| Json::read(&d.line()).unwrap();
    let keep = sent(Ollama::residency_body("/api/generate", "m", Stay::Keep, Some(4096)));
    assert!(matches!(keep.get("prompt"), Some(Json::Text(s)) if s.is_empty()));
    assert!(matches!(keep.get("keep_alive"), Some(Json::Text(s)) if s == "10m"));
    let window = keep.get("options").and_then(|o| o.get("num_ctx"));
    assert!(matches!(window, Some(Json::Number { unsigned: Some(4096), .. })));
    let drop = sent(Ollama::residency_body("/api/embed", "m", Stay::Drop, None));
    assert!(drop.get("input").is_some() && drop.get("options").is_none());
    assert!(matches!(drop.get("keep_alive"), Some(Json::Number { unsigned: Some(0), .. })));
    assert_eq!(Ollama::show_body("m").line(), r#"{"model":"m"}"#);
    let warm = sent(warm_up_body("m"));
    assert!(matches!(warm.get("max_tokens"), Some(Json::Number { unsigned: Some(1), .. })));
}

#[test]
fn a_command_that_failed_says_how() {
    let argv = vec!["lms".to_string(), "load".to_string()];
    let why = |end: RunEnd| match run_outcome(&argv, &end) {
        Err(ActuateError::Failed { reason }) => reason,
        r => panic!("{r:?}"),
    };
    assert!(run_outcome(&argv, &RunEnd::Succeeded).is_ok());
    let exited = RunEnd::Exited { code: Some(2), stderr: " no such model\n".into() };
    assert_eq!(why(exited), "`lms load` exited 2: no such model");
    let killed = RunEnd::Exited { code: None, stderr: String::new() };
    assert_eq!(why(killed), "`lms load` exited -1: ");
    assert!(why(RunEnd::NotFound).contains("not on PATH"));
    assert_eq!(why(RunEnd::Broken { reason: "denied".into() }), "denied");
}

#[test]
fn a_plan_that_settles_itself_is_reported() {
    let there = Plan::AlreadyResident {
        provider: ProviderKind::Ollama,
        model: "m".into(),
        base_url: "http://127.0.0.1:11434".into(),
    };
    match after_plan("load", there, Estimate::unknown(), Machine::zero(), true) {
        Next::Done { report, pin } => {
            assert!(matches!(report.outcome, Status::Ready { resident: true, .. }));
            assert_eq!(pin, Some((ProviderKind::Ollama, "m".to_string())));
        }
        n => panic!("{n:?}"),
    }
    match after_plan("load", Plan::Actions(Vec::new()), Estimate::unknown(), Machine::zero(), true) {
        Next::Execute(a) => assert!(a.is_empty()),
        n => panic!("{n:?}"),
    }
}

/// What is written reads back, on one line or over several.
#[test]
fn a_document_reads_back_as_it_was_built() {
    let mut entries = no_fields();
    put(&mut entries, "b", list(vec![whole(1), flag(true)]));
    put(&mut entries, "a", word("x\ny"));
    let doc = fields(entries);
    assert_eq!(doc.line(), r#"{"a":"x\ny","b":[1,true]}"#);
    assert!(!doc.line().contains('\n'));
    let back: serde_json::Value = serde_json::from_str(&doc.page()).unwrap();
    assert_eq!(back["a"], "x\ny");
    assert!(doc.page().contains("\n  \"b\": [\n"));
}

#[test]
fn a_broken_document_says_why() {
    assert!(Json::read("{").unwrap_err().contains("EOF"));
    assert!(matches!(Json::read("[1]").unwrap(), Json::Array(v) if v.len() == 1));
}

#[test]
fn a_yaml_document_is_walked() {
    let y = Yaml::read("models:\n  - name: q\n").unwrap();
    let models = y.get("models").and_then(|m| m.as_sequence()).unwrap();
    assert_eq!(models[0].get("name").and_then(|n| n.as_str()).map(String::as_str), Some("q"));
    assert!(y.get("other").is_none());
    assert!(Yaml::read("a: [").is_none());
}

#[test]
fn paths_are_taken_apart_by_component() {
    assert!(is_under("/v/q/model.bin", "/v/q"));
    assert!(!is_under("/v/qq/model.bin", "/v/q"), "a component, not a prefix");
    assert_eq!(join("/a", "b"), "/a/b");
    assert_eq!(parent("/a/b").as_deref(), Some("/a"));
    assert_eq!(file_name("/a/b.gguf").as_deref(), Some("b.gguf"));
}

/// A checkout that cannot say its build says none.
#[test]
fn a_build_tag_is_what_git_printed() {
    assert_eq!(build_tag(true, b"b10240\n").as_deref(), Some("b10240"));
    assert_eq!(build_tag(false, b"b10240\n"), None);
    assert_eq!(build_tag(true, b" \n"), None);
    assert_eq!(build_tag(true, b"b\xff\n").as_deref(), Some("b\u{fffd}"));
}

/// A split build is offered whole, at what all its parts weigh.
#[test]
fn a_split_build_is_offered_whole() {
    let source = repo("a/Qwen3-14B-FP8", Some("Qwen/Qwen3-14B"), &[("model.safetensors", Some(9))]);
    let split = |last: Option<u64>| {
        repo(
            "b/Qwen3-14B-GGUF",
            None,
            &[("m-00002-of-00002.gguf", last), ("m-00001-of-00002.gguf", Some(3))],
        )
    };
    let s = siblings::for_repo(&source, &[split(Some(4))], &SERVABLE);
    assert_eq!(s.len(), 1);
    assert_eq!((s[0].file.as_str(), s[0].bytes), ("m-00001-of-00002.gguf (2 parts)", 7));
    assert_eq!(s[0].format, Format::Gguf);
    assert!(siblings::for_repo(&source, &[split(None)], &SERVABLE).is_empty(), "one part unpriced");
    let huge = siblings::for_repo(&source, &[split(Some(u64::MAX))], &SERVABLE);
    assert!(huge.is_empty(), "no total to be priced on");
}

/// One part is never offered for its build, and the lightest build is not the
/// one with the lightest part.
#[test]
fn a_shard_is_no_sibling() {
    let source = repo("a/Qwen3-14B-FP8", Some("Qwen/Qwen3-14B"), &[("model.safetensors", Some(9))]);
    let lone = repo("b/Qwen3-14B-GGUF", None, &[("m-00001-of-00002.gguf", Some(1))]);
    assert!(siblings::for_repo(&source, &[lone], &SERVABLE).is_empty());
    let both = repo(
        "b/Qwen3-14B-GGUF",
        None,
        &[
            ("m-00001-of-00002.gguf", Some(4)),
            ("m-00002-of-00002.gguf", Some(4)),
            ("m-Q4_K_M.gguf", Some(6)),
        ],
    );
    let s = siblings::for_repo(&source, &[both], &SERVABLE);
    assert_eq!((s[0].file.as_str(), s[0].bytes), ("m-Q4_K_M.gguf", 6));
}
