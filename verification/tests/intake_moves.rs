//! Moving the bytes: what is told while it happens, and how it ends.
use llm_harmony::estimate::estimator::{Basis, Estimate};
use llm_harmony::intake::destinations;
use llm_harmony::intake::download::{
    part_name, Command, Download, Event, Progress, Stage, Step, REPORT_EVERY_BYTES,
};
use llm_harmony::intake::hf::{Repo, RepoFile};
use llm_harmony::intake::ollama::{pull_argv, Exit, Pull, Spawn, Updates};
use llm_harmony::intake::run::{builds, plan_add, AddOutcome, Planning};
use llm_harmony::inventory::artifact::{bits_from_name, Format, Provenance};
use llm_harmony::memory::Machine;
use llm_harmony::provider::{ProviderKind, State};
use llm_harmony::resolve::decide::{decide, Decision};
use llm_harmony::resolve::identity::Candidate;

#[test]
fn a_progress_event_is_one_line() {
    let line = Progress::Advanced { bytes_done: 10, bytes_total: Some(100) }.line();
    assert!(!line.contains('\n'), "a reader splits on newlines: {line}");
    let back: serde_json::Value = serde_json::from_str(&line).unwrap();
    assert_eq!(back["event"], "advanced");
    assert_eq!(back["bytes_done"], 10);
}

#[test]
fn every_event_names_its_kind_so_a_reader_can_switch_on_it() {
    for (p, want) in [
        (Progress::Started { file: "m.gguf".into(), bytes_total: None, target: "/s".into() }, "started"),
        (Progress::Finished { file: "m.gguf".into(), bytes_done: 1, path: "/s/m.gguf".into() }, "finished"),
        (Progress::Failed { file: "m.gguf".into(), reason: "boom".into() }, "failed"),
    ] {
        let v: serde_json::Value = serde_json::from_str(&p.line()).unwrap();
        assert_eq!(v["event"], want);
    }
}

/// The fields come in their order, and a text is escaped.
#[test]
fn an_event_is_written_out_exactly() {
    assert_eq!(
        Progress::Started { file: "a\n\"b\"".into(), bytes_total: None, target: "/s".into() }.line(),
        "{\"event\":\"started\",\"file\":\"a\\n\\\"b\\\"\",\"bytes_total\":null,\"target\":\"/s\"}"
    );
    assert_eq!(
        Progress::Advanced { bytes_done: 0, bytes_total: Some(u64::MAX) }.line(),
        "{\"event\":\"advanced\",\"bytes_done\":0,\"bytes_total\":18446744073709551615}"
    );
    assert_eq!(
        Progress::Finished { file: "m".into(), bytes_done: 70, path: "/s/m".into() }.line(),
        "{\"event\":\"finished\",\"file\":\"m\",\"bytes_done\":70,\"path\":\"/s/m\"}"
    );
    assert_eq!(
        Progress::Failed { file: "m".into(), reason: "boom".into() }.line(),
        "{\"event\":\"failed\",\"file\":\"m\",\"reason\":\"boom\"}"
    );
}

fn download() -> Download {
    Download::new("/s".into(), "m.gguf".into(), "/s/m.gguf".into(), format!("/s/{}", part_name("m.gguf")))
}

/// A download whose part has been created.
fn reading(length: Option<&str>) -> Download {
    let mut d = download();
    d.step(Event::Begin);
    d.step(Event::DirectoryMade(Ok(())));
    d.step(Event::Answered(Ok(length.map(str::to_string))));
    d.step(Event::PartCreated(Ok(())));
    d
}

fn given_up(s: Step) -> (String, bool) {
    match s.command {
        Command::GiveUp { reason, discard } => (reason, discard),
        c => panic!("{c:?}"),
    }
}

/// A download from the first step to the last.
#[test]
fn a_download_is_placed_once_it_is_whole() {
    let mut d = download();
    assert!(matches!(d.step(Event::Begin).command, Command::MakeDirectory));
    assert!(matches!(d.step(Event::DirectoryMade(Ok(()))).command, Command::Request));
    let total = REPORT_EVERY_BYTES + 5;
    let s = d.step(Event::Answered(Ok(Some(total.to_string()))));
    assert!(matches!(s.command, Command::CreatePart));
    match s.report {
        Some(Progress::Started { file, bytes_total, target }) => {
            assert_eq!((file.as_str(), bytes_total, target.as_str()), ("m.gguf", Some(total), "/s"));
        }
        r => panic!("{r:?}"),
    }
    assert!(matches!(d.step(Event::PartCreated(Ok(()))).command, Command::Read));
    assert!(matches!(d.step(Event::Read(Ok(5))).command, Command::Write));
    let s = d.step(Event::Written(Ok(())));
    assert!(s.report.is_none() && matches!(s.command, Command::Read));
    assert!(matches!(d.step(Event::Read(Ok(REPORT_EVERY_BYTES))).command, Command::Write));
    let s = d.step(Event::Written(Ok(())));
    assert!(matches!(s.report, Some(Progress::Advanced { bytes_done, .. }) if bytes_done == total));
    assert!(matches!(d.step(Event::Read(Ok(0))).command, Command::Flush));
    assert!(matches!(d.step(Event::Flushed(Ok(()))).command, Command::Place));
    let s = d.step(Event::Placed(Ok(())));
    assert!(matches!(s.command, Command::Done));
    match s.report {
        Some(Progress::Finished { file, bytes_done, path }) => {
            assert_eq!((file.as_str(), bytes_done, path.as_str()), ("m.gguf", total, "/s/m.gguf"));
        }
        r => panic!("{r:?}"),
    }
}

/// A short read is a failed download, and the part goes with it.
#[test]
fn a_short_download_is_never_placed() {
    let mut d = reading(Some("10"));
    d.step(Event::Read(Ok(4)));
    d.step(Event::Written(Ok(())));
    d.step(Event::Read(Ok(0)));
    let (reason, discard) = given_up(d.step(Event::Flushed(Ok(()))));
    assert_eq!((reason.as_str(), discard), ("expected 10 bytes, got 4", true));
}

/// A length that was not told, or that is no number, is not checked against.
#[test]
fn an_unannounced_length_is_unknown() {
    for header in [None, Some(""), Some("12x"), Some("99999999999999999999")] {
        let mut d = reading(header);
        assert_eq!(d.bytes_total, None);
        d.step(Event::Read(Ok(0)));
        assert!(matches!(d.step(Event::Flushed(Ok(()))).command, Command::Place));
    }
}

#[test]
fn every_failure_is_told_and_takes_its_part() {
    let e = || Err("why".to_string());
    let cases: [(Stage, Event, &str, bool); 7] = [
        (Stage::Directory, Event::DirectoryMade(e()), "cannot create /s: why", false),
        (Stage::Reply, Event::Answered(Err("why".into())), "why", false),
        (Stage::Part, Event::PartCreated(e()), "cannot write /s/m.gguf.part: why", false),
        (Stage::Read, Event::Read(Err("why".into())), "transfer failed after 0 bytes: why", true),
        (Stage::Write, Event::Written(e()), "write failed after 0 bytes: why", true),
        (Stage::Flush, Event::Flushed(e()), "could not flush /s/m.gguf.part: why", true),
        (Stage::Place, Event::Placed(e()), "could not place /s/m.gguf: why", true),
    ];
    for (stage, event, reason, discard) in cases {
        let mut d = download();
        d.stage = stage;
        let s = d.step(event);
        assert!(s.report.is_none());
        assert_eq!(given_up(s), (reason.to_string(), discard));
        assert_eq!(d.stage, Stage::Over);
    }
}

/// A stream is cut into updates as it is read.
#[test]
fn a_stream_gives_its_updates_one_by_one() {
    let mut u = Updates::new();
    assert_eq!(u.feed(b'a'), None);
    assert_eq!(u.feed(b'\r').as_deref(), Some("a"));
    assert_eq!(u.feed(b' '), None);
    assert_eq!(u.feed(b'\n'), None, "a blank update says nothing");
    assert_eq!(u.feed(b'b'), None);
    assert_eq!(u.rest().as_deref(), Some("b"));
}

#[test]
fn a_pull_speaks_the_words_of_a_download() {
    let mut p = Pull::new(pull_argv("hf.co/x/y"));
    match p.begun(Spawn::Running) {
        Ok(Progress::Started { file, bytes_total, target }) => {
            assert_eq!((file.as_str(), bytes_total, target.as_str()), ("hf.co/x/y", None, "ollama store"));
        }
        r => panic!("{r:?}"),
    }
    assert!(p.heard("pulling manifest".into()).is_none());
    assert!(matches!(
        p.heard("pulling x: 1 KB/2 KB".into()),
        Some(Progress::Advanced { bytes_done: 1024, bytes_total: Some(2048) })
    ));
    let (report, came_to) = p.ended(Ok(Exit { success: true, code: Some(0) }));
    assert!(came_to.is_ok());
    assert!(matches!(report, Some(Progress::Finished { bytes_done: 0, path, .. }) if path == "hf.co/x/y"));
}

#[test]
fn a_pull_that_fails_says_why() {
    let mut p = Pull::new(pull_argv("hf.co/x/y"));
    assert_eq!(
        p.begun(Spawn::Missing).unwrap_err(),
        "`ollama` is not on PATH; Ollama has no other intake surface"
    );
    assert_eq!(p.begun(Spawn::Failed("denied".into())).unwrap_err(), "denied");
    let (report, came_to) = p.ended(Err("lost".into()));
    assert!(report.is_none());
    assert_eq!(came_to.unwrap_err(), "lost");
    p.heard("Error: gone".into());
    let (report, came_to) = p.ended(Ok(Exit { success: false, code: Some(1) }));
    assert!(matches!(report, Some(Progress::Failed { reason, .. }) if reason == "Error: gone"));
    assert_eq!(came_to.unwrap_err(), "Error: gone");
}

fn repo(files: &[(&str, Option<u64>)]) -> Repo {
    Repo {
        id: "a/m".into(),
        downloads: 0,
        likes: 0,
        base_model: None,
        quant_method: None,
        files: files
            .iter()
            .map(|(n, s)| RepoFile {
                name: (*n).into(),
                format: Format::from_path_str(n),
                bits: bits_from_name(n),
                size_bytes: *s,
            })
            .collect(),
    }
}

/// What is offered is what would be pulled, on every provider.
#[test]
fn an_offer_and_a_pull_agree() {
    let kinds =
        [ProviderKind::LmStudio, ProviderKind::LlamaCpp, ProviderKind::Vllm, ProviderKind::Ollama];
    let m = Machine::zero();
    let repos = [
        repo(&[("m-Q4_K_M.gguf", Some(8))]),
        repo(&[("m-00001-of-00002.gguf", Some(8)), ("m-00002-of-00002.gguf", Some(8))]),
        repo(&[("weights.npz", Some(8))]),
    ];
    for r in &repos {
        for home in [Some("/Users/x"), None] {
            let first = Some(r.files[0].name.as_str());
            for (want, (d, kind)) in [None, first].into_iter().flat_map(|want| {
                let doc =
                    destinations::for_repo(Ok(r), &m, "a/m", &kinds, want, home, &[9, 9, 9, 9]);
                doc.destinations.into_iter().zip(kinds).map(move |x| (want, x))
            }) {
                match plan_add(Ok(r), "a/m", want, kind, home) {
                    Planning::Placed { doc, .. } => {
                        assert!(d.ok);
                        assert_eq!(d.store, doc.store);
                        assert_eq!(d.target_dir, doc.target_dir);
                        assert_eq!(d.registry_name, doc.registry_name);
                    }
                    Planning::Refused(doc) => {
                        assert!(!d.ok);
                        match doc.outcome {
                            AddOutcome::Refused { reason } => assert_eq!(d.reason, reason),
                            o => panic!("{o:?}"),
                        }
                    }
                }
            }
        }
    }
}

/// One part that does not say leaves its build without a size.
#[test]
fn an_unpriced_part_unprices_its_build() {
    let r = repo(&[("m-00001-of-00002.gguf", Some(8)), ("m-00002-of-00002.gguf", None)]);
    let all = builds(&r);
    assert_eq!(all.len(), 1);
    assert_eq!(all[0].bytes, None);
}

fn offer(inferred: bool) -> Candidate {
    Candidate {
        provider: ProviderKind::Ollama,
        provider_model_id: "m:latest".into(),
        url: "http://127.0.0.1:11434".into(),
        state: State::NotLoaded,
        artifact: None,
        provenance: if inferred {
            Provenance::Inferred { basis: "name".into() }
        } else {
            Provenance::Recorded
        },
    }
}

fn measured(bytes: u64) -> Estimate {
    Estimate { bytes: Some(bytes), basis: Basis::Measured, samples: 1, spread_bytes: None }
}

fn room(free: u64) -> Machine {
    Machine { total_bytes: free, used_bytes: 0, swap_total_bytes: 0, swap_used_bytes: 0 }
}

/// A request is sent only where nothing has to make way.
#[test]
fn a_request_displaces_nothing() {
    match decide(&[offer(true)], &measured(4), &room(10), 6) {
        Decision::Ready { base_url, provider_model_id, provider, resident, inferred } => {
            assert_eq!(base_url, "http://127.0.0.1:11434");
            assert_eq!(provider_model_id, "m:latest");
            assert_eq!(provider, "ollama");
            assert!(!resident && inferred);
        }
        d => panic!("{d:?}"),
    }
    match decide(&[offer(false)], &measured(5), &room(10), 6) {
        Decision::Deny { reason, alternatives } => {
            assert!(reason.starts_with("needs "), "{reason}");
            assert!(alternatives.is_empty());
        }
        d => panic!("{d:?}"),
    }
    match decide(&[offer(false)], &Estimate::unknown(), &room(10), 0) {
        Decision::Deny { reason, .. } => assert!(reason.contains("could not be measured"), "{reason}"),
        d => panic!("{d:?}"),
    }
    assert!(matches!(decide(&[], &measured(1), &room(10), 0), Decision::Deny { .. }));
}

/// A loaded offer comes before a recorded one that is not, whatever it costs.
#[test]
fn residency_comes_before_recorded_identity() {
    let mut there = offer(true);
    there.state = State::Loaded;
    match decide(&[offer(false), there.clone()], &Estimate::unknown(), &room(0), 0) {
        Decision::Ready { resident, inferred, .. } => assert!(resident && inferred),
        d => panic!("{d:?}"),
    }
    let mut recorded = offer(false);
    recorded.state = State::Loaded;
    match decide(&[there, recorded], &Estimate::unknown(), &room(0), 0) {
        Decision::Ready { resident, inferred, .. } => assert!(resident && !inferred),
        d => panic!("{d:?}"),
    }
    let mut coming = offer(false);
    coming.state = State::Loading;
    match decide(&[coming], &measured(1), &room(10), 0) {
        Decision::Wait { reason } => assert_eq!(reason, "`m:latest` is loading on ollama"),
        d => panic!("{d:?}"),
    }
}
