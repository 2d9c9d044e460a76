//! Watching a load, settling, and putting back what a switch freed.
use llm_harmony::actuate::lock::{turn, LockError, LockHolder, Turn};
use llm_harmony::actuate::plan::{Action, Resident, UnloadReason};
use llm_harmony::actuate::run::{
    plan_unload, restore_hint, settles, unload_status, Command, Ending, Event, Execution, Options,
    Status, UnloadRecord,
};
use llm_harmony::actuate::watchdog::{supervise, Limits, Outcome, Poll};
use llm_harmony::config::Config;
use llm_harmony::memory::Machine;
use llm_harmony::provider::{Actuation, ProviderKind};

const GB: u64 = 1024 * 1024 * 1024;

#[test]
fn settling_gives_up_rather_than_waiting_forever() {
    assert_eq!(settles(false, 30, 30), Some(false));
    assert_eq!(settles(false, 29, 30), None);
}

#[test]
fn settling_returns_as_soon_as_the_condition_holds() {
    assert_eq!(settles(true, 0, 10_000), Some(true));
}

/// The restore line is what replaces a rollback. Without it a failed switch
/// leaves the operator knowing something is gone and not what.
#[test]
fn a_failed_switch_says_how_to_put_back_what_it_unloaded() {
    let unloaded = vec![UnloadRecord {
        provider: ProviderKind::LmStudio,
        model: "qwen3-14b".into(),
        reason: UnloadReason::Named,
    }];
    let hint = restore_hint(&unloaded).unwrap();
    assert!(hint.contains("llm-harmony load qwen3-14b"), "{hint}");
    assert!(hint.contains("--provider lmstudio"), "{hint}");
}

#[test]
fn nothing_unloaded_means_nothing_to_restore() {
    assert!(restore_hint(&[]).is_none());
}

/// A machine sample with `n` GB free and no swap in use.
fn free(n: u64) -> Machine {
    Machine {
        total_bytes: 24 * GB,
        used_bytes: 24 * GB - n * GB,
        swap_total_bytes: 8 * GB,
        swap_used_bytes: 0,
    }
}

/// Plenty free, and `n` GB of swap in use.
fn swap(n: u64) -> Machine {
    Machine { swap_used_bytes: n * GB, ..free(12) }
}

fn limits() -> Limits {
    Limits { floor_bytes: 4 * GB, max_swap_growth_bytes: 2 * GB, poll_ms: 10, timeout_ms: 50 }
}

/// One look per sample, ten milliseconds apart, the last repeated until the
/// time is up; resident from the `resident_at`th look on.
fn looks(samples: &[Machine], resident_at: Option<usize>) -> Vec<Poll> {
    (0..7)
        .map(|i| Poll {
            machine: samples[i.min(samples.len() - 1)],
            resident: resident_at.is_some_and(|n| i + 1 >= n),
            elapsed_ms: 10 * i as u64,
        })
        .collect()
}

fn watched(samples: &[Machine], resident_at: Option<usize>) -> Outcome {
    supervise(&limits(), samples[0].swap_used_bytes, &looks(samples, resident_at))
}

/// The ordinary path: pressure stays fine, residency appears, done.
#[test]
fn a_load_that_stays_within_the_floor_completes() {
    let out = watched(&[free(12), free(11), free(10)], Some(3));
    assert!(matches!(out, Outcome::Loaded { .. }), "{out:?}");
}

/// The case this exists for: free memory crosses the floor mid-load and the
/// load is abandoned rather than completed.
#[test]
fn crossing_the_floor_aborts_the_load() {
    match watched(&[free(12), free(6), free(1)], None) {
        Outcome::Aborted { reason } => assert!(reason.contains("free memory"), "{reason}"),
        o => panic!("{o:?}"),
    }
}

/// Swap growth is the second signal, and on unified memory it is the one that
/// means the machine is already losing.
#[test]
fn swap_growing_during_the_load_aborts_it_even_above_the_floor() {
    match watched(&[swap(0), swap(1), swap(4)], None) {
        Outcome::Aborted { reason } => assert!(reason.contains("swap"), "{reason}"),
        o => panic!("{o:?}"),
    }
}

/// Growth, not level: a machine that was already paging before the load
/// started has not been made worse by it, and aborting on the standing figure
/// would make every load fail on a busy machine.
#[test]
fn swap_already_in_use_before_the_load_is_not_growth() {
    let out = watched(&[swap(6), swap(6), swap(6)], Some(3));
    assert!(matches!(out, Outcome::Loaded { .. }), "{out:?}");
}

/// A provider that never reports residency must not hang the caller.
#[test]
fn a_load_that_never_becomes_resident_times_out() {
    match watched(&[free(12), free(12), free(12), free(12)], None) {
        Outcome::TimedOut => {}
        o => panic!("{o:?}"),
    }
}

/// A finished load is a finished load. Reporting otherwise would leave the
/// ledger disagreeing with the provider's about what is resident.
#[test]
fn residency_is_checked_before_the_pressure_limits() {
    let out = watched(&[free(1)], Some(1));
    assert!(matches!(out, Outcome::Loaded { .. }), "{out:?}");
}

fn unload(model: &str) -> Action {
    Action::Unload {
        provider: ProviderKind::LmStudio,
        model: model.into(),
        reason: UnloadReason::Named,
    }
}

fn load(model: &str) -> Action {
    Action::Load { provider: ProviderKind::LmStudio, model: model.into(), context_tokens: Some(8192) }
}

fn options() -> Options {
    Options { pin_after: true, ..Options::default() }
}

/// A switch from beginning to end: the unload counts once the model was seen
/// gone, and the run is ready once the new one was seen.
#[test]
fn a_switch_runs_from_unload_to_ready() {
    let config = Config::defaults();
    let mut x = Execution::new(vec![unload("a"), load("b")], Some(600), options());
    match x.step(&config, Event::Begin) {
        Command::Unload { provider, model, .. } => {
            assert_eq!(provider, ProviderKind::LmStudio);
            assert_eq!(model, "a");
        }
        c => panic!("{c:?}"),
    }
    assert!(matches!(
        x.step(&config, Event::UnloadReply(Ok(()))),
        Command::AwaitGone { model, .. } if model == "a"
    ));
    assert!(x.unloaded.is_empty(), "not before it was seen gone");
    match x.step(&config, Event::Settled(true)) {
        Command::Load { request, .. } => {
            assert_eq!(request.model, "b");
            assert_eq!(request.context_tokens, Some(8192));
            assert_eq!(request.ttl_seconds, Some(600));
        }
        c => panic!("{c:?}"),
    }
    assert_eq!(x.unloaded.len(), 1);
    match x.step(&config, Event::StartReply(Ok(()))) {
        Command::Supervise { limits, .. } => {
            assert_eq!(limits.floor_bytes, 4 * GB);
            assert_eq!(limits.timeout_ms, 180_000);
        }
        c => panic!("{c:?}"),
    }
    match x.step(&config, Event::Watched { outcome: Outcome::Loaded { took_s: 3 }, elapsed_s: 5 }) {
        Command::Finish(e) => {
            assert!(e.pin && e.record && !e.undo);
            assert!(matches!(e.status, Status::Ready { resident: true, took_s: 5, .. }));
        }
        c => panic!("{c:?}"),
    }
}

/// A reply that claims success is not believed while the model is still listed.
#[test]
fn an_unload_that_did_not_happen_ends_the_run() {
    let config = Config::defaults();
    let mut x = Execution::new(vec![unload("a"), load("b")], None, Options::default());
    x.step(&config, Event::Begin);
    x.step(&config, Event::UnloadReply(Ok(())));
    match x.step(&config, Event::Settled(false)) {
        Command::Finish(Ending { status: Status::Failed { reason, restore }, .. }) => {
            assert_eq!(
                reason,
                "`a` on lmstudio is still resident after the unload reported success"
            );
            assert!(restore.is_none());
        }
        c => panic!("{c:?}"),
    }
}

/// A load that failed behind an unload says how to put the unloaded model back.
#[test]
fn a_failed_load_behind_an_unload_carries_the_restore_line() {
    let config = Config::defaults();
    let mut x = Execution::new(vec![unload("a"), load("b")], None, Options::default());
    x.step(&config, Event::Begin);
    x.step(&config, Event::UnloadReply(Ok(())));
    x.step(&config, Event::Settled(true));
    match x.step(&config, Event::StartReply(Err("no such model".into()))) {
        Command::Finish(Ending { status: Status::Failed { reason, restore }, .. }) => {
            assert_eq!(reason, "no such model");
            assert_eq!(restore.as_deref(), Some("llm-harmony load a --provider lmstudio"));
        }
        c => panic!("{c:?}"),
    }
}

/// An abort is the one ending that is undone.
#[test]
fn an_aborted_load_is_undone() {
    let config = Config::defaults();
    let mut x = Execution::new(vec![load("b")], None, options());
    x.step(&config, Event::Begin);
    x.step(&config, Event::StartReply(Ok(())));
    let outcome = Outcome::Aborted { reason: "free memory".into() };
    match x.step(&config, Event::Watched { outcome, elapsed_s: 1 }) {
        Command::Finish(e) => {
            assert!(e.undo && !e.pin && !e.record);
            assert!(matches!(e.status, Status::Aborted { .. }));
        }
        c => panic!("{c:?}"),
    }
}

/// A run with nothing configured to do it ends as one that had nothing to do,
/// and a confirmed unload that ends that way is a success.
#[test]
fn an_unload_that_is_the_whole_job_is_a_success() {
    let config = Config::defaults();
    let mut x = Execution::new(vec![unload("a")], None, Options::default());
    x.step(&config, Event::Begin);
    x.step(&config, Event::UnloadReply(Ok(())));
    match x.step(&config, Event::Settled(true)) {
        Command::Finish(e) => {
            let s = unload_status(e.status, &x.unloaded, ProviderKind::LmStudio, "a");
            assert!(matches!(s, Status::Ready { resident: false, .. }), "{s:?}");
        }
        c => panic!("{c:?}"),
    }
}

fn here(model: &str, busy: bool, actuation: Actuation) -> Resident {
    Resident {
        provider: ProviderKind::LmStudio,
        model: model.into(),
        estimated_bytes: GB,
        evict_rank: 0,
        busy,
        actuation,
    }
}

#[test]
fn an_unload_is_refused_for_each_of_its_reasons() {
    let absent = plan_unload(&[], "a", None);
    assert_eq!(absent.unwrap_err(), "`a` is not resident");
    let busy = plan_unload(&[here("a", true, Actuation::ModelLevel)], "a", None);
    assert_eq!(busy.unwrap_err(), "`a` has a request in flight");
    let stuck = plan_unload(
        &[here("a", false, Actuation::SelfManaged { ceiling: "max_instances" })],
        "a",
        None,
    );
    assert!(stuck.unwrap_err().contains("llm-harmony stop lmstudio"));
    let elsewhere =
        plan_unload(&[here("a", false, Actuation::ModelLevel)], "a", Some(ProviderKind::Ollama));
    assert!(elsewhere.is_err());
    let fine = plan_unload(&[here("a", false, Actuation::ModelLevel)], "a", None);
    assert!(matches!(fine, Ok(Action::Unload { reason: UnloadReason::Named, .. })));
}

#[test]
fn a_lock_is_tried_until_its_time_is_up() {
    assert_eq!(turn(true, 0, 0), Turn::Held);
    assert_eq!(turn(false, 5, 100), Turn::Wait { ms: 20 });
    assert_eq!(turn(false, 5, 10), Turn::Wait { ms: 10 });
    assert_eq!(turn(false, 100, 100), Turn::GiveUp);
}

#[test]
fn a_held_lock_says_who_holds_it() {
    let holder = LockHolder { pid: 7, verb: "load".into(), started_at: 0 };
    let known = LockError::Busy { holder: Some(holder), waited_s: 3 };
    assert_eq!(known.message(), "another actuation is in progress: load (pid 7), waited 3s");
    let unknown = LockError::Busy { holder: None, waited_s: 3 };
    assert_eq!(unknown.message(), "another actuation is in progress, waited 3s");
    assert_eq!(LockError::Io("denied".into()).message(), "denied");
}

/// What fails behind an unload says how to put the unloaded model back, an
/// unload too.
#[test]
fn a_failed_unload_behind_an_unload_carries_the_restore_line() {
    let config = Config::defaults();
    for (reply, settled) in [(Err("refused".to_string()), None), (Ok(()), Some(false))] {
        let mut x = Execution::new(vec![unload("a"), unload("b")], None, Options::default());
        x.step(&config, Event::Begin);
        x.step(&config, Event::UnloadReply(Ok(())));
        x.step(&config, Event::Settled(true));
        let mut last = x.step(&config, Event::UnloadReply(reply));
        if let Some(gone) = settled {
            last = x.step(&config, Event::Settled(gone));
        }
        match last {
            Command::Finish(Ending { status: Status::Failed { restore, .. }, .. }) => {
                assert_eq!(restore.as_deref(), Some("llm-harmony load a --provider lmstudio"));
            }
            c => panic!("{c:?}"),
        }
    }
}
