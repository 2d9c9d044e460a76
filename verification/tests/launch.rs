//! Launchd agents: what is written, run and waited for.
use llm_harmony::config::ProviderConfig;
use llm_harmony::launch::launchctl::{
    bootout_argv, bootstrap_argv, exit_code, kickstart_argv, last_exit_code, outcome, print_argv,
    start, Start,
};
use llm_harmony::launch::plist::{escape, for_provider, path};
use llm_harmony::launch::ready::{wait_for, Wait};
use llm_harmony::provider::ProviderKind;

const HOME: Option<&str> = Some("/Users/x");

fn forgotten() -> String {
    "launchctl kickstart: Could not find service \"x\" in domain".to_string()
}

/// gui/<uid> is the modern domain. `launchctl load` is deprecated and
/// silently does the wrong thing under some session types.
#[test]
fn commands_target_the_gui_domain_of_the_current_user() {
    assert_eq!(
        bootstrap_argv(501, "/x/a.plist"),
        vec!["bootstrap", "gui/501", "/x/a.plist"]
    );
    assert_eq!(
        kickstart_argv(501, "dev.llm-harmony.llamacpp"),
        vec!["kickstart", "-k", "gui/501/dev.llm-harmony.llamacpp"]
    );
    assert_eq!(
        bootout_argv(501, "dev.llm-harmony.llamacpp"),
        vec!["bootout", "gui/501/dev.llm-harmony.llamacpp"]
    );
}

/// The recovery path in `start` only helps when there is a plist to load.
/// Naming the file beats repeating launchctl's own message.
#[test]
fn starting_something_with_no_agent_on_disk_says_which_file_is_missing() {
    match start(Err(forgotten()), "/nonexistent.plist", false) {
        Start::Done(Err(e)) => assert!(e.contains("/nonexistent.plist"), "{e}"),
        s => panic!("there is no such agent: {s:?}"),
    }
}

/// An agent that was booted out is loaded again before it is given up.
#[test]
fn an_agent_that_is_only_unloaded_is_loaded_again() {
    assert!(matches!(start(Err(forgotten()), "/x/a.plist", true), Start::Load));
    match start(Err("denied".into()), "/x/a.plist", true) {
        Start::Done(Err(e)) => assert_eq!(e, "denied", "any other failure is passed through"),
        s => panic!("{s:?}"),
    }
    assert!(matches!(start(Ok(()), "/x/a.plist", true), Start::Done(Ok(()))));
}

#[test]
fn a_failed_command_repeats_what_was_said() {
    let args = bootout_argv(501, "a.b");
    let e = outcome(&args, false, &b"Boot-out failed: 3\n".to_vec()).unwrap_err();
    assert!(e.contains("bootout") && e.contains("Boot-out failed: 3"), "{e}");
    assert!(outcome(&args, true, &Vec::new()).is_ok());
}

#[test]
fn the_last_exit_code_is_read_off_the_print() {
    assert_eq!(print_argv(501, "a.b"), vec!["print", "gui/501/a.b"]);
    let printed = b"a = {\n\tlast exit code = 127\n}".to_vec();
    assert_eq!(last_exit_code(&printed), Some(127));
    assert_eq!(last_exit_code(&b"\xff\xfe".to_vec()), None);
    assert_eq!(exit_code("\tlast exit code = (never exited)"), None);
}

/// Launched is not serving: the wait is over when it answers, or when time is.
#[test]
fn a_wait_ends_with_an_answer_or_with_the_time() {
    let wait = |answered: bool, ms: u64| {
        wait_for(ProviderKind::LlamaCpp, "http://127.0.0.1:8080", answered, ms, 10)
    };
    assert!(matches!(wait(true, 400), Wait::Answered { elapsed_ms: 400 }), "{:?}", wait(true, 400));
    assert!(matches!(wait(false, 400), Wait::Again), "{:?}", wait(false, 400));
    match wait(false, 10_000) {
        Wait::GaveUp { reason } => {
            assert_eq!(reason, "llamacpp did not answer at http://127.0.0.1:8080 within 10s");
        }
        w => panic!("{w:?}"),
    }
}

#[test]
fn an_agent_lies_where_launchd_looks() {
    assert_eq!(
        path("a.b", HOME).as_deref(),
        Some("/Users/x/Library/LaunchAgents/a.b.plist")
    );
    assert_eq!(path("a.b", None), None);
}

#[test]
fn markup_is_escaped_once() {
    assert_eq!(escape("a<b>&lt;"), "a&lt;b&gt;&amp;lt;");
}

fn cfg(start: Option<&str>) -> ProviderConfig {
    ProviderConfig {
        kind: ProviderKind::LlamaCpp,
        url: "http://127.0.0.1:8080".into(),
        start: start.map(str::to_string),
        launchd_label: None,
        kv_dtype_bytes: None,
    }
}

#[test]
fn the_agent_runs_the_declared_command_through_a_shell() {
    let xml = for_provider(&cfg(Some("~/.llamacpp/serve-pool --port 8080")), "/usr/bin", HOME).unwrap();
    assert!(xml.contains("dev.llm-harmony.llamacpp"), "{xml}");
    assert!(xml.contains("/bin/sh"), "a shell, so ~ and flags behave as typed: {xml}");
    assert!(xml.contains("serve-pool --port 8080"), "{xml}");
}

/// Unconditional, because a killed llama-server exits 0 -- it traps
/// SIGTERM and shuts down cleanly. `SuccessfulExit: false` therefore
/// supervises nothing, which is what happened live on 2026-09-09.
/// A deliberate stop is `bootout`, which removes the job outright.
#[test]
fn the_agent_restarts_unconditionally() {
    let xml = for_provider(&cfg(Some("x")), "/usr/bin", HOME).unwrap();
    assert!(xml.contains("<key>KeepAlive</key><true/>"), "{xml}");
    assert!(
        !xml.contains("SuccessfulExit"),
        "a provider that exits 0 when killed would never come back: {xml}"
    );
}

#[test]
fn a_provider_with_no_start_command_cannot_produce_an_agent() {
    assert!(for_provider(&cfg(None), "/usr/bin", HOME).is_err());
}

/// A launchd agent inherits none of the user's PATH. Found live
/// 2026-09-09: serve-pool died with `exec: llama-server: not found`
/// because /opt/homebrew/bin was absent.
#[test]
fn the_agent_carries_the_path_it_was_installed_with() {
    let xml = for_provider(&cfg(Some("serve-pool")), "/opt/homebrew/bin:/usr/bin", HOME).unwrap();
    assert!(xml.contains("EnvironmentVariables"), "{xml}");
    assert!(xml.contains("/opt/homebrew/bin"), "{xml}");
}

/// A start command that exits 127 must not be respawned as fast as
/// launchd can manage it.
#[test]
fn a_failing_command_is_throttled() {
    let xml = for_provider(&cfg(Some("x")), "/usr/bin", HOME).unwrap();
    assert!(xml.contains("ThrottleInterval"), "{xml}");
}

/// A `&` in a path would otherwise produce a plist launchd silently
/// refuses to load.
#[test]
fn the_command_is_escaped_for_xml() {
    let xml = for_provider(&cfg(Some("run --a=1 && echo <ok>")), "/usr/bin", HOME).unwrap();
    assert!(xml.contains("&amp;&amp;"), "{xml}");
    assert!(xml.contains("&lt;ok&gt;"), "{xml}");
    assert!(!xml.contains("&& echo <ok>"), "raw markup leaked: {xml}");
}
