//! The file that describes an agent.
use vstd::prelude::*;

use crate::config::ProviderConfig;
use crate::paths::{join, under};
use crate::provider::kind_text;
use crate::text::{cat2, cat3, cat7, opt_text, replace, replaced};

verus! {

/// A text as it stands in XML.
pub open spec fn escaped(s: Seq<char>) -> Seq<char> {
    replaced(replaced(replaced(s, "&"@, "&amp;"@), "<"@, "&lt;"@), ">"@, "&gt;"@)
}

/// A text as it stands in XML.
pub fn escape(s: &str) -> (r: String)
    ensures
        r@ == escaped(s@),
{
    proof {
        reveal_strlit("&");
        reveal_strlit("<");
        reveal_strlit(">");
    }
    let a = replace(s, "&", "&amp;");
    let b = replace(a.as_str(), "<", "&lt;");
    replace(b.as_str(), ">", "&gt;")
}

/// What the logs of an agent start with.
pub open spec fn log_text(label: Seq<char>, home: Option<Seq<char>>) -> Seq<char> {
    match home {
        Some(h) => h + "/.local/state/llm-harmony/"@ + label,
        None => "/tmp/"@ + label,
    }
}

fn log_stem(label: &str, home: Option<&str>) -> (r: String)
    ensures
        r@ == log_text(label@, crate::intake::provenance::named(home)),
{
    match home {
        Some(h) => cat3(h, "/.local/state/llm-harmony/", label),
        None => cat2("/tmp/", label),
    }
}

/// An agent that runs a command.
///
/// Run through a shell: the command is what the user would type. Kept alive
/// unconditionally, because a server that is killed may exit cleanly, and a
/// deliberate stop removes the agent altogether; throttled, because a command
/// that is simply wrong would otherwise be run again as fast as can be. The
/// `PATH` is the one it was installed with.
pub open spec fn agent_text(
    label: Seq<char>,
    command: Seq<char>,
    path_env: Seq<char>,
    log: Seq<char>,
) -> Seq<char> {
    let head = "<?xml version=\"1.0\" encoding=\"UTF-8\"?>\n<!DOCTYPE plist PUBLIC \"-//Apple//DTD PLIST 1.0//EN\" \"http://www.apple.com/DTDs/PropertyList-1.0.dtd\">\n<plist version=\"1.0\">\n<dict>\n  <key>Label</key><string>"@
        + label
        + "</string>\n  <key>ProgramArguments</key>\n  <array>\n    <string>/bin/sh</string>\n    <string>-lc</string>\n    <string>"@
        + command
        + "</string>\n  </array>\n  <key>EnvironmentVariables</key>\n  <dict><key>PATH</key><string>"@
        + path_env
        + "</string></dict>\n  <key>KeepAlive</key><true/>\n  <key>ThrottleInterval</key><integer>10</integer>\n  <key>RunAtLoad</key><true/>\n  <key>StandardOutPath</key><string>"@;
    head + log + ".out.log</string>\n  <key>StandardErrorPath</key><string>"@ + log
        + ".err.log</string>\n</dict>\n</plist>\n"@
}

/// The agent that runs a provider's declared command.
pub fn for_provider(p: &ProviderConfig, path_env: &str, home: Option<&str>) -> (r: Result<
    String,
    String,
>)
    ensures
        match (p.start, r) {
            (Some(command), Ok(xml)) => xml@ == agent_text(
                escaped(p.label_text()),
                escaped(command@),
                escaped(path_env@),
                escaped(log_text(p.label_text(), crate::intake::provenance::named(home))),
            ),
            (None, Err(e)) => e@ == kind_text(p.kind)
                + " declares no `start` command; add one to config to start it"@,
            _ => false,
        },
{
    let command = match &p.start {
        Some(c) => c,
        None => {
            return Err(
                cat2(
                    p.kind.as_str(),
                    " declares no `start` command; add one to config to start it",
                ),
            );
        },
    };
    let label = p.label();
    let log = escape(log_stem(label.as_str(), home).as_str());
    let head = cat7(
        "<?xml version=\"1.0\" encoding=\"UTF-8\"?>\n<!DOCTYPE plist PUBLIC \"-//Apple//DTD PLIST 1.0//EN\" \"http://www.apple.com/DTDs/PropertyList-1.0.dtd\">\n<plist version=\"1.0\">\n<dict>\n  <key>Label</key><string>",
        escape(label.as_str()).as_str(),
        "</string>\n  <key>ProgramArguments</key>\n  <array>\n    <string>/bin/sh</string>\n    <string>-lc</string>\n    <string>",
        escape(command.as_str()).as_str(),
        "</string>\n  </array>\n  <key>EnvironmentVariables</key>\n  <dict><key>PATH</key><string>",
        escape(path_env).as_str(),
        "</string></dict>\n  <key>KeepAlive</key><true/>\n  <key>ThrottleInterval</key><integer>10</integer>\n  <key>RunAtLoad</key><true/>\n  <key>StandardOutPath</key><string>",
    );
    Ok(
        crate::text::cat5(
            head.as_str(),
            log.as_str(),
            ".out.log</string>\n  <key>StandardErrorPath</key><string>",
            log.as_str(),
            ".err.log</string>\n</dict>\n</plist>\n",
        ),
    )
}

/// `~/Library/LaunchAgents/<label>.plist`
pub fn path(label: &str, home: Option<&str>) -> (r: Option<String>)
    ensures
        opt_text(r) == match home {
            Some(h) => Some(under(under(h@, "Library/LaunchAgents"@), label@ + ".plist"@)),
            None => None,
        },
{
    match home {
        Some(h) => Some(
            join(join(h, "Library/LaunchAgents").as_str(), cat2(label, ".plist").as_str()),
        ),
        None => None,
    }
}

} // verus!
