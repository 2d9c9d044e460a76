//! The commands that start and stop an agent, and what they come to.
use vstd::prelude::*;

use crate::text::{
    all_digits, cat2, cat4, chars, contains, from_utf8_lossy, has, join, joined, lossy, number,
    split, split_on, strip_prefix, texts, trim, trimmed, after_prefix, value_of,
};

verus! {

/// The domain of a user's graphical session.
pub open spec fn domain(uid: u32) -> Seq<char> {
    "gui/"@ + crate::text::decimal(uid as nat)
}

/// An agent in a user's domain.
pub open spec fn service(uid: u32, label: Seq<char>) -> Seq<char> {
    "gui/"@ + crate::text::decimal(uid as nat) + "/"@ + label
}

fn service_name(uid: u32, label: &str) -> (s: String)
    ensures
        s@ == service(uid, label@),
{
    cat4("gui/", number(uid as u64).as_str(), "/", label)
}

pub fn bootstrap_argv(uid: u32, plist: &str) -> (r: Vec<String>)
    ensures
        texts(r@) == seq!["bootstrap"@, domain(uid), plist@],
{
    let mut out: Vec<String> = Vec::new();
    out.push("bootstrap".to_owned());
    out.push(cat2("gui/", number(uid as u64).as_str()));
    out.push(plist.to_owned());
    proof {
        assert(texts(out@) =~= seq!["bootstrap"@, domain(uid), plist@]);
    }
    out
}

/// `-k` restarts it if already running, which makes starting idempotent.
pub fn kickstart_argv(uid: u32, label: &str) -> (r: Vec<String>)
    ensures
        texts(r@) == seq!["kickstart"@, "-k"@, service(uid, label@)],
{
    let mut out: Vec<String> = Vec::new();
    out.push("kickstart".to_owned());
    out.push("-k".to_owned());
    out.push(service_name(uid, label));
    proof {
        assert(texts(out@) =~= seq!["kickstart"@, "-k"@, service(uid, label@)]);
    }
    out
}

pub fn bootout_argv(uid: u32, label: &str) -> (r: Vec<String>)
    ensures
        texts(r@) == seq!["bootout"@, service(uid, label@)],
{
    let mut out: Vec<String> = Vec::new();
    out.push("bootout".to_owned());
    out.push(service_name(uid, label));
    proof {
        assert(texts(out@) =~= seq!["bootout"@, service(uid, label@)]);
    }
    out
}

pub fn print_argv(uid: u32, label: &str) -> (r: Vec<String>)
    ensures
        texts(r@) == seq!["print"@, service(uid, label@)],
{
    let mut out: Vec<String> = Vec::new();
    out.push("print".to_owned());
    out.push(service_name(uid, label));
    proof {
        assert(texts(out@) =~= seq!["print"@, service(uid, label@)]);
    }
    out
}

/// Why a command failed, in its own words.
pub open spec fn failure_text(args: Seq<Seq<char>>, stderr: Seq<char>) -> Seq<char> {
    "launchctl "@ + joined(args, " "@) + " failed: "@ + trimmed(stderr)
}

/// What a command that ran came to, given what it wrote to its error stream.
pub fn outcome_of(args: &Vec<String>, success: bool, stderr: &str) -> (r: Result<(), String>)
    ensures
        match r {
            Ok(()) => success,
            Err(e) => !success && e@ == failure_text(texts(args@), stderr@),
        },
{
    if success {
        return Ok(());
    }
    Err(
        cat4(
            "launchctl ",
            join(args, " ").as_str(),
            " failed: ",
            trim(stderr).as_str(),
        ),
    )
}

/// What a command that ran came to, given the bytes of its error stream.
pub fn outcome(args: &Vec<String>, success: bool, stderr: &Vec<u8>) -> (r: Result<(), String>)
    ensures
        match r {
            Ok(()) => success,
            Err(e) => !success && e@ == failure_text(texts(args@), lossy(stderr@)),
        },
{
    outcome_of(args, success, from_utf8_lossy(stderr).as_str())
}

/// What starting an agent takes next.
#[derive(Debug)]
pub enum Start {
    Done(Result<(), String>),
    /// launchd has forgotten the agent: load it, then kick it again.
    Load,
}

/// Whether launchd answered that it does not know the agent.
pub open spec fn forgotten(e: Seq<char>) -> bool {
    has(e, "Could not find service"@)
}

/// What follows the first kick of an agent.
///
/// Stopping removes an agent from the domain, so a stop and a start in turn
/// have to load it again. Only that specific absence is recovered from, and
/// only where there is a file to load: any other failure is passed through
/// untouched.
pub fn start(kicked: Result<(), String>, plist: &str, plist_exists: bool) -> (r: Start)
    ensures
        match kicked {
            Ok(()) => r == Start::Done(Ok(())),
            Err(e) => if forgotten(e@) {
                if plist_exists {
                    r == Start::Load
                } else {
                    r matches Start::Done(Err(m)) && m@ == e@ + "; and no agent exists at "@
                        + plist@ + " to load"@
                }
            } else {
                r == Start::Done(Err(e))
            },
        },
{
    match kicked {
        Ok(()) => Start::Done(Ok(())),
        Err(e) => if contains(e.as_str(), "Could not find service") {
            if plist_exists {
                Start::Load
            } else {
                Start::Done(
                    Err(cat4(e.as_str(), "; and no agent exists at ", plist, " to load")),
                )
            }
        } else {
            Start::Done(Err(e))
        },
    }
}

/// A signed decimal number: an optional sign, then at least one digit and
/// nothing else.
pub open spec fn integer(s: Seq<char>) -> Option<int> {
    let negative = s.len() > 0 && s[0] == '-';
    let body = if s.len() > 0 && (s[0] == '-' || s[0] == '+') {
        s.skip(1)
    } else {
        s
    };
    if body.len() > 0 && all_digits(body) {
        Some(
            if negative {
                -(value_of(body) as int)
            } else {
                value_of(body) as int
            },
        )
    } else {
        None
    }
}

/// A number that 32 bits can hold.
pub open spec fn code_in(s: Seq<char>) -> Option<i32> {
    match integer(s) {
        Some(n) => if i32::MIN <= n <= i32::MAX {
            Some(n as i32)
        } else {
            None
        },
        None => None,
    }
}

/// What a line says of the last exit, where it says anything.
pub open spec fn exit_in(line: Seq<char>) -> Option<Seq<char>> {
    after_prefix(trimmed(line), "last exit code = "@)
}

/// What the first line that says anything of the last exit says.
pub open spec fn first_exit(lines: Seq<Seq<char>>) -> Option<Seq<char>>
    decreases lines.len(),
{
    if lines.len() == 0 {
        None
    } else {
        match exit_in(lines[0]) {
            Some(v) => Some(v),
            None => first_exit(lines.drop_first()),
        }
    }
}

/// The last exit status in what launchd prints of an agent.
pub open spec fn exit_code_in(printed: Seq<char>) -> Option<i32> {
    match first_exit(split(printed, '\n')) {
        Some(v) => code_in(trimmed(v)),
        None => None,
    }
}

fn parse_code(s: &str) -> (r: Option<i32>)
    ensures
        r == code_in(s@),
{
    let cs = chars(s);
    let negative = cs.len() > 0 && cs[0] == '-';
    let signed = cs.len() > 0 && (cs[0] == '-' || cs[0] == '+');
    let from: usize = if signed {
        1
    } else {
        0
    };
    let ghost body = s@.skip(from as int);
    proof {
        assert(s@.skip(0) =~= s@);
    }
    if cs.len() == from {
        return None;
    }
    let mut n: i64 = 0;
    let mut over = false;
    let mut i: usize = from;
    proof {
        assert(body.take(0) =~= Seq::empty());
    }
    while i < cs.len()
        invariant
            from <= i <= cs@.len(),
            cs@ == s@,
            body == s@.skip(from as int),
            s@.skip(0) == s@,
            from == (if s@.len() > 0 && (s@[0] == '-' || s@[0] == '+') {
                1int
            } else {
                0
            }),
            0 <= n <= 2147483648,
            forall|k: int| 0 <= k < i - from ==> crate::text::ascii_digit(#[trigger] body[k]),
            !over ==> n == value_of(body.take(i - from)),
            over ==> value_of(body.take(i - from)) > 2147483648,
        decreases cs.len() - i,
    {
        let c = cs[i];
        proof {
            assert(c == body[i - from]);
            assert(body.take(i + 1 - from).drop_last() =~= body.take(i - from));
            assert(body.take(i + 1 - from).last() == c);
        }
        if !crate::text::is_digit(c) {
            proof {
                assert(!all_digits(body));
            }
            return None;
        }
        let d: i64 = (c as u32 - 48) as i64;
        if !over {
            let next: i64 = n * 10 + d;
            if next > 2147483648 {
                over = true;
            } else {
                n = next;
            }
        }
        i += 1;
    }
    proof {
        assert(body.take(i - from) =~= body);
        assert(all_digits(body));
    }
    if over {
        return None;
    }
    if negative {
        let m: i64 = -n;
        Some(m as i32)
    } else if n == 2147483648 {
        None
    } else {
        Some(n as i32)
    }
}

/// The last exit status in what launchd prints of an agent.
pub fn exit_code(printed: &str) -> (r: Option<i32>)
    ensures
        r == exit_code_in(printed@),
{
    let lines = split_on(printed, '\n');
    let ghost all = texts(lines@);
    let mut i: usize = 0;
    proof {
        assert(all.skip(0) =~= all);
    }
    while i < lines.len()
        invariant
            i <= lines@.len(),
            all == texts(lines@),
            all == split(printed@, '\n'),
            first_exit(all) == first_exit(all.skip(i as int)),
        decreases lines.len() - i,
    {
        proof {
            assert(all.skip(i as int)[0] == lines@[i as int]@);
            assert(all.skip(i as int).drop_first() =~= all.skip(i + 1));
        }
        if let Some(v) = strip_prefix(trim(lines[i].as_str()).as_str(), "last exit code = ") {
            return parse_code(trim(v.as_str()).as_str());
        }
        i += 1;
    }
    None
}

/// The agent's last exit status, if launchd knows one, given the bytes it
/// prints of the agent.
///
/// Turns "did not answer" into "your command exited 127".
pub fn last_exit_code(stdout: &Vec<u8>) -> (r: Option<i32>)
    ensures
        r == exit_code_in(lossy(stdout@)),
{
    exit_code(from_utf8_lossy(stdout).as_str())
}

} // verus!
