//! What each provider is allowed to take, read from wherever that limit
//! actually lives: a command line, an environment, an API, a config file.
//!
//! **The four are not comparable, and there is no total.** One ceiling is in
//! bytes, two are counts, and the fourth provider has no ceiling in either
//! unit. A total would be a confident wrong number.
//!
//! The bias inverts here. Everywhere else an uncertain figure is rounded *up*;
//! over-stating what a provider is allowed to take *under*-states the danger.
//! So a limit in `gb` is read as gibibytes, and an unreadable limit is
//! `Unknown` rather than a default someone hoped for.
use vstd::prelude::*;

use crate::json::{as_double, dig, double_of, field, then_field, tree, Json, Tree};
use crate::provider::ProviderKind;
use crate::render::{bytes_text, human_bytes};
use crate::rounding::{gibibytes, gibibytes_to_bytes, positive};
use crate::seqs::{first_index, lemma_first_index_is};
use crate::text::{
    after_prefix, cat2, cat3, decimal, number, parse_unsigned, same, starts, strip_prefix, texts,
    trim, trimmed, unsigned,
};

verus! {

/// How much a provider may hold, in whichever unit it expresses.
#[derive(Debug, PartialEq, Eq)]
pub enum Ceiling {
    /// A real memory limit. Only vLLM-MLX publishes one.
    Bytes(u64),
    /// A limit on how *many* models, which says nothing about their size.
    Count(u32),
    /// No limit in either unit.
    Unbounded,
    /// The limit exists and cannot be read. Never replaced by a guess.
    Unknown { why: String },
}

impl Clone for Ceiling {
    fn clone(&self) -> (r: Self)
        ensures
            r == *self,
    {
        match self {
            Ceiling::Bytes(b) => Ceiling::Bytes(*b),
            Ceiling::Count(n) => Ceiling::Count(*n),
            Ceiling::Unbounded => Ceiling::Unbounded,
            Ceiling::Unknown { why } => Ceiling::Unknown { why: why.clone() },
        }
    }
}

/// A ceiling and where it was found, so the report can be audited rather than
/// believed.
#[derive(Debug, PartialEq, Eq)]
pub struct Budget {
    pub provider: ProviderKind,
    pub ceiling: Ceiling,
    pub source: String,
}

impl Clone for Budget {
    fn clone(&self) -> (r: Self)
        ensures
            r == *self,
    {
        Budget {
            provider: self.provider,
            ceiling: self.ceiling.clone(),
            source: self.source.clone(),
        }
    }
}

/// Everything that could be read about one provider.
#[derive(Debug)]
pub struct Readings {
    pub running: bool,
    /// The provider process's command line, when it could be read.
    pub argv: Vec<String>,
    /// The provider process's environment, as `KEY=VALUE` strings.
    pub environ: Vec<String>,
    /// vLLM-MLX's `/v1/status` body.
    pub status: Option<Json>,
    /// LM Studio's `http-server-config.json`.
    pub lmstudio_config: Option<String>,
}

impl Default for Readings {
    fn default() -> (r: Self)
        ensures
            !r.running,
            r.argv@.len() == 0,
            r.environ@.len() == 0,
            r.status is None,
            r.lmstudio_config is None,
    {
        Readings {
            running: false,
            argv: Vec::new(),
            environ: Vec::new(),
            status: None,
            lmstudio_config: None,
        }
    }
}

/// A ceiling, in texts.
#[verifier::ext_equal]
pub enum Limit {
    Bytes(u64),
    Count(u32),
    Unbounded,
    Unknown { why: Seq<char> },
}

pub open spec fn limit_of(c: Ceiling) -> Limit {
    match c {
        Ceiling::Bytes(b) => Limit::Bytes(b),
        Ceiling::Count(n) => Limit::Count(n),
        Ceiling::Unbounded => Limit::Unbounded,
        Ceiling::Unknown { why } => Limit::Unknown { why: why@ },
    }
}

/// A count that a text gives in full.
pub open spec fn count_in(s: Seq<char>) -> Option<u32> {
    match unsigned(s) {
        Some(n) => if n <= u32::MAX {
            Some(n as u32)
        } else {
            None
        },
        None => None,
    }
}

fn parse_count(s: &str) -> (r: Option<u32>)
    ensures
        r == count_in(s@),
{
    match parse_unsigned(s, 0xffff_ffff) {
        Some(n) => Some(n as u32),
        None => None,
    }
}

pub open spec fn is_cap_flag(w: Seq<char>) -> bool {
    w == "--models-max"@
}

/// llama.cpp's cap, by its command line. Absent is not zero and not unlimited.
pub open spec fn argv_limit(argv: Seq<Seq<char>>) -> Limit {
    let i = first_index(argv, |w: Seq<char>| is_cap_flag(w));
    if i < argv.len() {
        if i + 1 < argv.len() && count_in(argv[i + 1]) is Some {
            Limit::Count(count_in(argv[i + 1])->0)
        } else {
            Limit::Unknown { why: "--models-max was given without a number"@ }
        }
    } else if argv.len() == 0 {
        Limit::Unknown { why: "the process command line could not be read"@ }
    } else {
        Limit::Unknown { why: "--models-max is not set; llama.cpp's own default applies"@ }
    }
}

/// llama.cpp's router takes its cap on the command line and publishes it
/// nowhere else.
pub fn from_argv(argv: &[String]) -> (c: Ceiling)
    ensures
        limit_of(c) == argv_limit(texts(argv@)),
{
    let ghost words = texts(argv@);
    let ghost p = |w: Seq<char>| is_cap_flag(w);
    let mut i: usize = 0;
    while i < argv.len()
        invariant
            i <= argv@.len(),
            words == texts(argv@),
            p == (|w: Seq<char>| is_cap_flag(w)),
            forall|k: int| 0 <= k < i ==> !p(#[trigger] words[k]),
        decreases argv.len() - i,
    {
        proof {
            assert(words[i as int] == argv@[i as int]@);
        }
        if same(argv[i].as_str(), "--models-max") {
            proof {
                lemma_first_index_is(words, p, i as int);
            }
            if i + 1 < argv.len() {
                proof {
                    assert(words[i + 1] == argv@[i + 1]@);
                }
                if let Some(n) = parse_count(argv[i + 1].as_str()) {
                    return Ceiling::Count(n);
                }
            }
            return Ceiling::Unknown {
                why: "--models-max was given without a number".to_owned(),
            };
        }
        i += 1;
    }
    proof {
        lemma_first_index_is(words, p, words.len() as int);
    }
    if argv.len() == 0 {
        Ceiling::Unknown { why: "the process command line could not be read".to_owned() }
    } else {
        Ceiling::Unknown {
            why: "--models-max is not set; llama.cpp's own default applies".to_owned(),
        }
    }
}

pub open spec fn sets_cap(e: Seq<char>) -> bool {
    starts(e, "OLLAMA_MAX_LOADED_MODELS="@)
}

/// Ollama's cap, by its environment.
pub open spec fn environ_limit(environ: Seq<Seq<char>>) -> Limit {
    if environ.len() == 0 {
        Limit::Unknown { why: "the process environment could not be read"@ }
    } else {
        let i = first_index(environ, |e: Seq<char>| sets_cap(e));
        if i < environ.len() {
            let v = trimmed(after_prefix(environ[i], "OLLAMA_MAX_LOADED_MODELS="@)->0);
            match count_in(v) {
                Some(n) => Limit::Count(n),
                None => Limit::Unknown {
                    why: "OLLAMA_MAX_LOADED_MODELS="@ + v + " is not a number"@,
                },
            }
        } else {
            Limit::Unknown { why: "OLLAMA_MAX_LOADED_MODELS is unset; Ollama's own default applies"@ }
        }
    }
}

/// Ollama's cap is an environment variable. Where it is not set its own default
/// applies, and that default is not published anywhere.
pub fn from_environ(environ: &[String]) -> (c: Ceiling)
    ensures
        limit_of(c) == environ_limit(texts(environ@)),
{
    if environ.len() == 0 {
        return Ceiling::Unknown { why: "the process environment could not be read".to_owned() };
    }
    let ghost all = texts(environ@);
    let ghost p = |e: Seq<char>| sets_cap(e);
    let mut i: usize = 0;
    while i < environ.len()
        invariant
            i <= environ@.len(),
            environ@.len() > 0,
            all == texts(environ@),
            p == (|e: Seq<char>| sets_cap(e)),
            forall|k: int| 0 <= k < i ==> !p(#[trigger] all[k]),
        decreases environ.len() - i,
    {
        proof {
            assert(all[i as int] == environ@[i as int]@);
        }
        if let Some(raw) = strip_prefix(environ[i].as_str(), "OLLAMA_MAX_LOADED_MODELS=") {
            proof {
                lemma_first_index_is(all, p, i as int);
            }
            let v = trim(raw.as_str());
            return match parse_count(v.as_str()) {
                Some(n) => Ceiling::Count(n),
                None => Ceiling::Unknown {
                    why: cat3("OLLAMA_MAX_LOADED_MODELS=", v.as_str(), " is not a number"),
                },
            };
        }
        i += 1;
    }
    proof {
        lemma_first_index_is(all, p, all.len() as int);
    }
    Ceiling::Unknown {
        why: "OLLAMA_MAX_LOADED_MODELS is unset; Ollama's own default applies".to_owned(),
    }
}

/// vLLM-MLX's budget, by its status document: a number above zero is that many
/// gibibytes, any other number is no limit at all.
pub open spec fn status_limit(t: Tree) -> Limit {
    match as_double(then_field(field(t, "model_manager"@), "memory_budget_gb"@)) {
        Some(bits) => if positive(bits) {
            Limit::Bytes(gibibytes(bits))
        } else {
            Limit::Unbounded
        },
        None => Limit::Unknown { why: "memory_budget_gb was not in /v1/status"@ },
    }
}

/// The only byte ceiling any of the four publishes. `gb` is read as **GiB**,
/// the larger reading.
pub fn from_status(status: &Json) -> (c: Ceiling)
    ensures
        limit_of(c) == status_limit(tree(*status)),
{
    match double_of(dig(status.get("model_manager"), "memory_budget_gb")) {
        Some(bits) => if 0 < bits && bits <= 0x7ff0_0000_0000_0000 {
            Ceiling::Bytes(gibibytes_to_bytes(bits))
        } else {
            Ceiling::Unbounded
        },
        None => Ceiling::Unknown { why: "memory_budget_gb was not in /v1/status".to_owned() },
    }
}

/// LM Studio has no ceiling in either unit: whatever its config says, none of
/// it is a cap. The distinction worth keeping is only between having read it
/// and not.
pub fn from_lmstudio_config(config: Option<&str>) -> (c: Ceiling)
    ensures
        limit_of(c) == if config is Some {
            Limit::Unbounded
        } else {
            Limit::Unknown { why: "LM Studio's http-server-config.json could not be read"@ }
        },
{
    match config {
        Some(_) => Ceiling::Unbounded,
        None => Ceiling::Unknown {
            why: "LM Studio's http-server-config.json could not be read".to_owned(),
        },
    }
}

/// What a provider's readings come to, and where it was found.
pub open spec fn budget_limit(kind: ProviderKind, r: Readings) -> (Limit, Seq<char>) {
    if !r.running {
        (Limit::Unknown { why: "not running"@ }, "\u{2014}"@)
    } else {
        match kind {
            ProviderKind::LlamaCpp => (
                argv_limit(texts(r.argv@)),
                "--models-max, from the argv"@,
            ),
            ProviderKind::Ollama => (
                environ_limit(texts(r.environ@)),
                "OLLAMA_MAX_LOADED_MODELS, from the environment"@,
            ),
            ProviderKind::Vllm => match r.status {
                Some(s) => (status_limit(tree(s)), "memory_budget_gb, from /v1/status"@),
                None => (
                    Limit::Unknown { why: "/v1/status did not answer"@ },
                    "/v1/status"@,
                ),
            },
            ProviderKind::LmStudio => (
                if r.lmstudio_config is Some {
                    Limit::Unbounded
                } else {
                    Limit::Unknown {
                        why: "LM Studio's http-server-config.json could not be read"@,
                    }
                },
                "JIT on, idle TTL off"@,
            ),
        }
    }
}

/// The ceiling for one provider, with the source that produced it.
pub fn budget(kind: ProviderKind, r: &Readings) -> (b: Budget)
    ensures
        b.provider == kind,
        (limit_of(b.ceiling), b.source@) == budget_limit(kind, *r),
{
    if !r.running {
        return Budget {
            provider: kind,
            ceiling: Ceiling::Unknown { why: "not running".to_owned() },
            source: "\u{2014}".to_owned(),
        };
    }
    let (ceiling, source) = match kind {
        ProviderKind::LlamaCpp => (
            from_argv(r.argv.as_slice()),
            "--models-max, from the argv".to_owned(),
        ),
        ProviderKind::Ollama => (
            from_environ(r.environ.as_slice()),
            "OLLAMA_MAX_LOADED_MODELS, from the environment".to_owned(),
        ),
        ProviderKind::Vllm => match &r.status {
            Some(s) => (from_status(s), "memory_budget_gb, from /v1/status".to_owned()),
            None => (
                Ceiling::Unknown { why: "/v1/status did not answer".to_owned() },
                "/v1/status".to_owned(),
            ),
        },
        ProviderKind::LmStudio => (
            match &r.lmstudio_config {
                Some(c) => from_lmstudio_config(Some(c.as_str())),
                None => from_lmstudio_config(None),
            },
            "JIT on, idle TTL off".to_owned(),
        ),
    };
    Budget { provider: kind, ceiling, source }
}

/// What could be read of one process: its command line and its environment.
#[derive(Debug)]
pub struct ProcessReading {
    pub argv: Vec<String>,
    pub environ: Vec<String>,
}

/// Whether a process answers for its provider: its command line or its
/// environment yields the ceiling.
pub open spec fn answers(kind: ProviderKind, p: ProcessReading) -> bool {
    match kind {
        ProviderKind::LlamaCpp => argv_limit(texts(p.argv@)) is Count,
        ProviderKind::Ollama => environ_limit(texts(p.environ@)) is Count,
        _ => false,
    }
}

/// Whether anything could be read of a process.
pub open spec fn readable(p: ProcessReading) -> bool {
    p.argv@.len() > 0 || p.environ@.len() > 0
}

/// The process to read a provider's ceiling from: the first that yields one,
/// else the last that could be read.
pub open spec fn decisive(kind: ProviderKind, procs: Seq<ProcessReading>) -> Option<int> {
    let i = first_index(procs, |p: ProcessReading| answers(kind, p));
    if i < procs.len() {
        Some(i)
    } else {
        last_readable(procs)
    }
}

pub open spec fn last_readable(procs: Seq<ProcessReading>) -> Option<int>
    decreases procs.len(),
{
    if procs.len() == 0 {
        None
    } else if readable(procs.last()) {
        Some(procs.len() - 1)
    } else {
        last_readable(procs.drop_last())
    }
}

/// The process to read a provider's ceiling from. A provider can be several
/// processes, so each is tried in turn and the first that yields a ceiling
/// wins. Where none does, the last readable one is kept, so the report can
/// distinguish *the limit is unset* from *the process could not be read*.
pub fn decisive_process(kind: ProviderKind, procs: &[ProcessReading]) -> (r: Option<usize>)
    ensures
        match r {
            Some(i) => i < procs@.len() && decisive(kind, procs@) == Some(i as int),
            None => decisive(kind, procs@) is None,
        },
{
    let ghost p = |x: ProcessReading| answers(kind, x);
    let mut last: Option<usize> = None;
    let mut i: usize = 0;
    while i < procs.len()
        invariant
            i <= procs@.len(),
            p == (|x: ProcessReading| answers(kind, x)),
            forall|k: int| 0 <= k < i ==> !p(#[trigger] procs@[k]),
            match last {
                Some(k) => k < i && last_readable(procs@.take(i as int)) == Some(k as int),
                None => last_readable(procs@.take(i as int)) is None,
            },
        decreases procs.len() - i,
    {
        let x = &procs[i];
        let found: bool = match kind {
            ProviderKind::LlamaCpp => match from_argv(x.argv.as_slice()) {
                Ceiling::Count(_) => true,
                _ => false,
            },
            ProviderKind::Ollama => match from_environ(x.environ.as_slice()) {
                Ceiling::Count(_) => true,
                _ => false,
            },
            _ => false,
        };
        if found {
            proof {
                lemma_first_index_is(procs@, p, i as int);
            }
            return Some(i);
        }
        proof {
            assert(procs@.take(i + 1).drop_last() =~= procs@.take(i as int));
        }
        if x.argv.len() > 0 || x.environ.len() > 0 {
            last = Some(i);
        }
        i += 1;
    }
    proof {
        lemma_first_index_is(procs@, p, procs@.len() as int);
        assert(procs@.take(i as int) =~= procs@);
    }
    last
}

/// How many models a provider may hold at once, when that is known. `None`
/// covers both "unbounded" and "unknown": neither of them refuses anything.
pub fn count_limit(b: &Budget) -> (r: Option<u32>)
    ensures
        r == count_of(*b),
{
    match b.ceiling {
        Ceiling::Count(n) => Some(n),
        _ => None,
    }
}

pub open spec fn count_of(b: Budget) -> Option<u32> {
    match b.ceiling {
        Ceiling::Count(n) => Some(n),
        _ => None,
    }
}

/// What a ceiling is shown as.
pub open spec fn cell_text(l: Limit) -> Seq<char> {
    match l {
        Limit::Bytes(b) => bytes_text(b as nat),
        Limit::Count(n) => if n == 1 {
            "1 model"@
        } else {
            decimal(n as nat) + " models"@
        },
        Limit::Unbounded => "none"@,
        Limit::Unknown { .. } => "?"@,
    }
}

impl Ceiling {
    /// What to print in a table. `?` for unknown.
    pub fn cell(&self) -> (s: String)
        ensures
            s@ == cell_text(limit_of(*self)),
    {
        match self {
            Ceiling::Bytes(b) => human_bytes(*b),
            Ceiling::Count(n) => if *n == 1 {
                "1 model".to_owned()
            } else {
                cat2(number(*n as u64).as_str(), " models")
            },
            Ceiling::Unbounded => "none".to_owned(),
            Ceiling::Unknown { .. } => "?".to_owned(),
        }
    }

    pub fn unit(&self) -> (s: &'static str)
        ensures
            s@ == match *self {
                Ceiling::Bytes(_) => "bytes"@,
                Ceiling::Count(_) => "count"@,
                Ceiling::Unbounded => "\u{2014}"@,
                Ceiling::Unknown { .. } => "\u{2014}"@,
            },
    {
        match self {
            Ceiling::Bytes(_) => "bytes",
            Ceiling::Count(_) => "count",
            Ceiling::Unbounded => "\u{2014}",
            Ceiling::Unknown { .. } => "\u{2014}",
        }
    }
}

/// Whether a word is the first of a command line that is llama.cpp's cap.
pub open spec fn first_cap(argv: Seq<Seq<char>>, i: int) -> bool {
    &&& 0 <= i < argv.len()
    &&& argv[i] == "--models-max"@
    &&& forall|j: int| 0 <= j < i ==> #[trigger] argv[j] != "--models-max"@
}

/// A command line gives a count exactly when a number follows the first cap, and
/// that number; anything else leaves the ceiling unknown, and never a count that
/// nobody wrote.
pub proof fn a_cap_is_the_number_behind_it(argv: Seq<Seq<char>>, i: int)
    ensures
        first_cap(argv, i) && i + 1 < argv.len() && count_in(argv[i + 1]) is Some ==> argv_limit(argv)
            == Limit::Count(count_in(argv[i + 1])->0),
        first_cap(argv, i) && !(i + 1 < argv.len() && count_in(argv[i + 1]) is Some) ==> argv_limit(
            argv,
        ) is Unknown,
        (forall|j: int| 0 <= j < argv.len() ==> #[trigger] argv[j] != "--models-max"@) ==> argv_limit(
            argv,
        ) is Unknown,
{
    let p = |w: Seq<char>| is_cap_flag(w);
    crate::seqs::lemma_first_index(argv, p);
    let f = first_index(argv, p);
    if f < argv.len() {
        assert(p(argv[f]));
        assert(argv[f] == "--models-max"@);
    }
    if first_cap(argv, i) {
        assert(p(argv[i]));
        assert(argv.any(p));
        if f < i {
            assert(argv[f] != "--models-max"@);
        }
    }
}

/// An environment gives a count exactly when the first setting of Ollama's cap
/// is a number, blanks aside, and that number; without a setting, and where it is
/// no number, the ceiling is unknown.
pub proof fn a_setting_is_the_number_it_gives(environ: Seq<Seq<char>>, i: int)
    ensures
        0 <= i < environ.len() && starts(environ[i], "OLLAMA_MAX_LOADED_MODELS="@) && (forall|j: int|
            0 <= j < i ==> !starts(#[trigger] environ[j], "OLLAMA_MAX_LOADED_MODELS="@)) ==> {
            let v = trimmed(after_prefix(environ[i], "OLLAMA_MAX_LOADED_MODELS="@)->0);
            &&& count_in(v) is Some ==> environ_limit(environ) == Limit::Count(count_in(v)->0)
            &&& count_in(v) is None ==> environ_limit(environ) is Unknown
        },
        (forall|j: int|
            0 <= j < environ.len() ==> !starts(#[trigger] environ[j], "OLLAMA_MAX_LOADED_MODELS="@))
            ==> environ_limit(environ) is Unknown,
{
    let p = |e: Seq<char>| sets_cap(e);
    crate::seqs::lemma_first_index(environ, p);
    let f = first_index(environ, p);
    if f < environ.len() {
        assert(p(environ[f]));
        assert(starts(environ[f], "OLLAMA_MAX_LOADED_MODELS="@));
    }
    if 0 <= i < environ.len() && starts(environ[i], "OLLAMA_MAX_LOADED_MODELS="@) && (forall|j: int|
        0 <= j < i ==> !starts(#[trigger] environ[j], "OLLAMA_MAX_LOADED_MODELS="@)) {
        assert(p(environ[i]));
        assert(environ.any(p));
        if f < i {
            assert(!starts(environ[f], "OLLAMA_MAX_LOADED_MODELS="@));
        }
    }
}

/// A provider's ceiling is read where that provider keeps it, and only while it
/// runs: llama.cpp's on its command line, Ollama's in its environment, vLLM's in
/// its status. LM Studio has none, where its configuration could be read. What
/// cannot be read is unknown, and never unbounded.
pub proof fn a_ceiling_is_read_where_it_is_kept(kind: ProviderKind, r: Readings)
    ensures
        !r.running ==> budget_limit(kind, r).0 is Unknown,
        r.running && kind == ProviderKind::LlamaCpp ==> budget_limit(kind, r).0 == argv_limit(
            texts(r.argv@),
        ),
        r.running && kind == ProviderKind::Ollama ==> budget_limit(kind, r).0 == environ_limit(
            texts(r.environ@),
        ),
        r.running && kind == ProviderKind::Vllm && r.status is Some ==> budget_limit(kind, r).0
            == status_limit(tree(r.status->0)),
        r.running && kind == ProviderKind::Vllm && r.status is None ==> budget_limit(
            kind,
            r,
        ).0 is Unknown,
        r.running && kind == ProviderKind::LmStudio ==> (budget_limit(kind, r).0 is Unbounded
            <==> r.lmstudio_config is Some) && (budget_limit(kind, r).0 is Unknown
            <==> r.lmstudio_config is None),
{
}

/// The process a ceiling is read from is the first that gives a count; where
/// none does it is the last that anything could be read of, and none where
/// nothing could.
pub proof fn the_first_process_that_answers_decides(kind: ProviderKind, procs: Seq<ProcessReading>)
    ensures
        match decisive(kind, procs) {
            Some(i) => {
                &&& 0 <= i < procs.len()
                &&& answers(kind, procs[i]) ==> forall|j: int|
                    0 <= j < i ==> !answers(kind, #[trigger] procs[j])
                &&& !answers(kind, procs[i]) ==> {
                    &&& forall|j: int| 0 <= j < procs.len() ==> !answers(kind, #[trigger] procs[j])
                    &&& procs[i].argv@.len() > 0 || procs[i].environ@.len() > 0
                    &&& forall|j: int|
                        i < j < procs.len() ==> (#[trigger] procs[j]).argv@.len() == 0
                            && procs[j].environ@.len() == 0
                }
            },
            None => forall|j: int|
                0 <= j < procs.len() ==> !answers(kind, #[trigger] procs[j]) && procs[j].argv@.len()
                    == 0 && procs[j].environ@.len() == 0,
        },
{
    let p = |x: ProcessReading| answers(kind, x);
    crate::seqs::lemma_first_index(procs, p);
    let f = first_index(procs, p);
    assert forall|j: int| 0 <= j < f implies !answers(kind, #[trigger] procs[j]) by {
        assert(!p(procs[j]));
    }
    if f < procs.len() {
        assert(p(procs[f]));
    } else {
        lemma_last_readable(procs);
    }
}

proof fn lemma_last_readable(procs: Seq<ProcessReading>)
    ensures
        match last_readable(procs) {
            Some(i) => 0 <= i < procs.len() && readable(procs[i]) && forall|j: int|
                i < j < procs.len() ==> !readable(#[trigger] procs[j]),
            None => forall|j: int| 0 <= j < procs.len() ==> !readable(#[trigger] procs[j]),
        },
    decreases procs.len(),
{
    if procs.len() > 0 && !readable(procs.last()) {
        let t = procs.drop_last();
        lemma_last_readable(t);
        assert forall|j: int| 0 <= j < t.len() implies #[trigger] procs[j] == t[j] by {}
        assert(procs[procs.len() - 1] == procs.last());
        if let Some(i) = last_readable(t) {
            assert forall|j: int| i < j < procs.len() implies !readable(#[trigger] procs[j]) by {
                if j < t.len() {
                    assert(!readable(t[j]));
                }
            }
        } else {
            assert forall|j: int| 0 <= j < procs.len() implies !readable(#[trigger] procs[j]) by {
                if j < t.len() {
                    assert(!readable(t[j]));
                }
            }
        }
    }
}

} // verus!
