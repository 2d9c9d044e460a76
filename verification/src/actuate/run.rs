//! Carrying out a plan: lock, decide, act, verify, report.
//!
//! The order is the whole safety argument. Every action is confirmed by
//! re-reading the provider rather than by its exit code: an actuation that
//! reports success and changes nothing is the worst failure this could have.
//!
//! What touches a provider happens elsewhere. [`Execution`] says what to do
//! next and is told how it went.
use vstd::prelude::*;

use crate::actuate::plan::{Action, Plan, Resident, UnloadReason};
use crate::actuate::watchdog::{ordinary_limits, Limits, Outcome};
use crate::adapters::{actuation, actuation_of};
use crate::config::{Config, ProviderConfig};
use crate::estimate::estimator::Estimate;
use crate::ledger::{resident_of, Ledger, ProviderRow};
use crate::memory::Machine;
use crate::pins::Pin;
use crate::provider::{kind_text, Actuation, LoadRequest, LoadedModel, ProviderKind};
use crate::render_estimate::DEFAULT_RESERVE_BYTES;
use crate::seqs::{first_index, first_match, lemma_first_index, lemma_first_index_is};
use crate::text::{cat3, cat4, cat5, cat7, contains, has, opt_text, same};

verus! {

#[derive(Debug, Clone, Copy, PartialEq, Eq, Structural)]
pub struct Options {
    pub reserve_bytes: u64,
    /// Overrides the watchdog's abort threshold. Half the reserve by default.
    pub floor_bytes: Option<u64>,
    pub pin_after: bool,
    pub lock_timeout_s: u64,
    pub verify_timeout_s: u64,
}

impl Default for Options {
    fn default() -> (o: Self)
        ensures
            o == (Options {
                reserve_bytes: DEFAULT_RESERVE_BYTES,
                floor_bytes: None,
                pin_after: false,
                lock_timeout_s: 120,
                verify_timeout_s: 20,
            }),
    {
        Options {
            reserve_bytes: DEFAULT_RESERVE_BYTES,
            floor_bytes: None,
            pin_after: false,
            // A load is slow; failing fast here would mean two callers could
            // not queue behind each other at all.
            lock_timeout_s: 120,
            verify_timeout_s: 20,
        }
    }
}

#[derive(Debug)]
pub struct UnloadRecord {
    pub provider: ProviderKind,
    pub model: String,
    pub reason: UnloadReason,
}

impl Clone for UnloadRecord {
    fn clone(&self) -> (r: Self)
        ensures
            r == *self,
    {
        UnloadRecord { provider: self.provider, model: self.model.clone(), reason: self.reason }
    }
}

#[derive(Debug)]
pub enum Status {
    Ready {
        base_url: String,
        provider: ProviderKind,
        provider_model_id: String,
        /// Confirmed by re-reading the provider, never assumed.
        resident: bool,
        took_s: u64,
    },
    Refused { reason: String, pinned_blockers: Vec<String>, alternatives: Vec<String> },
    Failed {
        reason: String,
        /// What to type to put back what was unloaded. There is no rollback by
        /// design; this is legibility, not recovery.
        restore: Option<String>,
    },
    Aborted { reason: String },
}

#[derive(Debug)]
pub struct Report {
    /// This document's own version.
    pub schema: u32,
    pub verb: &'static str,
    pub outcome: Status,
    pub unloaded: Vec<UnloadRecord>,
    pub estimate: Estimate,
    pub free_bytes: u64,
    pub swap_used_bytes: u64,
}

pub const ACTUATE_SCHEMA: u32 = 1;

impl Report {
    pub fn is_success(&self) -> (r: bool)
        ensures
            r == (self.outcome is Ready),
    {
        match self.outcome {
            Status::Ready { .. } => true,
            _ => false,
        }
    }

    /// A report of how a verb ended, beside what the machine looks like now.
    pub fn finish(
        verb: &'static str,
        outcome: Status,
        unloaded: Vec<UnloadRecord>,
        estimate: Estimate,
        machine: Machine,
    ) -> (r: Report)
        ensures
            r == (Report {
                schema: ACTUATE_SCHEMA,
                verb,
                outcome,
                unloaded,
                estimate,
                free_bytes: machine.free() as u64,
                swap_used_bytes: machine.swap_used_bytes,
            }),
    {
        Report {
            schema: ACTUATE_SCHEMA,
            verb,
            outcome,
            unloaded,
            estimate,
            free_bytes: machine.free_bytes(),
            swap_used_bytes: machine.swap_used_bytes,
        }
    }

    /// A report of a verb that failed before it touched anything.
    pub fn failed(verb: &'static str, reason: String, machine: Machine, estimate: Estimate) -> (r:
        Report)
        ensures
            r.schema == ACTUATE_SCHEMA,
            r.verb == verb,
            r.outcome == (Status::Failed { reason, restore: None }),
            r.unloaded@.len() == 0,
            r.estimate == estimate,
            r.free_bytes == machine.free(),
            r.swap_used_bytes == machine.swap_used_bytes,
    {
        Report::finish(
            verb,
            Status::Failed { reason, restore: None },
            Vec::new(),
            estimate,
            machine,
        )
    }
}

/// A model that was observed to be serving a request.
#[derive(Debug)]
pub struct Serving {
    pub provider: ProviderKind,
    pub model: String,
}

/// Whether a model is among those observed to be serving.
pub open spec fn observed_busy(serving: Seq<Serving>, provider: ProviderKind, model: Seq<char>) -> bool {
    exists|i: int|
        0 <= i < serving.len() && (#[trigger] serving[i]).provider == provider
            && serving[i].model@ == model
}

/// What a model is taken to cost: a provider serving exactly one model can have
/// its footprint assigned to that model, and otherwise its weights are all
/// that is known.
pub open spec fn cost_of(row: ProviderRow, m: LoadedModel) -> u64 {
    let weights = match m.weights_bytes {
        Some(b) => b,
        None => 0,
    };
    if resident_of(row.outcome).len() == 1 {
        match row.footprint_bytes {
            Some(b) => b,
            None => weights,
        }
    } else {
        weights
    }
}

/// Whether a planner's view of a resident model is right.
pub open spec fn seen_as(r: Resident, row: ProviderRow, m: LoadedModel, serving: Seq<Serving>) -> bool {
    &&& r.provider == row.kind
    &&& r.model@ == m.id@
    &&& r.estimated_bytes == cost_of(row, m)
    &&& r.evict_rank == match m.expires_at_unix {
        Some(t) => t,
        None => 0,
    }
    &&& r.busy == observed_busy(serving, row.kind, m.id@)
    &&& r.actuation == actuation_of(row.kind)
}

/// Every resident model of a ledger, with the row it stands in.
pub open spec fn all_resident(rows: Seq<ProviderRow>) -> Seq<(ProviderRow, LoadedModel)>
    decreases rows.len(),
{
    if rows.len() == 0 {
        Seq::empty()
    } else {
        all_resident(rows.drop_last()) + resident_of(rows.last().outcome).map_values(
            |m: LoadedModel| (rows.last(), m),
        )
    }
}

fn is_serving(serving: &[Serving], provider: ProviderKind, model: &str) -> (r: bool)
    ensures
        r == observed_busy(serving@, provider, model@),
{
    let mut i: usize = 0;
    while i < serving.len()
        invariant
            i <= serving@.len(),
            forall|j: int|
                0 <= j < i ==> !((#[trigger] serving@[j]).provider == provider
                    && serving@[j].model@ == model@),
        decreases serving.len() - i,
    {
        if serving[i].provider == provider && same(serving[i].model.as_str(), model) {
            return true;
        }
        i += 1;
    }
    false
}

/// Every resident model, as the planner needs to see it. A model that no
/// provider could be asked about is not busy.
pub fn residents(ledger: &Ledger, serving: &[Serving]) -> (out: Vec<Resident>)
    ensures
        out@.len() == all_resident(ledger.rows@).len(),
        forall|i: int|
            0 <= i < out@.len() ==> seen_as(
                #[trigger] out@[i],
                all_resident(ledger.rows@)[i].0,
                all_resident(ledger.rows@)[i].1,
                serving@,
            ),
{
    let ghost rows = ledger.rows@;
    let mut out: Vec<Resident> = Vec::new();
    let mut i: usize = 0;
    while i < ledger.rows.len()
        invariant
            i <= rows.len(),
            rows == ledger.rows@,
            out@.len() == all_resident(rows.take(i as int)).len(),
            forall|k: int|
                0 <= k < out@.len() ==> seen_as(
                    #[trigger] out@[k],
                    all_resident(rows.take(i as int))[k].0,
                    all_resident(rows.take(i as int))[k].1,
                    serving@,
                ),
        decreases ledger.rows.len() - i,
    {
        let row = &ledger.rows[i];
        let ghost before = all_resident(rows.take(i as int));
        let ghost here = resident_of(row.outcome);
        let ghost f = |m: LoadedModel| (*row, m);
        proof {
            assert(rows.take(i + 1).drop_last() =~= rows.take(i as int));
            assert(rows.take(i + 1).last() == *row);
        }
        let loaded = row.loaded();
        let attributable: bool = loaded.len() == 1;
        let mut k: usize = 0;
        while k < loaded.len()
            invariant
                k <= loaded@.len(),
                loaded@.unref() == here,
                here == resident_of(row.outcome),
                attributable == (here.len() == 1),
                f == (|m: LoadedModel| (*row, m)),
                out@.len() == before.len() + k,
                forall|j: int|
                    0 <= j < before.len() ==> seen_as(
                        #[trigger] out@[j],
                        before[j].0,
                        before[j].1,
                        serving@,
                    ),
                forall|j: int|
                    before.len() <= j < out@.len() ==> seen_as(
                        #[trigger] out@[j],
                        *row,
                        here[j - before.len()],
                        serving@,
                    ),
            decreases loaded.len() - k,
        {
            let m = loaded[k];
            proof {
                assert(*m == here[k as int]);
            }
            let weights: u64 = match m.weights_bytes {
                Some(b) => b,
                None => 0,
            };
            let estimated_bytes: u64 = if attributable {
                match row.footprint_bytes {
                    Some(b) => b,
                    None => weights,
                }
            } else {
                weights
            };
            let evict_rank: u64 = match m.expires_at_unix {
                Some(t) => t,
                None => 0,
            };
            out.push(
                Resident {
                    provider: row.kind,
                    model: m.id.clone(),
                    estimated_bytes,
                    evict_rank,
                    busy: is_serving(serving, row.kind, m.id.as_str()),
                    actuation: actuation(row.kind),
                },
            );
            k += 1;
        }
        proof {
            let after = all_resident(rows.take(i + 1));
            assert(after == before + here.map_values(f));
            assert forall|j: int| 0 <= j < out@.len() implies seen_as(
                #[trigger] out@[j],
                after[j].0,
                after[j].1,
                serving@,
            ) by {
                if j >= before.len() {
                    assert(after[j] == f(here[j - before.len()]));
                }
            }
        }
        i += 1;
    }
    proof {
        assert(rows.take(i as int) =~= rows);
    }
    out
}

/// What a plan leads to before anything is touched.
#[derive(Debug)]
pub enum Next {
    /// Nothing is left to do; the model may have to be pinned first.
    Done { report: Report, pin: Option<(ProviderKind, String)> },
    Execute(Vec<Action>),
}

/// Reports what a plan settled by itself, or hands on what it wants done.
pub fn after_plan(
    verb: &'static str,
    decided: Plan,
    estimate: Estimate,
    machine: Machine,
    pin_after: bool,
) -> (n: Next)
    ensures
        match decided {
            Plan::Actions(a) => n == Next::Execute(a),
            Plan::AlreadyResident { provider, model, base_url } => n matches Next::Done {
                report,
                pin,
            } && report.outcome == (Status::Ready {
                base_url,
                provider,
                provider_model_id: model,
                resident: true,
                took_s: 0,
            }) && report.unloaded@.len() == 0 && (if pin_after {
                pin matches Some(p) && p.0 == provider && p.1@ == model@
            } else {
                pin is None
            }),
            Plan::Refused { reason, pinned_blockers, alternatives } => n matches Next::Done {
                report,
                pin,
            } && report.outcome == (Status::Refused { reason, pinned_blockers, alternatives })
                && report.unloaded@.len() == 0 && pin is None,
        },
        n matches Next::Done { report, pin } ==> report.schema == ACTUATE_SCHEMA && report.verb
            == verb && report.estimate == estimate && report.free_bytes == machine.free()
            && report.swap_used_bytes == machine.swap_used_bytes,
{
    match decided {
        Plan::Actions(a) => Next::Execute(a),
        Plan::AlreadyResident { provider, model, base_url } => {
            let pin = if pin_after {
                Some((provider, model.clone()))
            } else {
                None
            };
            Next::Done {
                report: Report::finish(
                    verb,
                    Status::Ready {
                        base_url,
                        provider,
                        provider_model_id: model,
                        resident: true,
                        took_s: 0,
                    },
                    Vec::new(),
                    estimate,
                    machine,
                ),
                pin,
            }
        },
        Plan::Refused { reason, pinned_blockers, alternatives } => Next::Done {
            report: Report::finish(
                verb,
                Status::Refused { reason, pinned_blockers, alternatives },
                Vec::new(),
                estimate,
                machine,
            ),
            pin: None,
        },
    }
}

/// How to put back the first thing that was unloaded.
pub open spec fn restore_text(unloaded: Seq<UnloadRecord>) -> Option<Seq<char>> {
    if unloaded.len() == 0 {
        None
    } else {
        Some(
            "llm-harmony load "@ + unloaded[0].model@ + " --provider "@ + kind_text(
                unloaded[0].provider,
            ),
        )
    }
}

pub fn restore_hint(unloaded: &[UnloadRecord]) -> (r: Option<String>)
    ensures
        opt_text(r) == restore_text(unloaded@),
{
    if unloaded.len() == 0 {
        return None;
    }
    Some(
        cat4(
            "llm-harmony load ",
            unloaded[0].model.as_str(),
            " --provider ",
            unloaded[0].provider.as_str(),
        ),
    )
}

/// A pin set by hand, as of `now`.
pub fn pin_by_hand(provider: ProviderKind, model: &str, now: u64) -> (p: Pin)
    ensures
        p.provider == provider,
        p.model@ == model@,
        p.at == now,
        p.note is None,
        p.owner is None,
        p.expires_at is None,
{
    Pin {
        provider,
        model: model.to_owned(),
        at: now,
        note: None,
        owner: None,
        expires_at: None,
    }
}

/// Whether waiting is over, and how it ended: a condition that holds settles
/// at once, and one that does not is given up on only when the time is up.
pub fn settles(done: bool, elapsed_ms: u64, timeout_ms: u64) -> (r: Option<bool>)
    ensures
        r == if done {
            Some(true)
        } else if elapsed_ms >= timeout_ms {
            Some(false)
        } else {
            None
        },
{
    if done {
        Some(true)
    } else if elapsed_ms >= timeout_ms {
        Some(false)
    } else {
        None
    }
}

/// What there is to do next.
#[derive(Debug)]
pub enum Command {
    /// Ask the provider to drop a model.
    Unload { provider: ProviderKind, url: String, model: String },
    /// Poll until the provider no longer lists the model as loaded, or the
    /// time for it is up.
    AwaitGone { provider: ProviderKind, url: String, model: String },
    /// Ask the provider to load a model.
    Load { provider: ProviderKind, url: String, request: LoadRequest },
    /// Send a provider without a load verb the one request that makes it load.
    WarmUp { provider: ProviderKind, url: String, model: String },
    /// Watch the load under these limits.
    Supervise { provider: ProviderKind, url: String, model: String, limits: Limits },
    /// The run is over.
    Finish(Ending),
}

/// How a run ended, and what is owed for it.
#[derive(Debug)]
pub struct Ending {
    pub status: Status,
    /// A load to undo, where undoing is possible.
    pub undo: bool,
    /// The model is to be pinned.
    pub pin: bool,
    /// What the provider now costs is to be recorded.
    pub record: bool,
}

/// How the last thing that was done went.
#[derive(Debug)]
pub enum Event {
    Begin,
    UnloadReply(Result<(), String>),
    /// Whether the provider stopped listing the model in time.
    Settled(bool),
    StartReply(Result<(), String>),
    Watched { outcome: Outcome, elapsed_s: u64 },
}

/// What a run is waiting for.
#[derive(Debug, Clone, Copy, PartialEq, Eq, Structural)]
pub enum Stage {
    Ready,
    Unloading,
    Settling,
    Starting,
    Watching,
    Done,
}

/// A plan being carried out.
#[derive(Debug)]
pub struct Execution {
    pub actions: Vec<Action>,
    /// The action under way.
    pub at: usize,
    /// Where its provider listens.
    pub url: String,
    pub stage: Stage,
    /// What is confirmed gone.
    pub unloaded: Vec<UnloadRecord>,
    pub ttl_seconds: Option<u64>,
    pub options: Options,
}

pub open spec fn provider_of(a: Action) -> ProviderKind {
    match a {
        Action::Unload { provider, .. } => provider,
        Action::Load { provider, .. } => provider,
    }
}

/// Where a provider listens, if it is configured.
pub open spec fn url_of(config: Config, kind: ProviderKind) -> Option<Seq<char>> {
    match first_match(config.providers@, |p: ProviderConfig| p.kind == kind) {
        Some(p) => Some(p.url@),
        None => None,
    }
}

/// Whether an action's provider is configured.
pub open spec fn doable(config: Config, a: Action) -> bool {
    url_of(config, provider_of(a)) is Some
}

/// The first action at or behind `from` whose provider is configured; the
/// others are passed over.
pub open spec fn next_doable(config: Config, actions: Seq<Action>, from: int) -> int {
    from + first_index(actions.skip(from), |a: Action| doable(config, a))
}

/// The limits a load is watched under.
pub open spec fn limits_of(o: Options) -> Limits {
    Limits {
        floor_bytes: match o.floor_bytes {
            Some(b) => b,
            None => o.reserve_bytes / 2,
        },
        ..ordinary_limits(o.reserve_bytes)
    }
}

/// The command that starts an action.
pub open spec fn starts_action(c: Command, a: Action, url: Seq<char>, ttl: Option<u64>) -> bool {
    match a {
        Action::Unload { provider, model, .. } => c matches Command::Unload {
            provider: p,
            url: u,
            model: m,
        } && p == provider && u@ == url && m@ == model@,
        Action::Load { provider, model, context_tokens } => match actuation_of(provider) {
            Actuation::ModelLevel => c matches Command::Load { provider: p, url: u, request } && p
                == provider && u@ == url && request.model@ == model@ && request.context_tokens
                == context_tokens && request.ttl_seconds == ttl,
            // No load verb: residency happens on first request.
            Actuation::SelfManaged { .. } => c matches Command::WarmUp {
                provider: p,
                url: u,
                model: m,
            } && p == provider && u@ == url && m@ == model@,
        },
    }
}

/// What going on from `from` comes to.
pub open spec fn goes_on(
    config: Config,
    actions: Seq<Action>,
    from: int,
    ttl: Option<u64>,
    at: int,
    url: Seq<char>,
    stage: Stage,
    unloaded: Seq<UnloadRecord>,
    c: Command,
) -> bool {
    let i = next_doable(config, actions, from);
    if i >= actions.len() {
        stage == Stage::Done && failed_with(
            c,
            "the plan contained nothing to do"@,
            restore_text(unloaded),
        )
    } else {
        &&& at == i
        &&& url_of(config, provider_of(actions[i])) == Some(url)
        &&& stage == if actions[i] is Unload {
            Stage::Unloading
        } else {
            Stage::Starting
        }
        &&& starts_action(c, actions[i], url, ttl)
    }
}

impl Execution {
    /// The action under way is the kind the stage is about.
    pub open spec fn valid(self) -> bool {
        match self.stage {
            Stage::Ready | Stage::Done => self.at <= self.actions@.len(),
            Stage::Unloading | Stage::Settling => self.at < self.actions@.len()
                && self.actions@[self.at as int] is Unload,
            Stage::Starting | Stage::Watching => self.at < self.actions@.len()
                && self.actions@[self.at as int] is Load,
        }
    }

    /// Whether an event is the one this stage waits for.
    pub open spec fn expects(self, e: Event) -> bool {
        match self.stage {
            Stage::Ready => e is Begin,
            Stage::Unloading => e is UnloadReply,
            Stage::Settling => e is Settled,
            Stage::Starting => e is StartReply,
            Stage::Watching => e is Watched,
            Stage::Done => false,
        }
    }

    pub fn new(actions: Vec<Action>, ttl_seconds: Option<u64>, options: Options) -> (x: Execution)
        ensures
            x.valid(),
            x.actions == actions,
            x.at == 0,
            x.stage == Stage::Ready,
            x.unloaded@.len() == 0,
            x.ttl_seconds == ttl_seconds,
            x.options == options,
    {
        Execution {
            actions,
            at: 0,
            url: String::new(),
            stage: Stage::Ready,
            unloaded: Vec::new(),
            ttl_seconds,
            options,
        }
    }

    /// Goes on with the first doable action at or behind `from`.
    fn go_on(&mut self, config: &Config, from: usize) -> (c: Command)
        requires
            from <= old(self).actions@.len(),
        ensures
            final(self).valid(),
            final(self).actions == old(self).actions,
            final(self).unloaded == old(self).unloaded,
            final(self).ttl_seconds == old(self).ttl_seconds,
            final(self).options == old(self).options,
            goes_on(
                *config,
                old(self).actions@,
                from as int,
                old(self).ttl_seconds,
                final(self).at as int,
                final(self).url@,
                final(self).stage,
                old(self).unloaded@,
                c,
            ),
    {
        let ghost all = self.actions@;
        let ghost p = |a: Action| doable(*config, a);
        let ghost rest = all.skip(from as int);
        let mut i: usize = from;
        while i < self.actions.len()
            invariant
                from <= i <= self.actions@.len(),
                all == self.actions@,
                self.actions == old(self).actions,
                self.unloaded == old(self).unloaded,
                self.ttl_seconds == old(self).ttl_seconds,
                self.options == old(self).options,
                rest == all.skip(from as int),
                p == (|a: Action| doable(*config, a)),
                forall|k: int| 0 <= k < i - from ==> !p(#[trigger] rest[k]),
            decreases self.actions.len() - i,
        {
            let kind = match &self.actions[i] {
                Action::Unload { provider, .. } => *provider,
                Action::Load { provider, .. } => *provider,
            };
            if let Some(found) = config.provider(kind) {
                proof {
                    lemma_first_index(config.providers@, |p: ProviderConfig| p.kind == kind);
                    assert(rest[i - from] == all[i as int]);
                    assert(p(rest[i - from]));
                    lemma_first_index_is(rest, p, i - from);
                }
                let url = found.url.clone();
                self.at = i;
                self.url = url.clone();
                match &self.actions[i] {
                    Action::Unload { provider, model, .. } => {
                        self.stage = Stage::Unloading;
                        return Command::Unload { provider: *provider, url, model: model.clone() };
                    },
                    Action::Load { provider, model, context_tokens } => {
                        self.stage = Stage::Starting;
                        return match actuation(*provider) {
                            Actuation::ModelLevel => Command::Load {
                                provider: *provider,
                                url,
                                request: LoadRequest {
                                    model: model.clone(),
                                    context_tokens: *context_tokens,
                                    ttl_seconds: self.ttl_seconds,
                                },
                            },
                            Actuation::SelfManaged { .. } => Command::WarmUp {
                                provider: *provider,
                                url,
                                model: model.clone(),
                            },
                        };
                    },
                }
            }
            proof {
                lemma_first_index(config.providers@, |p: ProviderConfig| p.kind == kind);
                assert(rest[i - from] == all[i as int]);
            }
            i += 1;
        }
        proof {
            lemma_first_index_is(rest, p, rest.len() as int);
        }
        self.at = i;
        self.stage = Stage::Done;
        let restore = restore_hint(self.unloaded.as_slice());
        Command::Finish(
            Ending {
                status: Status::Failed {
                    reason: "the plan contained nothing to do".to_owned(),
                    restore,
                },
                undo: false,
                pin: false,
                record: false,
            },
        )
    }

    fn over(&mut self, status: Status, undo: bool, pin: bool, record: bool) -> (c: Command)
        requires
            old(self).at <= old(self).actions@.len(),
        ensures
            final(self).valid(),
            final(self).stage == Stage::Done,
            final(self).actions == old(self).actions,
            final(self).at == old(self).at,
            final(self).unloaded == old(self).unloaded,
            final(self).ttl_seconds == old(self).ttl_seconds,
            final(self).options == old(self).options,
            c == Command::Finish(Ending { status, undo, pin, record }),
    {
        self.stage = Stage::Done;
        Command::Finish(Ending { status, undo, pin, record })
    }

    /// Takes in how the last thing went and says what to do next.
    ///
    /// An unload counts only once the provider was seen without the model, and
    /// a run is ready only once the model was seen.
    pub fn step(&mut self, config: &Config, event: Event) -> (c: Command)
        requires
            old(self).valid(),
            old(self).expects(event),
        ensures
            final(self).valid(),
            final(self).actions == old(self).actions,
            final(self).ttl_seconds == old(self).ttl_seconds,
            final(self).options == old(self).options,
            steps(*old(self), *config, event, *final(self), c),
    {
        match event {
            Event::Begin => {
                let from: usize = self.at;
                self.go_on(config, from)
            },
            Event::UnloadReply(reply) => match reply {
                Err(reason) => {
                    let restore = restore_hint(self.unloaded.as_slice());
                    self.over(Status::Failed { reason, restore }, false, false, false)
                },
                Ok(()) => {
                    self.stage = Stage::Settling;
                    match &self.actions[self.at] {
                        Action::Unload { provider, model, .. } => Command::AwaitGone {
                            provider: *provider,
                            url: self.url.clone(),
                            model: model.clone(),
                        },
                        Action::Load { provider, model, .. } => Command::AwaitGone {
                            provider: *provider,
                            url: self.url.clone(),
                            model: model.clone(),
                        },
                    }
                },
            },
            Event::Settled(gone) => {
                let (provider, model, reason) = match &self.actions[self.at] {
                    Action::Unload { provider, model, reason } => (
                        *provider,
                        model.clone(),
                        *reason,
                    ),
                    Action::Load { provider, model, .. } => (
                        *provider,
                        model.clone(),
                        UnloadReason::Named,
                    ),
                };
                if !gone {
                    let text = cat5(
                        "`",
                        model.as_str(),
                        "` on ",
                        provider.as_str(),
                        " is still resident after the unload reported success",
                    );
                    let restore = restore_hint(self.unloaded.as_slice());
                    return self.over(
                        Status::Failed { reason: text, restore },
                        false,
                        false,
                        false,
                    );
                }
                let count: usize = self.actions.len();
                self.unloaded.push(UnloadRecord { provider, model, reason });
                proof {
                    assert(self.unloaded@.drop_last() =~= old(self).unloaded@);
                    assert(self.at < count);
                }
                let from: usize = self.at + 1;
                self.go_on(config, from)
            },
            Event::StartReply(reply) => match reply {
                Err(reason) => {
                    let restore = restore_hint(self.unloaded.as_slice());
                    self.over(Status::Failed { reason, restore }, false, false, false)
                },
                Ok(()) => {
                    self.stage = Stage::Watching;
                    let limits = Limits {
                        floor_bytes: match self.options.floor_bytes {
                            Some(b) => b,
                            None => self.options.reserve_bytes / 2,
                        },
                        ..Limits::from_reserve(self.options.reserve_bytes)
                    };
                    match &self.actions[self.at] {
                        Action::Load { provider, model, .. } => Command::Supervise {
                            provider: *provider,
                            url: self.url.clone(),
                            model: model.clone(),
                            limits,
                        },
                        Action::Unload { provider, model, .. } => Command::Supervise {
                            provider: *provider,
                            url: self.url.clone(),
                            model: model.clone(),
                            limits,
                        },
                    }
                },
            },
            Event::Watched { outcome, elapsed_s } => {
                let (provider, model) = match &self.actions[self.at] {
                    Action::Load { provider, model, .. } => (*provider, model.clone()),
                    Action::Unload { provider, model, .. } => (*provider, model.clone()),
                };
                match outcome {
                    Outcome::Loaded { took_s } => {
                        let took: u64 = if took_s >= elapsed_s {
                            took_s
                        } else {
                            elapsed_s
                        };
                        let base_url = self.url.clone();
                        let pin = self.options.pin_after;
                        self.over(
                            Status::Ready {
                                base_url,
                                provider,
                                provider_model_id: model,
                                resident: true,
                                took_s: took,
                            },
                            false,
                            pin,
                            true,
                        )
                    },
                    // Undo what was started, where undoing is possible.
                    Outcome::Aborted { reason } => self.over(
                        Status::Aborted { reason },
                        true,
                        false,
                        false,
                    ),
                    Outcome::TimedOut => {
                        let restore = restore_hint(self.unloaded.as_slice());
                        let text = cat4(
                            "`",
                            model.as_str(),
                            "` never became resident on ",
                            provider.as_str(),
                        );
                        self.over(Status::Failed { reason: text, restore }, false, false, false)
                    },
                }
            },
        }
    }
}

/// Whether a run ended as failed, with this reason and this way back, and
/// nothing else owed.
pub open spec fn failed_with(c: Command, reason: Seq<char>, restore: Option<Seq<char>>) -> bool {
    c matches Command::Finish(e) && e.status matches Status::Failed { reason: r, restore: back }
        && r@ == reason && opt_text(back) == restore && !e.undo && !e.pin && !e.record
}

/// What one step of a run does.
pub open spec fn steps(x: Execution, config: Config, event: Event, y: Execution, c: Command) -> bool {
    match event {
        Event::Begin => {
            &&& y.unloaded@ == x.unloaded@
            &&& goes_on(
                config,
                x.actions@,
                x.at as int,
                x.ttl_seconds,
                y.at as int,
                y.url@,
                y.stage,
                y.unloaded@,
                c,
            )
        },
        Event::UnloadReply(reply) => {
            &&& y.unloaded@ == x.unloaded@
            &&& y.at == x.at
            &&& match reply {
                Err(reason) => y.stage == Stage::Done && failed_with(
                    c,
                    reason@,
                    restore_text(x.unloaded@),
                ),
                Ok(()) => {
                    &&& y.stage == Stage::Settling
                    &&& y.url@ == x.url@
                    &&& x.actions@[x.at as int] matches Action::Unload { provider, model, .. }
                    &&& c matches Command::AwaitGone { provider: p, url: u, model: m }
                    &&& p == provider && u@ == x.url@ && m@ == model@
                },
            }
        },
        // Never trust the reply alone: a server may report success and keep a
        // second instance resident.
        Event::Settled(gone) => x.actions@[x.at as int] matches Action::Unload {
            provider,
            model,
            reason,
        } && if gone {
            &&& y.unloaded@.len() == x.unloaded@.len() + 1
            &&& y.unloaded@.drop_last() == x.unloaded@
            &&& y.unloaded@.last().provider == provider
            &&& y.unloaded@.last().model@ == model@
            &&& y.unloaded@.last().reason == reason
            &&& goes_on(
                config,
                x.actions@,
                x.at + 1,
                x.ttl_seconds,
                y.at as int,
                y.url@,
                y.stage,
                y.unloaded@,
                c,
            )
        } else {
            &&& y.unloaded@ == x.unloaded@
            &&& y.stage == Stage::Done
            &&& failed_with(
                c,
                "`"@ + model@ + "` on "@ + kind_text(provider)
                    + " is still resident after the unload reported success"@,
                restore_text(x.unloaded@),
            )
        },
        Event::StartReply(reply) => {
            &&& y.unloaded@ == x.unloaded@
            &&& y.at == x.at
            &&& match reply {
                Err(reason) => y.stage == Stage::Done && failed_with(
                    c,
                    reason@,
                    restore_text(x.unloaded@),
                ),
                Ok(()) => {
                    &&& y.stage == Stage::Watching
                    &&& y.url@ == x.url@
                    &&& x.actions@[x.at as int] matches Action::Load { provider, model, .. }
                    &&& c matches Command::Supervise { provider: p, url: u, model: m, limits }
                    &&& p == provider && u@ == x.url@ && m@ == model@
                    &&& limits == limits_of(x.options)
                },
            }
        },
        Event::Watched { outcome, elapsed_s } => {
            &&& y.unloaded@ == x.unloaded@
            &&& y.stage == Stage::Done
            &&& x.actions@[x.at as int] matches Action::Load { provider, model, .. } && match outcome {
                Outcome::Loaded { took_s } => c matches Command::Finish(e)
                    && e.status matches Status::Ready {
                    base_url,
                    provider: p,
                    provider_model_id,
                    resident,
                    took_s: took,
                } && base_url@ == x.url@ && p == provider && provider_model_id@ == model@ && resident
                    && took == (if took_s >= elapsed_s {
                    took_s
                } else {
                    elapsed_s
                }) && !e.undo && e.pin == x.options.pin_after && e.record,
                Outcome::Aborted { reason } => c matches Command::Finish(e) && e.status
                    == (Status::Aborted { reason }) && e.undo && !e.pin && !e.record,
                Outcome::TimedOut => failed_with(
                    c,
                    "`"@ + model@ + "` never became resident on "@ + kind_text(provider),
                    restore_text(x.unloaded@),
                ),
            }
        },
    }
}

/// Whether a resident model is the one an `unload` names.
pub open spec fn names(r: Resident, model: Seq<char>, provider: Option<ProviderKind>) -> bool {
    r.model@ == model && (provider is None || provider == Some(r.provider))
}

/// The resident model an `unload` names.
pub open spec fn unload_target(
    here: Seq<Resident>,
    model: Seq<char>,
    provider: Option<ProviderKind>,
) -> Option<Resident> {
    first_match(here, |r: Resident| names(r, model, provider))
}

/// Why a named model cannot be unloaded, if it cannot. A pin is no reason:
/// naming the model is consent, and the pin survives.
pub open spec fn unload_refusal(
    here: Seq<Resident>,
    model: Seq<char>,
    provider: Option<ProviderKind>,
) -> Option<Seq<char>> {
    match unload_target(here, model, provider) {
        None => Some("`"@ + model + "` is not resident"@),
        Some(r) => if !(r.actuation is ModelLevel) {
            Some(
                "`"@ + model + "` is on "@ + kind_text(r.provider)
                    + ", which has no model-level unload; stop the provider with `llm-harmony stop "@
                    + kind_text(r.provider) + "` if you mean to free it"@,
            )
        } else if r.busy {
            Some("`"@ + model + "` has a request in flight"@)
        } else {
            None
        },
    }
}

/// The one unload that was asked for, or why it cannot be done.
pub fn plan_unload(here: &[Resident], model: &str, provider: Option<ProviderKind>) -> (r: Result<
    Action,
    String,
>)
    ensures
        match r {
            Ok(a) => {
                &&& unload_refusal(here@, model@, provider) is None
                &&& unload_target(here@, model@, provider) matches Some(t)
                &&& a matches Action::Unload { provider: p, model: m, reason }
                &&& p == t.provider && m@ == t.model@ && reason == UnloadReason::Named
            },
            Err(e) => unload_refusal(here@, model@, provider) == Some(e@),
        },
{
    let ghost p = |r: Resident| names(r, model@, provider);
    let mut i: usize = 0;
    while i < here.len()
        invariant
            i <= here@.len(),
            p == (|r: Resident| names(r, model@, provider)),
            forall|k: int| 0 <= k < i ==> !p(#[trigger] here@[k]),
        decreases here.len() - i,
    {
        let r = &here[i];
        let there: bool = match provider {
            Some(k) => k == r.provider,
            None => true,
        };
        if there && same(r.model.as_str(), model) {
            proof {
                lemma_first_index_is(here@, p, i as int);
            }
            if !r.actuation.can_unload() {
                return Err(
                    cat7(
                        "`",
                        model,
                        "` is on ",
                        r.provider.as_str(),
                        ", which has no model-level unload; stop the provider with `llm-harmony stop ",
                        r.provider.as_str(),
                        "` if you mean to free it",
                    ),
                );
            }
            if r.busy {
                return Err(cat3("`", model, "` has a request in flight"));
            }
            return Ok(
                Action::Unload {
                    provider: r.provider,
                    model: r.model.clone(),
                    reason: UnloadReason::Named,
                },
            );
        }
        i += 1;
    }
    proof {
        lemma_first_index_is(here@, p, here@.len() as int);
    }
    Err(cat3("`", model, "` is not resident"))
}

/// How an `unload` ended. A run ends by looking for a load; here the unload is
/// the whole job, so one that was confirmed and then ran out of actions is
/// success.
pub fn unload_status(
    status: Status,
    unloaded: &[UnloadRecord],
    provider: ProviderKind,
    model: &str,
) -> (r: Status)
    ensures
        if status matches Status::Failed { reason, .. } && has(reason@, "nothing to do"@)
            && unloaded@.len() > 0 {
            &&& r matches Status::Ready {
                base_url,
                provider: p,
                provider_model_id,
                resident,
                took_s,
            }
            &&& base_url@.len() == 0 && p == provider && provider_model_id@ == model@
            &&& !resident && took_s == 0
        } else {
            r == status
        },
{
    let done: bool = match &status {
        Status::Failed { reason, .. } => contains(reason.as_str(), "nothing to do")
            && unloaded.len() > 0,
        _ => false,
    };
    if done {
        Status::Ready {
            base_url: String::new(),
            provider,
            provider_model_id: model.to_owned(),
            resident: false,
            took_s: 0,
        }
    } else {
        status
    }
}

/// An unload is recorded only when the provider was seen without the model:
/// no other event adds to the record, whatever a reply claimed.
pub proof fn an_unload_counts_only_once_seen(
    x: Execution,
    config: Config,
    event: Event,
    y: Execution,
    c: Command,
)
    requires
        steps(x, config, event, y, c),
        y.unloaded@ != x.unloaded@,
    ensures
        event == Event::Settled(true),
        x.actions@[x.at as int] is Unload,
{
}

/// A run is reported ready only when the model was seen on its provider.
pub proof fn ready_only_once_seen(
    x: Execution,
    config: Config,
    event: Event,
    y: Execution,
    c: Command,
)
    requires
        steps(x, config, event, y, c),
        c matches Command::Finish(e) && e.status is Ready,
    ensures
        event matches Event::Watched { outcome, .. } && outcome is Loaded,
{
}

/// A run that fails after something was freed says how to put it back, whatever
/// it was that failed.
pub proof fn a_failed_run_says_how_to_restore(
    x: Execution,
    config: Config,
    event: Event,
    y: Execution,
    c: Command,
)
    requires
        steps(x, config, event, y, c),
    ensures
        c matches Command::Finish(e) ==> (e.status matches Status::Failed { restore, .. } ==> (
        opt_text(restore) == restore_text(y.unloaded@) && (restore is Some <==> y.unloaded@.len()
            > 0))),
{
}

/// A load is undone exactly when watching it ended in an abort.
pub proof fn only_an_abort_is_undone(
    x: Execution,
    config: Config,
    event: Event,
    y: Execution,
    c: Command,
)
    requires
        steps(x, config, event, y, c),
        c is Finish,
    ensures
        c->Finish_0.undo <==> (event matches Event::Watched { outcome, .. } && outcome is Aborted),
{
}

} // verus!
