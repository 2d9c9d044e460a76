//! What carrying a plan out promises, in terms of the actions, of what was seen
//! and of what is to be done next.
use vstd::prelude::*;

use crate::actuate::plan::{Action, Resident};
use crate::actuate::run::{
    all_resident, doable, goes_on, names, next_doable, provider_of, seen_as, steps, unload_refusal,
    unload_target, url_of, Command, Event, Execution, Serving, Stage, Status,
};
use crate::config::{Config, ProviderConfig};
use crate::ledger::{resident_of, ProviderRow};
use crate::provider::{LoadedModel, ProviderKind, State};
use crate::seqs::{first_index, lemma_filter_members, lemma_first_index};

verus! {

/// Whether a planner's view is of a resident model of a row: under its id and at
/// its provider, which says whether it can be unloaded; busy exactly when it was
/// observed to be serving; ranked by its expiry, or first without one; and at its
/// weights, or at the whole footprint where it is the only one resident.
pub open spec fn views(r: Resident, row: ProviderRow, m: LoadedModel, serving: Seq<Serving>) -> bool {
    &&& m.state == State::Loaded
    &&& r.provider == row.kind
    &&& r.model@ == m.id@
    &&& r.busy <==> exists|i: int|
        0 <= i < serving.len() && (#[trigger] serving[i]).provider == row.kind && serving[i].model@
            == m.id@
    &&& r.evict_rank == if m.expires_at_unix is Some {
        m.expires_at_unix->0
    } else {
        0
    }
    &&& r.actuation is ModelLevel <==> row.kind == ProviderKind::LmStudio || row.kind
        == ProviderKind::Ollama
    &&& r.estimated_bytes == if alone(row) && row.footprint_bytes is Some {
        row.footprint_bytes->0
    } else if m.weights_bytes is Some {
        m.weights_bytes->0
    } else {
        0
    }
}

/// Whether exactly one model of a row is resident.
pub open spec fn alone(row: ProviderRow) -> bool {
    &&& row.outcome is Answered
    &&& exists|k: int|
        {
            &&& 0 <= k < row.outcome->Answered_0@.len()
            &&& (#[trigger] row.outcome->Answered_0@[k]).state == State::Loaded
            &&& forall|j: int|
                0 <= j < row.outcome->Answered_0@.len() && j != k ==> (
                #[trigger] row.outcome->Answered_0@[j]).state != State::Loaded
        }
}

proof fn lemma_alone(row: ProviderRow)
    ensures
        resident_of(row.outcome).len() == 1 <==> alone(row),
{
    if row.outcome is Answered {
        let v = row.outcome->Answered_0@;
        let p = |m: LoadedModel| m.state == State::Loaded;
        let at = crate::seqs::lemma_filter_places(v, p);
        assert(resident_of(row.outcome) == v.filter(p));
        if at.len() == 1 {
            let k = at[0];
            assert(p(v[k]));
            assert forall|j: int| 0 <= j < v.len() && j != k implies (#[trigger] v[j]).state
                != State::Loaded by {
                if p(v[j]) {
                    assert(at.contains(j));
                }
            }
            assert(v[k].state == State::Loaded);
        }
        if alone(row) {
            let k = choose|k: int|
                {
                    &&& 0 <= k < v.len()
                    &&& (#[trigger] v[k]).state == State::Loaded
                    &&& forall|j: int|
                        0 <= j < v.len() && j != k ==> (#[trigger] v[j]).state != State::Loaded
                };
            assert(p(v[k]));
            assert(at.contains(k));
            if at.len() > 1 {
                assert(at[0] < at[1]);
                let o = if at[0] == k {
                    at[1]
                } else {
                    at[0]
                };
                assert(p(v[at[0]]) && p(v[at[1]]));
                assert(v[o].state != State::Loaded);
            }
        }
    }
}

proof fn lemma_all_resident(rows: Seq<ProviderRow>)
    ensures
        forall|r: int, k: int|
            #![trigger rows[r].outcome->Answered_0@[k]]
            0 <= r < rows.len() && rows[r].outcome is Answered && 0 <= k
                < rows[r].outcome->Answered_0@.len() && rows[r].outcome->Answered_0@[k].state
                == State::Loaded ==> all_resident(rows).contains(
                (rows[r], rows[r].outcome->Answered_0@[k]),
            ),
        forall|i: int|
            0 <= i < all_resident(rows).len() ==> {
                let x = #[trigger] all_resident(rows)[i];
                &&& rows.contains(x.0)
                &&& x.0.outcome is Answered
                &&& x.0.outcome->Answered_0@.contains(x.1)
                &&& x.1.state == State::Loaded
            },
    decreases rows.len(),
{
    if rows.len() > 0 {
        let t = rows.drop_last();
        let row = rows.last();
        lemma_all_resident(t);
        let before = all_resident(t);
        let own = resident_of(row.outcome);
        let all = all_resident(rows);
        let f = |m: LoadedModel| (row, m);
        assert(all == before + own.map_values(f));
        assert(rows[rows.len() - 1] == row);
        let p = |m: LoadedModel| m.state == State::Loaded;
        if row.outcome is Answered {
            lemma_filter_members(row.outcome->Answered_0@, p);
        }
        assert forall|r: int, k: int|
            #![trigger rows[r].outcome->Answered_0@[k]]
            0 <= r < rows.len() && rows[r].outcome is Answered && 0 <= k
                < rows[r].outcome->Answered_0@.len() && rows[r].outcome->Answered_0@[k].state
                == State::Loaded implies all.contains((rows[r], rows[r].outcome->Answered_0@[k])) by {
            let m = rows[r].outcome->Answered_0@[k];
            if r < t.len() {
                assert(t[r] == rows[r]);
                assert(t[r].outcome->Answered_0@[k] == m);
                assert(before.contains((t[r], m)));
                let i = before.index_of((t[r], m));
                assert(all[i] == (rows[r], m));
            } else {
                assert(row.outcome->Answered_0@.contains(m) && p(m));
                assert(own.contains(m));
                let i = own.index_of(m);
                assert(all[before.len() + i] == f(own[i]));
            }
        }
        assert forall|i: int| 0 <= i < all.len() implies {
            let x = #[trigger] all[i];
            &&& rows.contains(x.0)
            &&& x.0.outcome is Answered
            &&& x.0.outcome->Answered_0@.contains(x.1)
            &&& x.1.state == State::Loaded
        } by {
            let x = all[i];
            if i < before.len() {
                assert(before[i] == x);
                let r = t.index_of(x.0);
                assert(rows[r] == x.0);
            } else {
                let m = own[i - before.len()];
                assert(x == f(m));
                assert(own.contains(m));
                assert(p(m));
            }
        }
    }
}

/// Whether a planner's view is of some resident model of the rows.
pub open spec fn views_some(r: Resident, rows: Seq<ProviderRow>, serving: Seq<Serving>) -> bool {
    exists|n: int, k: int|
        {
            &&& 0 <= n < rows.len()
            &&& rows[n].outcome is Answered
            &&& 0 <= k < rows[n].outcome->Answered_0@.len()
            &&& views(r, rows[n], #[trigger] rows[n].outcome->Answered_0@[k], serving)
        }
}

/// The planner sees every resident model of every provider that answered, and
/// nothing else, each as it is.
pub proof fn the_planner_sees_what_is_resident(
    rows: Seq<ProviderRow>,
    serving: Seq<Serving>,
    out: Seq<Resident>,
)
    requires
        out.len() == all_resident(rows).len(),
        forall|i: int|
            0 <= i < out.len() ==> seen_as(
                #[trigger] out[i],
                all_resident(rows)[i].0,
                all_resident(rows)[i].1,
                serving,
            ),
    ensures
        forall|n: int, k: int|
            #![trigger rows[n].outcome->Answered_0@[k]]
            0 <= n < rows.len() && rows[n].outcome is Answered && 0 <= k
                < rows[n].outcome->Answered_0@.len() && rows[n].outcome->Answered_0@[k].state
                == State::Loaded ==> exists|i: int|
                0 <= i < out.len() && views(
                    #[trigger] out[i],
                    rows[n],
                    rows[n].outcome->Answered_0@[k],
                    serving,
                ),
        forall|i: int| 0 <= i < out.len() ==> views_some(#[trigger] out[i], rows, serving),
{
    lemma_all_resident(rows);
    let all = all_resident(rows);
    assert forall|i: int| 0 <= i < out.len() implies views(
        #[trigger] out[i],
        all[i].0,
        all[i].1,
        serving,
    ) by {
        lemma_alone(all[i].0);
        assert(seen_as(out[i], all[i].0, all[i].1, serving));
    }
    assert forall|n: int, k: int|
        #![trigger rows[n].outcome->Answered_0@[k]]
        0 <= n < rows.len() && rows[n].outcome is Answered && 0 <= k
            < rows[n].outcome->Answered_0@.len() && rows[n].outcome->Answered_0@[k].state
            == State::Loaded implies exists|i: int|
        0 <= i < out.len() && views(
            #[trigger] out[i],
            rows[n],
            rows[n].outcome->Answered_0@[k],
            serving,
        ) by {
        let x = (rows[n], rows[n].outcome->Answered_0@[k]);
        assert(all.contains(x));
        let i = all.index_of(x);
        assert(views(out[i], all[i].0, all[i].1, serving));
    }
    assert forall|i: int| 0 <= i < out.len() implies views_some(
        #[trigger] out[i],
        rows,
        serving,
    ) by {
        let x = all[i];
        let n = rows.index_of(x.0);
        let k = x.0.outcome->Answered_0@.index_of(x.1);
        assert(rows[n].outcome->Answered_0@[k] == x.1);
    }
}

/// Whether a provider is configured to listen at an address: the first entry
/// about it says so.
pub open spec fn listens(config: Config, kind: ProviderKind, url: Seq<char>) -> bool {
    exists|j: int|
        0 <= j < config.providers@.len() && (#[trigger] config.providers@[j]).kind == kind
            && config.providers@[j].url@ == url && forall|m: int|
            0 <= m < j ==> (#[trigger] config.providers@[m]).kind != kind
}

proof fn lemma_listens(config: Config, kind: ProviderKind)
    ensures
        forall|url: Seq<char>|
            url_of(config, kind) == Some(url) ==> #[trigger] listens(config, kind, url),
        url_of(config, kind) is None ==> forall|j: int|
            0 <= j < config.providers@.len() ==> (#[trigger] config.providers@[j]).kind != kind,
{
    let p = |x: ProviderConfig| x.kind == kind;
    let all = config.providers@;
    lemma_first_index(all, p);
    let f = first_index(all, p);
    if f < all.len() {
        assert(p(all[f]));
    }
    assert forall|j: int| 0 <= j < f implies (#[trigger] all[j]).kind != kind by {
        assert(!p(all[j]));
    }
}

/// Whether what is to be done next is an action's own: an unload of its model, or
/// a load of it at the window planned and for the time asked, or, where its
/// provider manages itself, the one request that makes it load; always at its
/// own provider and where that listens.
pub open spec fn begins(c: Command, a: Action, config: Config, ttl: Option<u64>) -> bool {
    match a {
        Action::Unload { provider, model, .. } => c matches Command::Unload {
            provider: p,
            url,
            model: m,
        } && p == provider && m@ == model@ && listens(config, provider, url@),
        Action::Load { provider, model, context_tokens } => if provider == ProviderKind::LmStudio
            || provider == ProviderKind::Ollama {
            c matches Command::Load { provider: p, url, request } && p == provider
                && request.model@ == model@ && request.context_tokens == context_tokens
                && request.ttl_seconds == ttl && listens(config, provider, url@)
        } else {
            c matches Command::WarmUp { provider: p, url, model: m } && p == provider && m@ == model@
                && listens(config, provider, url@)
        },
    }
}

/// Whether an action is of a provider that is not configured.
pub open spec fn nowhere(config: Config, a: Action) -> bool {
    forall|j: int|
        0 <= j < config.providers@.len() ==> (#[trigger] config.providers@[j]).kind != provider_of(a)
}

proof fn lemma_goes_on(
    config: Config,
    x: Execution,
    from: int,
    y: Execution,
    c: Command,
)
    requires
        0 <= from <= x.actions@.len(),
        goes_on(
            config,
            x.actions@,
            from,
            x.ttl_seconds,
            y.at as int,
            y.url@,
            y.stage,
            y.unloaded@,
            c,
        ),
    ensures
        taken_up(config, x, from, y, c),
{
    let rest = x.actions@.skip(from);
    let p = |a: Action| doable(config, a);
    lemma_first_index(rest, p);
    let i = next_doable(config, x.actions@, from);
    assert forall|k: int| from <= k < i && k < x.actions@.len() implies nowhere(
        config,
        #[trigger] x.actions@[k],
    ) by {
        assert(rest[k - from] == x.actions@[k]);
        assert(!p(rest[k - from]));
        lemma_listens(config, provider_of(x.actions@[k]));
    }
    if i < x.actions@.len() {
        lemma_listens(config, provider_of(x.actions@[i]));
    }
}

/// Whether a run went on from a place among its actions: with the first there or
/// behind whose provider is configured, or, where there is none, to its end as
/// one that had nothing to do.
pub open spec fn taken_up(
    config: Config,
    x: Execution,
    from: int,
    y: Execution,
    c: Command,
) -> bool {
    if c is Finish {
        &&& forall|k: int|
            from <= k < x.actions@.len() ==> nowhere(config, #[trigger] x.actions@[k])
        &&& c->Finish_0.status is Failed
        &&& y.stage == Stage::Done
    } else {
        &&& from <= y.at < x.actions@.len()
        &&& begins(c, x.actions@[y.at as int], config, x.ttl_seconds)
        &&& forall|k: int| from <= k < y.at ==> nowhere(config, #[trigger] x.actions@[k])
    }
}

/// A run takes its actions in order, each at its own provider, and passes over
/// only those of providers that are not configured. A reply to an unload is
/// followed by a wait until that model is gone from that provider, and only then
/// by the next action; a reply to a load by watching that model there. What
/// fails ends the run.
#[verifier::rlimit(40)]
pub proof fn a_run_takes_its_actions_in_order(
    x: Execution,
    config: Config,
    event: Event,
    y: Execution,
    c: Command,
)
    requires
        x.valid(),
        x.expects(event),
        y.actions == x.actions,
        steps(x, config, event, y, c),
    ensures
        event is Begin ==> taken_up(config, x, x.at as int, y, c),
        event matches Event::UnloadReply(r) ==> {
            &&& r is Err <==> c is Finish
            &&& r is Err ==> c->Finish_0.status is Failed
            &&& r is Ok ==> (c matches Command::AwaitGone { provider, url, model } && provider
                == x.actions@[x.at as int]->Unload_provider && model@
                == x.actions@[x.at as int]->Unload_model@ && url@ == x.url@)
        },
        event matches Event::Settled(gone) ==> {
            &&& gone ==> taken_up(config, x, x.at + 1, y, c)
            &&& !gone ==> c is Finish && c->Finish_0.status is Failed
            &&& y.unloaded@.len() == x.unloaded@.len() + if gone {
                1int
            } else {
                0int
            }
            &&& gone ==> {
                &&& y.unloaded@.last().provider == x.actions@[x.at as int]->Unload_provider
                &&& y.unloaded@.last().model@ == x.actions@[x.at as int]->Unload_model@
                &&& y.unloaded@.last().reason == x.actions@[x.at as int]->reason
            }
            &&& forall|k: int|
                0 <= k < x.unloaded@.len() ==> #[trigger] y.unloaded@[k] == x.unloaded@[k]
        },
        event matches Event::StartReply(r) ==> {
            &&& r is Err <==> c is Finish
            &&& r is Err ==> c->Finish_0.status is Failed
            &&& r is Ok ==> (c matches Command::Supervise { provider, url, model, limits }
                && provider == x.actions@[x.at as int]->Load_provider && model@
                == x.actions@[x.at as int]->Load_model@ && url@ == x.url@ && (
            x.options.floor_bytes is Some ==> limits.floor_bytes == x.options.floor_bytes->0) && (
            x.options.floor_bytes is None ==> 2 * limits.floor_bytes <= x.options.reserve_bytes <= 2
                * limits.floor_bytes + 1))
        },
        event matches Event::Watched { outcome, elapsed_s } ==> {
            &&& c is Finish
            &&& outcome is Loaded <==> c->Finish_0.status is Ready
            &&& outcome is Aborted <==> c->Finish_0.status is Aborted
            &&& outcome is TimedOut <==> c->Finish_0.status is Failed
            &&& c->Finish_0.undo <==> outcome is Aborted
            &&& c->Finish_0.record <==> outcome is Loaded
            &&& c->Finish_0.pin <==> outcome is Loaded && x.options.pin_after
            &&& c->Finish_0.status matches Status::Ready {
                base_url,
                provider,
                provider_model_id,
                resident,
                took_s,
            } ==> {
                &&& base_url@ == x.url@
                &&& provider == x.actions@[x.at as int]->Load_provider
                &&& provider_model_id@ == x.actions@[x.at as int]->Load_model@
                &&& resident
                &&& took_s >= elapsed_s
                &&& took_s >= outcome->took_s
                &&& took_s == elapsed_s || took_s == outcome->took_s
            }
        },
        c is Finish && !(event is Watched) ==> !c->Finish_0.undo && !c->Finish_0.pin
            && !c->Finish_0.record,
{
    match event {
        Event::Begin => {
            lemma_goes_on(config, x, x.at as int, y, c);
        },
        Event::Settled(gone) => {
            if gone {
                lemma_goes_on(config, x, x.at + 1, y, c);
                assert forall|k: int| 0 <= k < x.unloaded@.len() implies #[trigger] y.unloaded@[k]
                    == x.unloaded@[k] by {
                    assert(y.unloaded@.drop_last()[k] == y.unloaded@[k]);
                }
            }
        },
        _ => {},
    }
}

/// An `unload` frees the first resident model of the name, on the provider that
/// was asked for where one was; it is refused exactly where there is none, where
/// its provider cannot unload it and where it is serving. A pin is no reason.
pub proof fn an_unload_frees_what_was_named(
    here: Seq<Resident>,
    model: Seq<char>,
    provider: Option<ProviderKind>,
    i: int,
)
    ensures
        (forall|k: int|
            0 <= k < here.len() ==> (#[trigger] here[k]).model@ != model || (provider is Some
                && provider->0 != here[k].provider)) ==> unload_refusal(here, model, provider) is Some,
        0 <= i < here.len() && here[i].model@ == model && (provider is None || provider->0
            == here[i].provider) && (forall|k: int|
            0 <= k < i ==> (#[trigger] here[k]).model@ != model || (provider is Some && provider->0
                != here[k].provider)) ==> {
            &&& unload_target(here, model, provider) == Some(here[i])
            &&& unload_refusal(here, model, provider) is None <==> here[i].actuation is ModelLevel
                && !here[i].busy
        },
{
    let q = |r: Resident| names(r, model, provider);
    lemma_first_index(here, q);
    let f = first_index(here, q);
    if f < here.len() {
        assert(q(here[f]));
        assert(here[f].model@ == model);
    }
    if 0 <= i < here.len() && here[i].model@ == model && (provider is None || provider->0
        == here[i].provider) && (forall|k: int|
        0 <= k < i ==> (#[trigger] here[k]).model@ != model || (provider is Some && provider->0
            != here[k].provider)) {
        assert(q(here[i]));
        assert(here.any(q));
        if f < i {
            assert(here[f].model@ != model || (provider is Some && provider->0 != here[f].provider));
        }
    }
}

} // verus!
