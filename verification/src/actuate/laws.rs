//! What a plan to load or to switch promises, in terms of what was asked and of
//! the actions it holds.
use vstd::prelude::*;

use crate::actuate::plan::{
    allowed, answer, blocker, blockers, decided, evictable, headroom_of, in_line, is_named,
    is_target, making_room, named_resident, step_of, steps_of, target_of, Action, Plan, Request,
    Resident, Step, UnloadReason,
};
use crate::actuate::room::{as_few_as_can_go, at_places, cost, freed, going, victims};
use crate::estimate::estimator::{Basis, Estimate};
use crate::memory::Machine;
use crate::pins::{about, blame_text, held_iff_protected, holder, live, protected, Pin};
use crate::provider::ProviderKind;
use crate::resolve::identity::Candidate;
use crate::seqs::{
    first_index, lemma_filter_map_members, lemma_filter_places, lemma_first_index, lemma_rising,
    lemma_sort_places, lemma_total_permuted, total,
};
use crate::text::texts;

verus! {

/// Whether a candidate is the one to load: where the caller asked for it, and
/// the first of those whose artifact was reported; or, where none was, the first
/// of all.
pub open spec fn chosen(candidates: Seq<Candidate>, wanted: Option<ProviderKind>, c: int) -> bool {
    &&& 0 <= c < candidates.len()
    &&& wanted is None || wanted == Some(candidates[c].provider)
    &&& forall|j: int|
        0 <= j < candidates.len() && j != c && (wanted is None || wanted == Some(
            (#[trigger] candidates[j]).provider,
        )) ==> if candidates[c].provenance is Recorded {
            candidates[j].provenance is Recorded ==> c < j
        } else {
            !(candidates[j].provenance is Recorded) && c < j
        }
}

/// The candidate to load is the chosen one.
pub(crate) proof fn lemma_target(candidates: Seq<Candidate>, wanted: Option<ProviderKind>)
    ensures
        match target_of(candidates, wanted) {
            Some(t) => exists|c: int| #[trigger]
                chosen(candidates, wanted, c) && candidates[c] == t,
            None => forall|c: int| !#[trigger] chosen(candidates, wanted, c),
        },
        forall|c: int| #[trigger]
            chosen(candidates, wanted, c) ==> target_of(candidates, wanted) == Some(candidates[c]),
{
    let best = |c: Candidate| allowed(c, wanted) && c.provenance is Recorded;
    let any = |c: Candidate| allowed(c, wanted);
    lemma_first_index(candidates, best);
    lemma_first_index(candidates, any);
    let b = first_index(candidates, best);
    let f = first_index(candidates, any);
    if b < candidates.len() {
        assert(best(candidates[b]));
        assert forall|j: int|
            0 <= j < candidates.len() && j != b && (wanted is None || wanted == Some(
                (#[trigger] candidates[j]).provider,
            )) && candidates[j].provenance is Recorded implies b < j by {
            assert(best(candidates[j]));
        }
        assert(chosen(candidates, wanted, b));
    } else {
        assert forall|j: int| 0 <= j < candidates.len() implies !best(#[trigger] candidates[j]) by {}
        if f < candidates.len() {
            assert(any(candidates[f]));
            assert(!best(candidates[f]));
            assert forall|j: int|
                0 <= j < candidates.len() && j != f && (wanted is None || wanted == Some(
                    (#[trigger] candidates[j]).provider,
                )) implies !(candidates[j].provenance is Recorded) && f < j by {
                assert(!best(candidates[j]));
                assert(any(candidates[j]));
            }
            assert(chosen(candidates, wanted, f));
        }
    }
    assert forall|c: int| #[trigger] chosen(candidates, wanted, c) implies target_of(
        candidates,
        wanted,
    ) == Some(candidates[c]) by {
        assert(any(candidates[c]));
        assert(candidates.any(any));
        if b < candidates.len() {
            assert(best(candidates[b]));
            if b != c {
                assert(wanted is None || wanted == Some(candidates[b].provider));
                assert(candidates[c].provenance is Recorded && c < b);
                assert(best(candidates[c]));
            }
        } else {
            assert(!best(candidates[c]));
            if f != c {
                assert(any(candidates[f]));
                assert(wanted is None || wanted == Some(candidates[f].provider));
            }
        }
    }
}

/// A plan is for what was asked. With actions, the last of them loads the chosen
/// candidate, where it lives, under its own name and at the window that was asked
/// for, and the figure it was admitted on was measured or computed. A model is
/// reported as resident exactly when the chosen candidate is resident and nothing
/// was named to be freed, and then where that candidate lives. Where there is no
/// candidate, nothing is done.
#[verifier::rlimit(40)]
pub proof fn a_plan_is_for_what_was_asked(
    candidates: Seq<Candidate>,
    resident: Seq<Resident>,
    pins: Seq<Pin>,
    now: u64,
    estimate: Estimate,
    machine: Machine,
    reserve: u64,
    request: Request,
    p: Plan,
)
    requires
        decided(p) == answer(
            candidates,
            resident,
            pins,
            now,
            estimate,
            machine,
            reserve,
            request,
        ),
    ensures
        p matches Plan::Actions(a) ==> {
            &&& a@.len() > 0
            &&& estimate.bytes is Some
            &&& estimate.basis == Basis::Measured || estimate.basis == Basis::Computed
            &&& a@.last() is Load
            &&& exists|c: int| #[trigger]
                chosen(candidates, request.provider, c) && a@.last()->Load_provider
                    == candidates[c].provider && a@.last()->Load_model@
                    == candidates[c].provider_model_id@
            &&& a@.last()->context_tokens == request.context_tokens
            &&& forall|k: int| 0 <= k < a@.len() - 1 ==> (#[trigger] a@[k]) is Unload
        },
        p is AlreadyResident <==> request.free_first is None && exists|c: int, r: int|
            #[trigger] chosen(candidates, request.provider, c) && 0 <= r < resident.len() && (
            #[trigger] resident[r]).provider == candidates[c].provider && resident[r].model@
                == candidates[c].provider_model_id@,
        p matches Plan::AlreadyResident { provider, model, base_url } ==> exists|c: int| #[trigger]
            chosen(candidates, request.provider, c) && provider == candidates[c].provider && model@
                == candidates[c].provider_model_id@ && base_url@ == candidates[c].url@,
        (forall|c: int| !#[trigger] chosen(candidates, request.provider, c)) ==> p is Refused,
{
    lemma_target(candidates, request.provider);
    let ans = answer(candidates, resident, pins, now, estimate, machine, reserve, request);
    if target_of(candidates, request.provider) is Some {
        let t = target_of(candidates, request.provider)->0;
        let c = choose|c: int| #[trigger]
            chosen(candidates, request.provider, c) && candidates[c] == t;
        let q = |r: Resident| is_target(r, t);
        if resident.any(q) {
            let r = choose|r: int| 0 <= r < resident.len() && q(#[trigger] resident[r]);
            assert(chosen(candidates, request.provider, c) && resident[r].provider
                == candidates[c].provider);
        }
        if exists|c: int, r: int|
            #[trigger] chosen(candidates, request.provider, c) && 0 <= r < resident.len() && (
            #[trigger] resident[r]).provider == candidates[c].provider && resident[r].model@
                == candidates[c].provider_model_id@ {
            let (d, r) = choose|c: int, r: int|
                #[trigger] chosen(candidates, request.provider, c) && 0 <= r < resident.len() && (
                #[trigger] resident[r]).provider == candidates[c].provider && resident[r].model@
                    == candidates[c].provider_model_id@;
            assert(candidates[d] == t);
            assert(q(resident[r]));
            assert(resident.any(q));
        }
        if let Plan::Actions(a) = p {
            let steps = steps_of(a@);
            crate::actuate::plan::a_plan_unloads_only_what_it_may_and_ends_in_one_load(
                candidates,
                resident,
                pins,
                now,
                estimate,
                machine,
                reserve,
                request,
            );
            assert(steps.last() == step_of(a@.last()));
            assert forall|k: int| 0 <= k < a@.len() - 1 implies (#[trigger] a@[k]) is Unload by {
                assert(steps[k] == step_of(a@[k]));
            }
        }
    }
}

/// Whether a resident model may be unloaded to make room for a candidate: its
/// provider can unload it, it is not observed to be serving, it is not what is
/// being loaded nor what the caller named to be freed, and no pin and no lease
/// that has not lapsed is about it.
pub open spec fn may_go(
    r: Resident,
    pins: Seq<Pin>,
    now: u64,
    target: Candidate,
    request: Request,
) -> bool {
    &&& r.actuation is ModelLevel
    &&& !r.busy
    &&& !(r.provider == target.provider && r.model@ == target.provider_model_id@)
    &&& !(request.free_first is Some && request.free_first->0@ == r.model@)
    &&& forall|k: int|
        0 <= k < pins.len() && (#[trigger] pins[k]).provider == r.provider && pins[k].model@
            == r.model@ ==> pins[k].expires_at is Some && pins[k].expires_at->0 <= now
}

proof fn lemma_may_go(
    r: Resident,
    pins: Seq<Pin>,
    now: u64,
    target: Candidate,
    request: Request,
)
    ensures
        evictable(r, pins, now, target, request) == may_go(r, pins, now, target, request),
{
    held_iff_protected(pins, r.provider, r.model@, now);
    if protected(pins, r.provider, r.model@, now) {
        let k = choose|k: int|
            0 <= k < pins.len() && about(#[trigger] pins[k], r.provider, r.model@) && live(
                pins[k],
                now,
            );
        assert(pins[k].provider == r.provider && pins[k].model@ == r.model@);
    } else {
        assert forall|k: int|
            0 <= k < pins.len() && (#[trigger] pins[k]).provider == r.provider && pins[k].model@
                == r.model@ implies pins[k].expires_at is Some && pins[k].expires_at->0 <= now by {
            assert(about(pins[k], r.provider, r.model@));
            assert(!live(pins[k], now));
        }
    }
}

/// The room there is without unloading anything: what is free, less the
/// reserve.
pub open spec fn room_left(machine: Machine, reserve: u64) -> int {
    if machine.used_bytes + reserve <= machine.total_bytes {
        machine.total_bytes - machine.used_bytes - reserve
    } else {
        0
    }
}

/// The first resident model the caller named to be freed, or the number of
/// them.
pub open spec fn named_at(resident: Seq<Resident>, request: Request, n: int) -> bool {
    &&& request.free_first is Some
    &&& 0 <= n < resident.len()
    &&& resident[n].model@ == request.free_first->0@
    &&& forall|j: int| 0 <= j < n ==> (#[trigger] resident[j]).model@ != request.free_first->0@
}

/// What the model that was named frees.
pub open spec fn named_bytes(resident: Seq<Resident>, request: Request) -> int {
    if exists|n: int| named_at(resident, request, n) {
        resident[choose|n: int| named_at(resident, request, n)].estimated_bytes as int
    } else {
        0
    }
}

proof fn lemma_named(resident: Seq<Resident>, request: Request)
    ensures
        match named_resident(resident, request) {
            Some(r) => exists|n: int| #[trigger]
                named_at(resident, request, n) && resident[n] == r,
            None => forall|n: int| !#[trigger] named_at(resident, request, n),
        },
        forall|n: int| #[trigger]
            named_at(resident, request, n) ==> named_resident(resident, request) == Some(
                resident[n],
            ) && named_bytes(resident, request) == resident[n].estimated_bytes && n == first_index(
                resident,
                |r: Resident| is_named(r, request),
            ),
{
    let q = |r: Resident| is_named(r, request);
    lemma_first_index(resident, q);
    let f = first_index(resident, q);
    if f < resident.len() {
        assert(q(resident[f]));
        assert forall|j: int| 0 <= j < f implies (#[trigger] resident[j]).model@
            != request.free_first->0@ by {
            assert(!q(resident[j]));
        }
        assert(named_at(resident, request, f));
    }
    assert forall|n: int| #[trigger] named_at(resident, request, n) implies n == f by {
        assert(q(resident[n]));
        assert(resident.any(q));
        if f < n {
            assert(resident[f].model@ != request.free_first->0@);
        }
    }
}

/// What stands in line, by the places it came from.
proof fn lemma_line_places(
    resident: Seq<Resident>,
    pins: Seq<Pin>,
    now: u64,
    target: Candidate,
    request: Request,
) -> (at: Seq<int>)
    ensures
        at.len() == in_line(resident, pins, now, target, request).len(),
        at.no_duplicates(),
        forall|k: int|
            0 <= k < at.len() ==> 0 <= #[trigger] at[k] < resident.len() && resident[at[k]]
                == in_line(resident, pins, now, target, request)[k] && may_go(
                resident[at[k]],
                pins,
                now,
                target,
                request,
            ),
        forall|i: int|
            0 <= i < resident.len() && may_go(#[trigger] resident[i], pins, now, target, request)
                ==> at.contains(i),
{
    let p = |r: Resident| evictable(r, pins, now, target, request);
    let le = |a: Resident, b: Resident| a.evict_rank <= b.evict_rank;
    let from = lemma_filter_places(resident, p);
    let to = lemma_sort_places(resident.filter(p), le);
    let line = in_line(resident, pins, now, target, request);
    let at = Seq::new(line.len(), |k: int| from[to[k]]);
    assert forall|k: int| 0 <= k < at.len() implies 0 <= #[trigger] at[k] < resident.len()
        && resident[at[k]] == line[k] && may_go(resident[at[k]], pins, now, target, request) by {
        assert(0 <= to[k] < from.len());
        assert(0 <= from[to[k]] < resident.len());
        lemma_may_go(resident[at[k]], pins, now, target, request);
    }
    assert forall|j: int, k: int| 0 <= j < at.len() && 0 <= k < at.len() && j != k implies at[j]
        != at[k] by {
        assert(to[j] != to[k]);
        assert(0 <= to[j] < from.len() && 0 <= to[k] < from.len());
        if to[j] < to[k] {
            assert(from[to[j]] < from[to[k]]);
        } else {
            assert(from[to[k]] < from[to[j]]);
        }
    }
    assert forall|i: int|
        0 <= i < resident.len() && may_go(
            #[trigger] resident[i],
            pins,
            now,
            target,
            request,
        ) implies at.contains(i) by {
        lemma_may_go(resident[i], pins, now, target, request);
        assert(p(resident[i]));
        assert(from.contains(i));
        let x = from.index_of(i);
        assert(to.contains(x));
        let y = to.index_of(x);
        assert(at[y] == i);
    }
    at
}

/// What models free, by the places in line they stand at.
proof fn lemma_freed_through(
    resident: Seq<Resident>,
    line: Seq<Resident>,
    at: Seq<int>,
    picks: Seq<int>,
)
    requires
        at.len() == line.len(),
        forall|k: int|
            0 <= k < at.len() ==> 0 <= #[trigger] at[k] < resident.len() && resident[at[k]]
                == line[k],
        forall|k: int| 0 <= k < picks.len() ==> 0 <= #[trigger] picks[k] < line.len(),
    ensures
        total(
            picks.map_values(|k: int| at[k]),
            |k: int| resident[k].estimated_bytes as nat,
        ) == freed(line, picks),
    decreases picks.len(),
{
    let m = picks.map_values(|k: int| at[k]);
    if picks.len() > 0 {
        let front = picks.drop_last();
        assert forall|k: int| 0 <= k < front.len() implies 0 <= #[trigger] front[k] < line.len() by {
            assert(front[k] == picks[k]);
        }
        lemma_freed_through(resident, line, at, front);
        assert(m.drop_last() =~= front.map_values(|k: int| at[k]));
        let last = picks[picks.len() - 1];
        assert(0 <= last < line.len());
        assert(resident[at[last]] == line[last]);
    }
}

/// Different models that may go free no more than the whole line, and they are
/// different places of it.
proof fn lemma_others(
    resident: Seq<Resident>,
    pins: Seq<Pin>,
    now: u64,
    target: Candidate,
    request: Request,
    at: Seq<int>,
    others: Seq<int>,
) -> (rising: Seq<int>)
    requires
        at.len() == in_line(resident, pins, now, target, request).len(),
        at.no_duplicates(),
        forall|k: int|
            0 <= k < at.len() ==> 0 <= #[trigger] at[k] < resident.len() && resident[at[k]]
                == in_line(resident, pins, now, target, request)[k],
        forall|i: int|
            0 <= i < resident.len() && may_go(#[trigger] resident[i], pins, now, target, request)
                ==> at.contains(i),
        others.no_duplicates(),
        forall|k: int|
            0 <= k < others.len() ==> 0 <= #[trigger] others[k] < resident.len() && may_go(
                resident[others[k]],
                pins,
                now,
                target,
                request,
            ),
    ensures
        rising.len() == others.len(),
        crate::actuate::room::climbs(
            rising,
            0,
            in_line(resident, pins, now, target, request).len() as int,
        ),
        freed(in_line(resident, pins, now, target, request), rising) == total(
            others,
            |k: int| resident[k].estimated_bytes as nat,
        ),
{
    let line = in_line(resident, pins, now, target, request);
    let places = Seq::new(others.len(), |k: int| at.index_of(others[k]));
    assert forall|k: int| 0 <= k < others.len() implies 0 <= #[trigger] places[k] < line.len()
        && at[places[k]] == others[k] by {
        assert(may_go(resident[others[k]], pins, now, target, request));
        assert(at.contains(others[k]));
    }
    assert(places.no_duplicates()) by {
        assert forall|j: int, k: int| 0 <= j < places.len() && 0 <= k < places.len() && j
            != k implies places[j] != places[k] by {
            assert(others[j] != others[k]);
        }
    }
    let rising = lemma_rising(places);
    assert forall|k: int| 0 <= k < rising.len() implies 0 <= #[trigger] rising[k] < line.len() by {
        assert(places.contains(rising[k]));
        let j = places.index_of(rising[k]);
        assert(0 <= places[j] < line.len());
    }
    lemma_total_permuted(rising, places, |i: int| cost(line[i]));
    lemma_freed_through(resident, line, at, places);
    assert(places.map_values(|k: int| at[k]) =~= others);
    rising
}

/// Different places of a line free no more than all of it.
proof fn lemma_freed_of_all(line: Seq<Resident>, rising: Seq<int>, n: int)
    requires
        crate::actuate::room::climbs(rising, 0, n),
        0 <= n <= line.len(),
    ensures
        freed(line, rising) <= total(line.take(n), |r: Resident| cost(r)),
    decreases n,
{
    let f = |r: Resident| cost(r);
    let g = |i: int| cost(line[i]);
    if n == 0 {
        if rising.len() > 0 {
            assert(rising[0] < n);
        }
    } else {
        assert(line.take(n).drop_last() =~= line.take(n - 1));
        if rising.len() > 0 && rising.last() == n - 1 {
            let front = rising.drop_last();
            assert forall|k: int| 0 <= k < front.len() implies 0 <= #[trigger] front[k] < n - 1 by {
                assert(front[k] == rising[k]);
                assert(rising[k] < rising[rising.len() - 1]);
            }
            assert forall|a: int, b: int| 0 <= a < b < front.len() implies #[trigger] front[a]
                < #[trigger] front[b] by {
                assert(rising[a] < rising[b]);
            }
            lemma_freed_of_all(line, front, n - 1);
        } else {
            assert forall|k: int| 0 <= k < rising.len() implies 0 <= #[trigger] rising[k] < n
                - 1 by {
                if k < rising.len() - 1 {
                    assert(rising[k] < rising[rising.len() - 1]);
                }
            }
            lemma_freed_of_all(line, rising, n - 1);
        }
    }
}

/// What goes to make room is enough and no more than it takes. The actions
/// before the load unload different resident models. The one the caller named is
/// the first of them, wherever it is resident, can be unloaded and is not
/// serving; every other may go. Without the reserve, what is free and what they
/// free hold the figure that was admitted. Nothing else goes where there is room
/// already, and no fewer models that may go would have made enough.
#[verifier::rlimit(40)]
pub proof fn room_is_made_with_the_fewest_that_may_go(
    candidates: Seq<Candidate>,
    resident: Seq<Resident>,
    pins: Seq<Pin>,
    now: u64,
    estimate: Estimate,
    machine: Machine,
    reserve: u64,
    request: Request,
    actions: Vec<Action>,
    c: int,
    others: Seq<int>,
) -> (gone: Seq<int>)
    requires
        decided(Plan::Actions(actions)) == answer(
            candidates,
            resident,
            pins,
            now,
            estimate,
            machine,
            reserve,
            request,
        ),
        chosen(candidates, request.provider, c),
        others.no_duplicates(),
        forall|k: int|
            0 <= k < others.len() ==> 0 <= #[trigger] others[k] < resident.len() && may_go(
                resident[others[k]],
                pins,
                now,
                candidates[c],
                request,
            ),
    ensures
        gone.len() + 1 == actions@.len(),
        gone.no_duplicates(),
        forall|k: int|
            0 <= k < gone.len() ==> {
                &&& 0 <= #[trigger] gone[k] < resident.len()
                &&& actions@[k] is Unload
                &&& actions@[k]->Unload_provider == resident[gone[k]].provider
                &&& actions@[k]->Unload_model@ == resident[gone[k]].model@
                &&& actions@[k]->reason == UnloadReason::Named || actions@[k]->reason
                    == UnloadReason::MakingRoom
                &&& actions@[k]->reason == UnloadReason::Named <==> k == 0 && exists|n: int|
                    named_at(resident, request, n)
                &&& actions@[k]->reason == UnloadReason::MakingRoom ==> may_go(
                    resident[gone[k]],
                    pins,
                    now,
                    candidates[c],
                    request,
                )
            },
        forall|n: int| #[trigger]
            named_at(resident, request, n) ==> gone.len() > 0 && gone[0] == n && !resident[n].busy
                && resident[n].actuation is ModelLevel,
        estimate.bytes is Some,
        estimate.bytes->0 <= room_left(machine, reserve) + total(
            gone,
            |k: int| resident[k].estimated_bytes as nat,
        ),
        estimate.bytes->0 <= room_left(machine, reserve) + named_bytes(resident, request)
            ==> gone.len() == if exists|n: int| named_at(resident, request, n) {
            1int
        } else {
            0int
        },
        estimate.bytes->0 <= room_left(machine, reserve) + named_bytes(resident, request) + total(
            others,
            |k: int| resident[k].estimated_bytes as nat,
        ) ==> gone.len() <= others.len() + if exists|n: int| named_at(resident, request, n) {
            1int
        } else {
            0int
        },
{
    let target = candidates[c];
    lemma_target(candidates, request.provider);
    lemma_named(resident, request);
    let named = named_resident(resident, request);
    let line = in_line(resident, pins, now, target, request);
    let at = lemma_line_places(resident, pins, now, target, request);
    let rising = lemma_others(resident, pins, now, target, request, at, others);
    let g = |k: int| resident[k].estimated_bytes as nat;
    let steps = steps_of(actions@);
    let first = if named is Some {
        seq![
            crate::actuate::plan::unload_step(named->0, UnloadReason::Named),
        ]
    } else {
        Seq::<Step>::empty()
    };
    let had: u64 = if named is Some {
        named->0.estimated_bytes
    } else {
        0
    };
    let headroom = headroom_of(machine, reserve, had);
    let wanted = estimate.bytes->0;
    assert(decided(Plan::Actions(actions)) == making_room(
        candidates,
        resident,
        pins,
        now,
        estimate,
        headroom,
        request,
        target,
        first,
    ));
    let f = |r: Resident| crate::actuate::plan::unload_step(r, UnloadReason::MakingRoom);
    let need = (wanted - headroom) as nat;
    let n = first_index(resident, |r: Resident| is_named(r, request));
    let head = if named is Some {
        seq![n]
    } else {
        Seq::<int>::empty()
    };
    if named is Some {
        let m = choose|m: int| #[trigger] named_at(resident, request, m) && resident[m] == named->0;
        assert(m == n);
    } else {
        assert(!exists|n: int| named_at(resident, request, n));
    }
    assert(had == named_bytes(resident, request));
    let vs = if wanted <= headroom {
        Seq::<Resident>::empty()
    } else {
        victims(line, need)->0
    };
    assert(steps =~= (first + vs.map_values(f)).push(
        crate::actuate::plan::load_step(target, request),
    ));
    let places = if wanted <= headroom {
        Seq::<int>::empty()
    } else {
        going(line, need)
    };
    if wanted > headroom {
        as_few_as_can_go(line, need, rising);
        assert(at_places(line, places) =~= vs);
    }
    let tail = places.map_values(|k: int| at[k]);
    let gone = head + tail;
    assert forall|k: int| 0 <= k < places.len() implies 0 <= #[trigger] places[k] < line.len()
        && vs[k] == line[places[k]] && vs[k] == resident[at[places[k]]] by {
        assert(0 <= places[k] < line.len());
        assert(resident[at[places[k]]] == line[places[k]]);
    }
    lemma_freed_through(resident, line, at, places);
    assert(total(gone, g) == had + freed(line, places)) by {
        if named is Some {
            lemma_total_head(n, tail, g);
        } else {
            assert(gone =~= tail);
        }
    }
    assert forall|j: int, k: int| 0 <= j < gone.len() && 0 <= k < gone.len() && j != k implies gone[j]
        != gone[k] by {
        let h = head.len() as int;
        if j >= h && k >= h {
            let x = places[j - h];
            let y = places[k - h];
            assert(x != y) by {
                if j < k {
                    assert(places[j - h] < places[k - h]);
                } else {
                    assert(places[k - h] < places[j - h]);
                }
            }
            assert(at[x] != at[y]);
        } else {
            // The one that was named never stands in line.
            let o = if j < h {
                k - h
            } else {
                j - h
            };
            if o >= 0 {
                let x = places[o];
                assert(may_go(resident[at[x]], pins, now, target, request));
                assert(resident[at[x]].model@ != resident[n].model@);
            }
        }
    }
    assert forall|k: int| 0 <= k < gone.len() implies {
        &&& 0 <= #[trigger] gone[k] < resident.len()
        &&& actions@[k] is Unload
        &&& actions@[k]->Unload_provider == resident[gone[k]].provider
        &&& actions@[k]->Unload_model@ == resident[gone[k]].model@
        &&& actions@[k]->reason == UnloadReason::Named || actions@[k]->reason
            == UnloadReason::MakingRoom
        &&& actions@[k]->reason == UnloadReason::Named <==> k == 0 && exists|n: int|
            named_at(resident, request, n)
        &&& actions@[k]->reason == UnloadReason::MakingRoom ==> may_go(
            resident[gone[k]],
            pins,
            now,
            candidates[c],
            request,
        )
    } by {
        assert(steps[k] == step_of(actions@[k]));
        let h = head.len() as int;
        if k >= h {
            let x = places[k - h];
            assert(gone[k] == at[x]);
            assert(may_go(resident[at[x]], pins, now, target, request));
            assert(steps[k] == f(vs[k - h]));
        } else {
            assert(steps[k] == first[k]);
        }
    }
    gone
}

proof fn lemma_total_head(n: int, tail: Seq<int>, g: spec_fn(int) -> nat)
    ensures
        total(seq![n] + tail, g) == g(n) + total(tail, g),
    decreases tail.len(),
{
    let s = seq![n] + tail;
    if tail.len() == 0 {
        assert(s.drop_last().len() == 0);
        assert(total(s.drop_last(), g) == 0);
        assert(s.last() == n);
    } else {
        lemma_total_head(n, tail.drop_last(), g);
        assert(s.drop_last() =~= seq![n] + tail.drop_last());
        assert(s.last() == tail.last());
    }
}

/// A refusal comes only where it must: with a candidate to load and a figure to
/// admit it on, and with what was named able to go, it comes only where nothing
/// that may go would make enough room. It then names the holder of every
/// resident model that only its protection keeps from going, and no other.
#[verifier::rlimit(40)]
pub proof fn a_refusal_for_room_comes_only_where_none_can_be_made(
    candidates: Seq<Candidate>,
    resident: Seq<Resident>,
    pins: Seq<Pin>,
    now: u64,
    estimate: Estimate,
    machine: Machine,
    reserve: u64,
    request: Request,
    reason: String,
    blocked: Vec<String>,
    alternatives: Vec<String>,
    c: int,
    others: Seq<int>,
)
    requires
        decided(Plan::Refused { reason, pinned_blockers: blocked, alternatives }) == answer(
            candidates,
            resident,
            pins,
            now,
            estimate,
            machine,
            reserve,
            request,
        ),
        chosen(candidates, request.provider, c),
        estimate.bytes is Some,
        estimate.basis == Basis::Measured || estimate.basis == Basis::Computed,
        forall|n: int| #[trigger]
            named_at(resident, request, n) ==> resident[n].actuation is ModelLevel
                && !resident[n].busy,
        others.no_duplicates(),
        forall|k: int|
            0 <= k < others.len() ==> 0 <= #[trigger] others[k] < resident.len() && may_go(
                resident[others[k]],
                pins,
                now,
                candidates[c],
                request,
            ),
    ensures
        estimate.bytes->0 > room_left(machine, reserve) + named_bytes(resident, request) + total(
            others,
            |k: int| resident[k].estimated_bytes as nat,
        ),
        forall|r: int|
            0 <= r < resident.len() && kept_by_protection(
                #[trigger] resident[r],
                pins,
                now,
                candidates[c],
                request,
            ) ==> texts(blocked@).contains(
                blame_text(holder(pins, resident[r].provider, resident[r].model@, now)->0, now),
            ),
        forall|k: int|
            0 <= k < blocked@.len() ==> exists|r: int|
                0 <= r < resident.len() && kept_by_protection(
                    #[trigger] resident[r],
                    pins,
                    now,
                    candidates[c],
                    request,
                ) && (#[trigger] blocked@[k])@ == blame_text(
                    holder(pins, resident[r].provider, resident[r].model@, now)->0,
                    now,
                ),
{
    let target = candidates[c];
    lemma_target(candidates, request.provider);
    lemma_named(resident, request);
    let named = named_resident(resident, request);
    let line = in_line(resident, pins, now, target, request);
    let at = lemma_line_places(resident, pins, now, target, request);
    let rising = lemma_others(resident, pins, now, target, request, at, others);
    let had: u64 = if named is Some {
        named->0.estimated_bytes
    } else {
        0
    };
    if named is Some {
        let m = choose|m: int| #[trigger] named_at(resident, request, m) && resident[m] == named->0;
    } else {
        assert(!exists|n: int| named_at(resident, request, n));
    }
    let headroom = headroom_of(machine, reserve, had);
    lemma_freed_of_all(line, rising, line.len() as int);
    assert(line.take(line.len() as int) =~= line);
    let all = blockers(resident, pins, now, target, request);
    assert(texts(blocked@) == all);
    let f = |r: Resident| blocker(r, pins, now, target, request);
    lemma_filter_map_members(resident, f);
    assert forall|r: int| 0 <= r < resident.len() implies (f(#[trigger] resident[r]) is Some
        <==> kept_by_protection(resident[r], pins, now, target, request)) by {
        lemma_kept(resident[r], pins, now, target, request);
    }
    assert forall|k: int| 0 <= k < blocked@.len() implies exists|r: int|
        0 <= r < resident.len() && kept_by_protection(
            #[trigger] resident[r],
            pins,
            now,
            candidates[c],
            request,
        ) && (#[trigger] blocked@[k])@ == blame_text(
            holder(pins, resident[r].provider, resident[r].model@, now)->0,
            now,
        ) by {
        assert(texts(blocked@)[k] == blocked@[k]@);
        let r = choose|r: int| 0 <= r < resident.len() && f(#[trigger] resident[r]) == Some(all[k]);
        assert(kept_by_protection(resident[r], pins, now, target, request));
    }
}

/// Whether only its protection keeps a resident model from going.
pub open spec fn kept_by_protection(
    r: Resident,
    pins: Seq<Pin>,
    now: u64,
    target: Candidate,
    request: Request,
) -> bool {
    &&& r.actuation is ModelLevel
    &&& !r.busy
    &&& !(r.provider == target.provider && r.model@ == target.provider_model_id@)
    &&& !(request.free_first is Some && request.free_first->0@ == r.model@)
    &&& exists|k: int|
        0 <= k < pins.len() && (#[trigger] pins[k]).provider == r.provider && pins[k].model@
            == r.model@ && (pins[k].expires_at is None || now < pins[k].expires_at->0)
}

proof fn lemma_kept(r: Resident, pins: Seq<Pin>, now: u64, target: Candidate, request: Request)
    ensures
        blocker(r, pins, now, target, request) is Some <==> kept_by_protection(
            r,
            pins,
            now,
            target,
            request,
        ),
{
    held_iff_protected(pins, r.provider, r.model@, now);
    if protected(pins, r.provider, r.model@, now) {
        let k = choose|k: int|
            0 <= k < pins.len() && about(#[trigger] pins[k], r.provider, r.model@) && live(
                pins[k],
                now,
            );
        assert(pins[k].provider == r.provider && pins[k].model@ == r.model@);
    } else {
        assert forall|k: int|
            0 <= k < pins.len() && (#[trigger] pins[k]).provider == r.provider && pins[k].model@
                == r.model@ implies !(pins[k].expires_at is None || now < pins[k].expires_at->0) by {
            assert(about(pins[k], r.provider, r.model@));
            assert(!live(pins[k], now));
        }
    }
}

/// Nothing is done that must not be: not without a candidate, not on a figure
/// that is only declared or missing, and not where what was named to be freed is
/// serving or has a provider that cannot unload it.
pub proof fn nothing_is_done_that_must_not_be(
    candidates: Seq<Candidate>,
    resident: Seq<Resident>,
    pins: Seq<Pin>,
    now: u64,
    estimate: Estimate,
    machine: Machine,
    reserve: u64,
    request: Request,
    p: Plan,
)
    requires
        decided(p) == answer(
            candidates,
            resident,
            pins,
            now,
            estimate,
            machine,
            reserve,
            request,
        ),
        !(p is AlreadyResident),
        estimate.bytes is None || estimate.basis == Basis::Declared || estimate.basis
            == Basis::Unknown || exists|n: int|
            named_at(resident, request, n) && (resident[n].busy
                || !(resident[n].actuation is ModelLevel)),
    ensures
        p is Refused,
{
    lemma_named(resident, request);
    if exists|n: int|
        named_at(resident, request, n) && (resident[n].busy
            || !(resident[n].actuation is ModelLevel)) {
        let n = choose|n: int|
            named_at(resident, request, n) && (resident[n].busy
                || !(resident[n].actuation is ModelLevel));
        assert(named_resident(resident, request) == Some(resident[n]));
    }
}

/// Of models that free the same, those that rank lower go first: what goes never
/// leaves behind, for one that ranks higher, one that would have done as well.
#[verifier::rlimit(40)]
pub proof fn the_lowest_ranks_go_first(
    resident: Seq<Resident>,
    pins: Seq<Pin>,
    now: u64,
    target: Candidate,
    request: Request,
    need: nat,
    k: int,
    instead: int,
)
    requires
        victims(in_line(resident, pins, now, target, request), need) is Some,
        0 <= k < going(in_line(resident, pins, now, target, request), need).len(),
        0 <= instead < in_line(resident, pins, now, target, request).len(),
        !going(in_line(resident, pins, now, target, request), need).contains(instead),
        in_line(resident, pins, now, target, request)[instead].estimated_bytes >= in_line(
            resident,
            pins,
            now,
            target,
            request,
        )[going(in_line(resident, pins, now, target, request), need)[k]].estimated_bytes,
    ensures
        going(in_line(resident, pins, now, target, request), need)[k] < instead,
        in_line(resident, pins, now, target, request)[going(
            in_line(resident, pins, now, target, request),
            need,
        )[k]].evict_rank <= in_line(resident, pins, now, target, request)[instead].evict_rank,
{
    let line = in_line(resident, pins, now, target, request);
    let picks = going(line, need);
    let g = |i: int| cost(line[i]);
    as_few_as_can_go(line, need, Seq::empty());
    // The same places with `instead` for the one at `k`, in rising order.
    let swapped = picks.update(k, instead);
    assert(picks.no_duplicates()) by {
        assert forall|a: int, b: int| 0 <= a < picks.len() && 0 <= b < picks.len() && a
            != b implies picks[a] != picks[b] by {
            if a < b {
                assert(picks[a] < picks[b]);
            } else {
                assert(picks[b] < picks[a]);
            }
        }
    }
    assert(swapped.no_duplicates()) by {
        assert forall|a: int, b: int| 0 <= a < swapped.len() && 0 <= b < swapped.len() && a
            != b implies swapped[a] != swapped[b] by {
            if a == k {
                assert(picks.contains(picks[b]));
            } else if b == k {
                assert(picks.contains(picks[a]));
            }
        }
    }
    crate::seqs::lemma_total_remove(picks, g, k);
    crate::seqs::lemma_total_remove(swapped, g, k);
    assert(picks.remove(k) =~= swapped.remove(k));
    let rising = lemma_rising(swapped);
    assert forall|a: int| 0 <= a < rising.len() implies 0 <= #[trigger] rising[a] < line.len() by {
        assert(swapped.contains(rising[a]));
        let b = swapped.index_of(rising[a]);
        if b != k {
            assert(0 <= picks[b] < line.len());
        }
    }
    lemma_total_permuted(rising, swapped, g);
    as_few_as_can_go(line, need, rising);
    lemma_earlier(picks, rising, swapped, k, instead);
    crate::actuate::plan::making_room_takes_the_smallest_sufficient_set(
        resident,
        pins,
        now,
        target,
        request,
        need,
        Seq::empty(),
    );
}

/// Where rising places stand no later than what they come to with one of them
/// given up for another, the other is a later one.
proof fn lemma_earlier(picks: Seq<int>, rising: Seq<int>, swapped: Seq<int>, k: int, instead: int)
    requires
        0 <= k < picks.len(),
        swapped == picks.update(k, instead),
        !picks.contains(instead),
        forall|a: int, b: int| 0 <= a < b < picks.len() ==> #[trigger] picks[a] < #[trigger] picks[b],
        rising.to_multiset() == swapped.to_multiset(),
        rising.len() == picks.len(),
        forall|a: int, b: int|
            0 <= a < b < rising.len() ==> #[trigger] rising[a] < #[trigger] rising[b],
        crate::actuate::room::no_later(picks, rising),
    ensures
        picks[k] < instead,
{
    assert(picks.contains(picks[k]));
    let d = choose|d: int|
        0 <= d <= picks.len() && d <= rising.len() && #[trigger] picks.take(d) == rising.take(d) && (
        d == picks.len() || (d < rising.len() && picks[d] < rising[d]));
    // `instead` stands somewhere in the rising places.
    assert(swapped[k] == instead);
    assert(swapped.contains(instead));
    crate::seqs::lemma_same_members(rising, swapped, instead);
    assert(rising.contains(instead));
    let j = rising.index_of(instead);
    if j < d {
        assert(picks.take(d)[j] == rising.take(d)[j]);
        assert(picks[j] == instead);
        assert(picks.contains(instead));
    } else if instead < picks[k] {
        // Past `d` everything rises above the place there, which is one of the
        // picks and so stands in the rising places too, unless it was given up.
        assert(d < picks.len());
        assert(rising[d] <= instead) by {
            if d < j {
                assert(rising[d] < rising[j]);
            }
        }
        assert(picks[d] < instead);
        assert(d < k) by {
            if k < d {
                assert(picks[k] < picks[d]);
            }
        }
        assert(swapped[d] == picks[d]);
        assert(swapped.contains(picks[d]));
        crate::seqs::lemma_same_members(rising, swapped, picks[d]);
        assert(rising.contains(picks[d]));
        let m = rising.index_of(picks[d]);
        if m < d {
            assert(picks.take(d)[m] == rising.take(d)[m]);
            assert(picks[m] < picks[d]);
        } else if d < m {
            assert(rising[d] < rising[m]);
        }
    }
}

} // verus!
