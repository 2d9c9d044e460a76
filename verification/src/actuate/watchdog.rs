//! Watching a load happen, so the guarantee does not rest on the prediction.
//!
//! Admission decides whether a model *should* fit. This decides whether it
//! *is* fitting, from the machine rather than from the artifact. It only ever
//! *decides*: the caller performs the abort.
use vstd::prelude::*;

use crate::memory::Machine;
use crate::render::{bytes_text, human_bytes};
use crate::text::{cat3, cat5};

verus! {

#[derive(Debug, Clone, Copy, PartialEq, Eq, Structural)]
pub struct Limits {
    /// Abort below this much free physical memory.
    pub floor_bytes: u64,
    /// Abort if swap in use grows by more than this during the load. On
    /// unified memory this is the signal that matters.
    pub max_swap_growth_bytes: u64,
    pub poll_ms: u64,
    pub timeout_ms: u64,
}

/// The ordinary limits for a given reserve.
pub open spec fn ordinary_limits(reserve_bytes: u64) -> Limits {
    Limits {
        floor_bytes: reserve_bytes / 2,
        max_swap_growth_bytes: 2147483648,
        poll_ms: 250,
        timeout_ms: 180000,
    }
}

impl Limits {
    /// The ordinary limits for a given reserve: half of it is the floor,
    /// because crossing that mid-load means the estimate was wrong by more
    /// than the margin was built to absorb.
    pub fn from_reserve(reserve_bytes: u64) -> (l: Limits)
        ensures
            l == ordinary_limits(reserve_bytes),
    {
        Limits {
            floor_bytes: reserve_bytes / 2,
            max_swap_growth_bytes: 2147483648,
            poll_ms: 250,
            timeout_ms: 180000,
        }
    }
}

#[derive(Debug)]
pub enum Outcome {
    Loaded { took_s: u64 },
    /// The load was still running and the machine was losing.
    Aborted { reason: String },
    /// Never became resident.
    TimedOut,
}

/// One look at a load under way.
#[derive(Debug, Clone, Copy, PartialEq, Eq, Structural)]
pub struct Poll {
    pub machine: Machine,
    pub resident: bool,
    /// Since the load was started.
    pub elapsed_ms: u64,
}

/// An outcome, in texts.
#[verifier::ext_equal]
pub enum Verdict {
    Loaded { took_s: u64 },
    Aborted { reason: Seq<char> },
    TimedOut,
}

pub open spec fn verdict_of(o: Outcome) -> Verdict {
    match o {
        Outcome::Loaded { took_s } => Verdict::Loaded { took_s },
        Outcome::Aborted { reason } => Verdict::Aborted { reason: reason@ },
        Outcome::TimedOut => Verdict::TimedOut,
    }
}

/// How much more swap is in use than before; never below nothing.
pub open spec fn growth(now: u64, before: u64) -> nat {
    if now >= before {
        (now - before) as nat
    } else {
        0
    }
}

/// What one look decides, if anything. Residency first: a load that finished is
/// a load that finished, even if it left the machine tight.
pub open spec fn decides(limits: Limits, baseline_swap: u64, p: Poll) -> Option<Verdict> {
    if p.resident {
        Some(Verdict::Loaded { took_s: p.elapsed_ms / 1000 })
    } else if p.machine.free() < limits.floor_bytes {
        Some(
            Verdict::Aborted {
                reason: "free memory fell to "@ + bytes_text(p.machine.free())
                    + " during the load, below the "@ + bytes_text(limits.floor_bytes as nat)
                    + " floor"@,
            },
        )
    } else if growth(p.machine.swap_used_bytes, baseline_swap) > limits.max_swap_growth_bytes {
        Some(
            Verdict::Aborted {
                reason: "swap grew by "@ + bytes_text(
                    growth(p.machine.swap_used_bytes, baseline_swap),
                ) + " during the load; the machine is already paging"@,
            },
        )
    } else if p.elapsed_ms >= limits.timeout_ms {
        Some(Verdict::TimedOut)
    } else {
        None
    }
}

/// What one look at a load decides, or `None` to look again.
pub fn watch(limits: &Limits, baseline_swap: u64, p: &Poll) -> (r: Option<Outcome>)
    ensures
        match r {
            Some(o) => decides(*limits, baseline_swap, *p) == Some(verdict_of(o)),
            None => decides(*limits, baseline_swap, *p) is None,
        },
{
    if p.resident {
        return Some(Outcome::Loaded { took_s: p.elapsed_ms / 1000 });
    }
    let free = p.machine.free_bytes();
    if free < limits.floor_bytes {
        return Some(
            Outcome::Aborted {
                reason: cat5(
                    "free memory fell to ",
                    human_bytes(free).as_str(),
                    " during the load, below the ",
                    human_bytes(limits.floor_bytes).as_str(),
                    " floor",
                ),
            },
        );
    }
    let swap_growth = p.machine.swap_used_bytes.saturating_sub(baseline_swap);
    if swap_growth > limits.max_swap_growth_bytes {
        return Some(
            Outcome::Aborted {
                reason: cat3(
                    "swap grew by ",
                    human_bytes(swap_growth).as_str(),
                    " during the load; the machine is already paging",
                ),
            },
        );
    }
    if p.elapsed_ms >= limits.timeout_ms {
        return Some(Outcome::TimedOut);
    }
    None
}

/// What a run of looks decides: the first that decides anything does, and a
/// run that never decides has timed out.
pub open spec fn first_verdict(limits: Limits, baseline_swap: u64, polls: Seq<Poll>) -> Verdict
    decreases polls.len(),
{
    if polls.len() == 0 {
        Verdict::TimedOut
    } else {
        match decides(limits, baseline_swap, polls[0]) {
            Some(v) => v,
            None => first_verdict(limits, baseline_swap, polls.drop_first()),
        }
    }
}

/// Watch a load that is already under way, from the looks taken at it in turn.
pub fn supervise(limits: &Limits, baseline_swap: u64, polls: &[Poll]) -> (o: Outcome)
    ensures
        verdict_of(o) == first_verdict(*limits, baseline_swap, polls@),
{
    let mut i: usize = 0;
    proof {
        assert(polls@.skip(0) =~= polls@);
    }
    while i < polls.len()
        invariant
            i <= polls@.len(),
            first_verdict(*limits, baseline_swap, polls@) == first_verdict(
                *limits,
                baseline_swap,
                polls@.skip(i as int),
            ),
        decreases polls.len() - i,
    {
        if let Some(o) = watch(limits, baseline_swap, &polls[i]) {
            return o;
        }
        proof {
            assert(polls@.skip(i as int).drop_first() =~= polls@.skip(i + 1));
        }
        i += 1;
    }
    Outcome::TimedOut
}

/// Swap that was in use before the load is not growth: as long as it does not
/// rise, however much there is, it aborts nothing.
pub proof fn standing_swap_is_not_growth(limits: Limits, baseline_swap: u64, p: Poll)
    requires
        p.machine.swap_used_bytes <= baseline_swap,
        p.machine.free() >= limits.floor_bytes,
    ensures
        !(decides(limits, baseline_swap, p) matches Some(Verdict::Aborted { .. })),
{
}

/// A load that has finished is reported as finished, whatever the pressure.
pub proof fn residency_comes_before_the_limits(limits: Limits, baseline_swap: u64, p: Poll)
    requires
        p.resident,
    ensures
        decides(limits, baseline_swap, p) matches Some(Verdict::Loaded { .. }),
{
}

/// A load that never arrives does not hang: by its timeout, something is decided.
pub proof fn watching_ends(limits: Limits, baseline_swap: u64, p: Poll)
    requires
        p.elapsed_ms >= limits.timeout_ms,
    ensures
        decides(limits, baseline_swap, p) is Some,
{
}

/// What one look decides: a resident model is loaded, whatever the machine says.
/// Otherwise the load is aborted exactly when less is free than the floor, or
/// more swap was taken since it began than may be. Otherwise it is over exactly
/// when its time is, and else nothing is decided.
pub proof fn a_load_is_stopped_only_on_evidence(limits: Limits, baseline_swap: u64, p: Poll)
    ensures
        ({
            let d = decides(limits, baseline_swap, p);
            let low = p.machine.total_bytes < p.machine.used_bytes + limits.floor_bytes
                && limits.floor_bytes > 0;
            let paging = p.machine.swap_used_bytes > baseline_swap + limits.max_swap_growth_bytes;
            &&& (d is Some && d->0 is Loaded) <==> p.resident
            &&& d matches Some(Verdict::Loaded { took_s }) ==> 1000 * took_s <= p.elapsed_ms < 1000
                * took_s + 1000
            &&& (d is Some && d->0 is Aborted) <==> !p.resident && (low || paging)
            &&& (d is Some && d->0 is TimedOut) <==> !p.resident && !low && !paging
                && p.elapsed_ms >= limits.timeout_ms
            &&& d is None <==> !p.resident && !low && !paging && p.elapsed_ms < limits.timeout_ms
        }),
{
}

/// What watching comes to is what the first look that decides anything decides,
/// and that the time ran out where none does.
pub proof fn the_first_look_that_decides_decides(
    limits: Limits,
    baseline_swap: u64,
    polls: Seq<Poll>,
    k: int,
)
    requires
        0 <= k <= polls.len(),
        forall|j: int| 0 <= j < k ==> decides(limits, baseline_swap, #[trigger] polls[j]) is None,
        k < polls.len() ==> decides(limits, baseline_swap, polls[k]) is Some,
    ensures
        k < polls.len() ==> first_verdict(limits, baseline_swap, polls) == decides(
            limits,
            baseline_swap,
            polls[k],
        )->0,
        k == polls.len() ==> first_verdict(limits, baseline_swap, polls) is TimedOut,
    decreases polls.len(),
{
    if k > 0 {
        let rest = polls.drop_first();
        assert(decides(limits, baseline_swap, polls[0]) is None);
        assert forall|j: int| 0 <= j < k - 1 implies decides(
            limits,
            baseline_swap,
            #[trigger] rest[j],
        ) is None by {
            assert(rest[j] == polls[j + 1]);
        }
        if k < polls.len() {
            assert(rest[k - 1] == polls[k]);
        }
        the_first_look_that_decides_decides(limits, baseline_swap, rest, k - 1);
    }
}

/// The ordinary limits: half the reserve for a floor, two gibibytes of swap, and
/// three minutes, looked at four times a second.
pub proof fn half_the_reserve_is_the_floor(reserve_bytes: u64)
    ensures
        ({
            let l = ordinary_limits(reserve_bytes);
            &&& 2 * l.floor_bytes <= reserve_bytes <= 2 * l.floor_bytes + 1
            &&& l.max_swap_growth_bytes == 2 * 1024 * 1024 * 1024
            &&& l.timeout_ms == 3 * 60 * 1000
            &&& 4 * l.poll_ms == 1000
        }),
{
}

} // verus!
