//! Measurements worth keeping.
use vstd::prelude::*;

use crate::ledger::{resident_of, Ledger, Outcome, ProviderRow};
use crate::memory::ProcessSample;
use crate::provider::ProviderKind;
use crate::seqs::lemma_filter_take;

verus! {

/// The shape of an observation. A reader refuses one it does not know.
pub const OBSERVATION_SCHEMA: u32 = 1;

/// One provider's memory cost at one instant.
///
/// The valuable shapes are `loaded == 0` (a provider's idle baseline) and
/// `loaded == 1` (a footprint attributable to exactly one model at a known
/// context).
#[derive(Debug)]
pub struct Observation {
    pub schema: u32,
    /// Unix seconds.
    pub at: u64,
    pub provider: ProviderKind,
    pub loaded: usize,
    /// Set only when exactly one model is resident.
    pub model: Option<String>,
    /// The serving window, never a capability figure.
    pub context_tokens: Option<u32>,
    /// True when the footprint can be assigned: no models, or exactly one.
    pub attributable: bool,
    /// `max(phys_footprint, rss)` per process, summed.
    pub footprint_bytes: u64,
    pub phys_footprint_bytes: Option<u64>,
    pub rss_bytes: Option<u64>,
    pub machine_total_bytes: u64,
    pub machine_used_bytes: u64,
    pub swap_used_bytes: u64,
    /// Per-process breakdown, for attribution.
    pub processes: Vec<ProcessSample>,
}

/// A row that can be observed: the provider answered and its processes could be read.
pub open spec fn measurable(r: ProviderRow) -> bool {
    r.outcome is Answered && r.footprint_bytes is Some
}

/// What is observed of one row.
pub open spec fn observed(o: Observation, r: ProviderRow, l: Ledger, at: u64) -> bool {
    let resident = resident_of(r.outcome);
    &&& o.schema == OBSERVATION_SCHEMA
    &&& o.at == at
    &&& o.provider == r.kind
    &&& o.loaded == resident.len()
    &&& o.attributable == (resident.len() <= 1)
    &&& o.model == if resident.len() == 1 {
        Some(resident[0].id)
    } else {
        None
    }
    &&& o.context_tokens == if resident.len() == 1 {
        resident[0].context_tokens
    } else {
        None
    }
    &&& Some(o.footprint_bytes) == r.footprint_bytes
    &&& o.phys_footprint_bytes == r.phys_footprint_bytes
    &&& o.rss_bytes == r.rss_bytes
    &&& o.machine_total_bytes == l.machine.total_bytes
    &&& o.machine_used_bytes == l.machine.used_bytes
    &&& o.swap_used_bytes == l.machine.swap_used_bytes
    &&& o.processes@ == r.processes@
}

fn observe(row: &ProviderRow, ledger: &Ledger, at: u64, footprint_bytes: u64) -> (o: Observation)
    requires
        row.footprint_bytes == Some(footprint_bytes),
    ensures
        observed(o, *row, *ledger, at),
{
    let resident = row.loaded();
    let loaded: usize = resident.len();
    let mut model: Option<String> = None;
    let mut context_tokens: Option<u32> = None;
    if loaded == 1 {
        proof {
            assert(*resident@[0] == resident@.unref()[0]);
        }
        model = Some(resident[0].id.clone());
        context_tokens = resident[0].context_tokens;
    }
    let processes = row.processes.clone();
    proof {
        assert(processes@ =~= row.processes@);
    }
    Observation {
        schema: OBSERVATION_SCHEMA,
        at,
        provider: row.kind,
        loaded,
        model,
        context_tokens,
        attributable: loaded <= 1,
        footprint_bytes,
        phys_footprint_bytes: row.phys_footprint_bytes,
        rss_bytes: row.rss_bytes,
        machine_total_bytes: ledger.machine.total_bytes,
        machine_used_bytes: ledger.machine.used_bytes,
        swap_used_bytes: ledger.machine.swap_used_bytes,
        processes,
    }
}

/// Observations worth keeping from one ledger.
///
/// A provider that did not answer, or whose processes could not be read,
/// yields nothing: an observation without a measurement is not an observation.
pub fn observations(ledger: &Ledger, at: u64) -> (out: Vec<Observation>)
    ensures
        out@.len() == ledger.rows@.filter(|r: ProviderRow| measurable(r)).len(),
        forall|i: int|
            0 <= i < out@.len() ==> observed(
                #[trigger] out@[i],
                ledger.rows@.filter(|r: ProviderRow| measurable(r))[i],
                *ledger,
                at,
            ),
{
    let ghost p = |r: ProviderRow| measurable(r);
    let ghost rows = ledger.rows@;
    let mut out: Vec<Observation> = Vec::new();
    let mut i: usize = 0;
    while i < ledger.rows.len()
        invariant
            i <= ledger.rows.len(),
            rows == ledger.rows@,
            p == (|r: ProviderRow| measurable(r)),
            out@.len() == rows.take(i as int).filter(p).len(),
            forall|j: int|
                0 <= j < out@.len() ==> observed(
                    #[trigger] out@[j],
                    rows.take(i as int).filter(p)[j],
                    *ledger,
                    at,
                ),
        decreases ledger.rows.len() - i,
    {
        let row = &ledger.rows[i];
        proof {
            lemma_filter_take(rows, p, i as int);
        }
        let answered = match &row.outcome {
            Outcome::Answered(_) => true,
            Outcome::Failed(_) => false,
        };
        if answered {
            if let Some(footprint_bytes) = row.footprint_bytes {
                out.push(observe(row, ledger, at, footprint_bytes));
            }
        }
        i += 1;
    }
    proof {
        assert(rows.take(i as int) =~= rows);
    }
    out
}

} // verus!
