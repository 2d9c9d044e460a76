//! Which part of a provider's footprint is the model.
use vstd::prelude::*;

use crate::memory::ProcessSample;
use crate::record::Observation;
use crate::seqs::{largest, lemma_map_take, max_of};

verus! {

/// The footprints of a list of processes.
pub open spec fn footprints(s: Seq<ProcessSample>) -> Seq<u64> {
    s.map_values(|p: ProcessSample| p.footprint_bytes)
}

/// What one observation says its resident model costs.
pub open spec fn attributed(o: Observation) -> Option<u64> {
    if o.loaded != 1 || !o.attributable {
        None
    } else {
        largest(footprints(o.processes@))
    }
}

/// What the resident model costs, from one observation.
///
/// The rule is the largest process in the provider's tree: a provider mixes a
/// shell with a backend, and the backend holding the weights dwarfs it.
///
/// `None` whenever the answer would be a guess: no model resident, more than
/// one resident, or an observation with no per-process detail.
pub fn model_bytes(o: &Observation) -> (r: Option<u64>)
    ensures
        r == attributed(*o),
{
    if o.loaded != 1 || !o.attributable {
        return None;
    }
    let ghost f = |p: ProcessSample| p.footprint_bytes;
    let mut sizes: Vec<u64> = Vec::new();
    let mut i: usize = 0;
    while i < o.processes.len()
        invariant
            i <= o.processes.len(),
            f == (|p: ProcessSample| p.footprint_bytes),
            sizes@ =~= o.processes@.take(i as int).map_values(f),
        decreases o.processes.len() - i,
    {
        proof {
            lemma_map_take(o.processes@, f, i as int);
        }
        sizes.push(o.processes[i].footprint_bytes);
        i += 1;
    }
    proof {
        assert(o.processes@.take(i as int) =~= o.processes@);
    }
    max_of(&sizes)
}

} // verus!
