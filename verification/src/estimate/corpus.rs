//! The observations on record.
use vstd::prelude::*;

use crate::record::{Observation, OBSERVATION_SCHEMA};
use crate::seqs::lemma_filter_take;

verus! {

/// Every readable observation of the current schema, in order.
///
/// The corpus is append-only and outlives any single build, so a record from
/// an older schema is skipped rather than allowed to discard what follows it.
pub fn current(read: Vec<Observation>) -> (kept: Vec<Observation>)
    ensures
        kept@ == read@.filter(|o: Observation| o.schema == OBSERVATION_SCHEMA),
{
    let ghost p = |o: Observation| o.schema == OBSERVATION_SCHEMA;
    let ghost all = read@;
    let mut rest = read;
    let mut kept: Vec<Observation> = Vec::new();
    let ghost mut i: int = 0;
    while rest.len() > 0
        invariant
            0 <= i <= all.len(),
            rest@ == all.skip(i),
            p == (|o: Observation| o.schema == OBSERVATION_SCHEMA),
            kept@ == all.take(i).filter(p),
        decreases rest.len(),
    {
        let o = rest.remove(0);
        proof {
            lemma_filter_take(all, p, i);
            assert(rest@ =~= all.skip(i + 1));
            i = i + 1;
        }
        if o.schema == OBSERVATION_SCHEMA {
            kept.push(o);
        }
    }
    proof {
        assert(all.take(i) =~= all);
    }
    kept
}

/// One more record is kept exactly when it is of the schema that is read, and
/// none is dropped for what another is.
pub proof fn only_an_old_record_is_skipped(read: Seq<Observation>, o: Observation)
    ensures
        read.push(o).filter(|o: Observation| o.schema == OBSERVATION_SCHEMA) == if o.schema == 1 {
            read.filter(|o: Observation| o.schema == OBSERVATION_SCHEMA).push(o)
        } else {
            read.filter(|o: Observation| o.schema == OBSERVATION_SCHEMA)
        },
{
    read.lemma_filter_push(o, |o: Observation| o.schema == OBSERVATION_SCHEMA);
}

} // verus!
