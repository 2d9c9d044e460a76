//! The estimate ladder.
use vstd::prelude::*;

use crate::estimate::attribute::{attributed, model_bytes};
use crate::record::Observation;
use crate::seqs::{largest, lemma_largest, lemma_smallest, max_of, min_of, smallest};
use crate::text::{opt_text, same};

verus! {

/// How an estimate was reached: measured over computed over declared.
#[derive(Debug, Clone, Copy, PartialEq, Eq, Structural)]
pub enum Basis {
    /// Real observations of this exact shape.
    Measured,
    /// Derived from the artifact's own geometry: weights, plus the KV cache at
    /// the requested window, plus a margin. Bias-high and never observed.
    Computed,
    /// A figure the provider or the disk ledger declares.
    ///
    /// **A floor, never a peak.** It covers weights only.
    Declared,
    /// Never seen and nothing declared. Not a number.
    Unknown,
}

#[derive(Debug, Clone, Copy, PartialEq, Eq, Structural)]
pub struct Estimate {
    pub bytes: Option<u64>,
    pub basis: Basis,
    pub samples: usize,
    /// Largest minus smallest measurement. A wide spread is a warning that the
    /// shape is not as fixed as it looks.
    pub spread_bytes: Option<u64>,
}

/// No figure at all.
pub open spec fn no_estimate() -> Estimate {
    Estimate { bytes: None, basis: Basis::Unknown, samples: 0, spread_bytes: None }
}

impl Estimate {
    pub fn unknown() -> (e: Estimate)
        ensures
            e == no_estimate(),
    {
        Estimate { bytes: None, basis: Basis::Unknown, samples: 0, spread_bytes: None }
    }
}

/// A declared figure in place of no figure; anything better stands.
pub open spec fn or_declared(measured: Estimate, declared: Option<u64>) -> Estimate {
    if measured.basis != Basis::Unknown {
        measured
    } else {
        match declared {
            Some(b) => Estimate {
                bytes: Some(b),
                basis: Basis::Declared,
                samples: 0,
                spread_bytes: None,
            },
            None => measured,
        }
    }
}

/// The best rung there is.
pub open spec fn best_of(measured: Estimate, computed: Estimate, declared: Option<u64>) -> Estimate {
    if measured.basis != Basis::Unknown {
        measured
    } else if computed.basis != Basis::Unknown {
        computed
    } else {
        or_declared(measured, declared)
    }
}

/// The estimate ladder: measured, then computed, then declared.
///
/// A declared figure is still *returned*, because saying "about 9 GB, from the
/// file size" beats saying nothing. It is simply not something a plan will
/// admit on, and the label is how the caller can tell.
pub fn ladder(measured: Estimate, computed: Estimate, declared_bytes: Option<u64>) -> (e: Estimate)
    ensures
        e == best_of(measured, computed, declared_bytes),
{
    if measured.basis != Basis::Unknown {
        return measured;
    }
    if computed.basis != Basis::Unknown {
        return computed;
    }
    with_declared(measured, declared_bytes)
}

/// Fall back to a declared figure when nothing better exists.
pub fn with_declared(measured: Estimate, declared_bytes: Option<u64>) -> (e: Estimate)
    ensures
        e == or_declared(measured, declared_bytes),
{
    if measured.basis != Basis::Unknown {
        return measured;
    }
    match declared_bytes {
        Some(b) => Estimate {
            bytes: Some(b),
            basis: Basis::Declared,
            samples: 0,
            spread_bytes: None,
        },
        None => measured,
    }
}

/// Swap in use above which an observation stops being a measurement.
///
/// A resident-set reading taken while the machine is paging records what
/// survived eviction, not what the model wanted, so it is an **under-count**.
/// One gibibyte rather than zero because some swap stays allocated in ordinary
/// operation.
pub const TRUSTWORTHY_SWAP_CEILING_BYTES: u64 = 1024 * 1024 * 1024;

/// Was the machine calm enough for this reading to mean anything?
pub fn is_trustworthy(o: &Observation) -> (r: bool)
    ensures
        r == (o.swap_used_bytes <= TRUSTWORTHY_SWAP_CEILING_BYTES),
{
    o.swap_used_bytes <= TRUSTWORTHY_SWAP_CEILING_BYTES
}

/// What one observation measures of a model at a window, if anything. Asking
/// for no window takes every window.
pub open spec fn measures(o: Observation, model: Seq<char>, window: Option<u32>) -> Option<u64> {
    if o.swap_used_bytes <= TRUSTWORTHY_SWAP_CEILING_BYTES && opt_text(o.model) == Some(model) && (
    window is None || o.context_tokens == window) {
        attributed(o)
    } else {
        None
    }
}

/// Every measurement of a model at a window.
pub open spec fn measurements(
    corpus: Seq<Observation>,
    model: Seq<char>,
    window: Option<u32>,
) -> Seq<u64> {
    corpus.filter_map(|o: Observation| measures(o, model, window))
}

/// What the measurements come to: the high-water mark, how many there are and
/// how far apart they lie.
pub open spec fn measured(m: Seq<u64>) -> Estimate {
    match (largest(m), smallest(m)) {
        (Some(max), Some(min)) => Estimate {
            bytes: Some(max),
            basis: Basis::Measured,
            samples: m.len() as usize,
            spread_bytes: Some((max - min) as u64),
        },
        _ => no_estimate(),
    }
}

/// What this model costs, if it has been seen.
///
/// `context_tokens: None` asks about the worst case seen for the model at any
/// window. A specific window matches only that window: KV cache scales with
/// context, and interpolating between two windows would produce a number
/// nothing measured.
pub fn for_model(corpus: &[Observation], model: &str, context_tokens: Option<u32>) -> (e: Estimate)
    ensures
        e == measured(measurements(corpus@, model@, context_tokens)),
{
    let ghost f = |o: Observation| measures(o, model@, context_tokens);
    let mut found: Vec<u64> = Vec::new();
    let mut i: usize = 0;
    proof {
        assert(corpus@.take(0).filter_map(f) =~= Seq::<u64>::empty());
    }
    while i < corpus.len()
        invariant
            i <= corpus.len(),
            f == (|o: Observation| measures(o, model@, context_tokens)),
            found@ == corpus@.take(i as int).filter_map(f),
        decreases corpus.len() - i,
    {
        proof {
            corpus@.lemma_filter_map_take_succ(f, i as int);
        }
        let o = &corpus[i];
        let named: bool = match &o.model {
            Some(m) => same(m.as_str(), model),
            None => false,
        };
        let windowed: bool = match context_tokens {
            Some(want) => match o.context_tokens {
                Some(had) => had == want,
                None => false,
            },
            None => true,
        };
        if is_trustworthy(o) && named && windowed {
            if let Some(b) = model_bytes(o) {
                found.push(b);
            }
        }
        proof {
            assert(found@ =~= corpus@.take(i + 1).filter_map(f));
        }
        i += 1;
    }
    proof {
        assert(corpus@.take(i as int) =~= corpus@);
        lemma_largest(found@);
        lemma_smallest(found@);
    }
    match (max_of(&found), min_of(&found)) {
        (Some(max), Some(min)) => Estimate {
            bytes: Some(max),
            basis: Basis::Measured,
            samples: found.len(),
            spread_bytes: Some(max - min),
        },
        _ => Estimate::unknown(),
    }
}

/// An estimate of a model is at least every measurement it rests on: admitting
/// by it never admits below what has been seen.
pub proof fn an_estimate_is_never_below_a_measurement(
    corpus: Seq<Observation>,
    model: Seq<char>,
    window: Option<u32>,
    i: int,
)
    requires
        0 <= i < measurements(corpus, model, window).len(),
    ensures
        measured(measurements(corpus, model, window)).bytes matches Some(b) && measurements(
            corpus,
            model,
            window,
        )[i] <= b,
{
    lemma_largest(measurements(corpus, model, window));
    lemma_smallest(measurements(corpus, model, window));
}

/// A window nothing was measured at is unknown, whatever was measured at others.
pub proof fn an_unseen_window_is_unknown(corpus: Seq<Observation>, model: Seq<char>, window: u32)
    requires
        forall|i: int|
            0 <= i < corpus.len() ==> (#[trigger] corpus[i]).context_tokens != Some(window),
    ensures
        measured(measurements(corpus, model, Some(window))) == no_estimate(),
    decreases corpus.len(),
{
    if corpus.len() > 0 {
        let rest = corpus.drop_last();
        assert forall|i: int| 0 <= i < rest.len() implies (#[trigger] rest[i]).context_tokens
            != Some(window) by {
            assert(corpus[i].context_tokens != Some(window));
        }
        an_unseen_window_is_unknown(rest, model, window);
        assert(corpus[corpus.len() - 1].context_tokens != Some(window));
        lemma_largest(measurements(rest, model, Some(window)));
    }
}

/// The ladder never prefers a lower rung: a measurement beats anything, a
/// computation beats a declared figure, and the answer is unknown only when
/// there is nothing at all.
pub proof fn the_ladder_ranks(measured: Estimate, computed: Estimate, declared: Option<u64>)
    ensures
        measured.basis != Basis::Unknown ==> best_of(measured, computed, declared) == measured,
        measured.basis == Basis::Unknown && computed.basis != Basis::Unknown ==> best_of(
            measured,
            computed,
            declared,
        ) == computed,
        best_of(measured, computed, declared).basis == Basis::Unknown <==> measured.basis
            == Basis::Unknown && computed.basis == Basis::Unknown && declared is None,
{
}

} // verus!
