//! What a provider costs with nothing loaded.
//!
//! Summing per-model footprints counts each provider's own overhead once per
//! model it holds, and that overhead is large enough to decide a set.
//!
//! The figure charged is the 99th percentile of the idle readings and not the
//! maximum: the tail is a handful of isolated spikes that grows with the
//! corpus, so a baseline taken from the maximum would drift upward forever.
use vstd::prelude::*;

use crate::config::all_kinds;
use crate::provider::ProviderKind;
use crate::record::Observation;
use crate::seqs::{
    lemma_filter_take, lemma_stable_sort, lemma_stable_sort_contains, ordered, sort_with,
    stable_sort, total_preorder,
};

verus! {

/// Below this many idle readings, the figure is reported but marked.
pub const THIN_SAMPLES: usize = 10;

#[derive(Debug, Clone, Copy, PartialEq, Eq, Structural)]
pub struct Baseline {
    pub provider: ProviderKind,
    /// The figure to charge: p99 of the idle readings.
    pub bytes: u64,
    /// The middle of the distribution, carried so a report can show how far
    /// the charged figure sits above the usual case.
    pub p50_bytes: u64,
    pub samples: usize,
    /// Fewer than [`THIN_SAMPLES`] readings.
    pub thin: bool,
}

/// A reading of a provider that held nothing, and that could be attributed.
pub open spec fn is_idle(o: Observation, provider: ProviderKind) -> bool {
    o.provider == provider && o.loaded == 0 && o.attributable
}

/// The idle footprints of a provider, in the order they were recorded.
pub open spec fn idle_readings(corpus: Seq<Observation>, provider: ProviderKind) -> Seq<u64> {
    corpus.filter(|o: Observation| is_idle(o, provider)).map_values(
        |o: Observation| o.footprint_bytes,
    )
}

/// The readings in ascending order.
pub open spec fn ascending(s: Seq<u64>) -> Seq<u64> {
    stable_sort(s, |a: u64, b: u64| a <= b)
}

/// The nearest-rank percentile of `n` readings, counted from one: the least
/// rank that `percent` of them do not exceed, and at least the first.
pub open spec fn nearest_rank(n: nat, percent: nat) -> nat {
    let r = (n * percent + 99) / 100;
    if r == 0 {
        1
    } else if r > n {
        n
    } else {
        r
    }
}

/// The reading at a percentile. Deliberately not interpolated: an interpolated
/// percentile invents a value that was never observed.
pub open spec fn percentile_of(s: Seq<u64>, percent: nat) -> u64 {
    ascending(s)[nearest_rank(s.len(), percent) - 1]
}

/// The reading at `percent` of readings already in ascending order.
pub fn percentile(sorted: &Vec<u64>, percent: u64) -> (r: u64)
    requires
        sorted@.len() > 0,
        percent <= 100,
    ensures
        r == sorted@[nearest_rank(sorted@.len(), percent as nat) - 1],
{
    let n: usize = sorted.len();
    proof {
        assert(n * percent <= n * 100) by (nonlinear_arith)
            requires
                percent <= 100,
        ;
    }
    let wide: u128 = (n as u128 * percent as u128 + 99) / 100;
    proof {
        assert(wide == (n as nat * percent as nat + 99) / 100);
    }
    let rank: usize = if wide == 0 {
        1
    } else if wide > n as u128 {
        n
    } else {
        wide as usize
    };
    sorted[rank - 1]
}

/// The baseline a list of idle readings gives.
pub open spec fn baseline_of(provider: ProviderKind, idle: Seq<u64>) -> Option<Baseline> {
    if idle.len() == 0 {
        None
    } else {
        Some(
            Baseline {
                provider,
                bytes: percentile_of(idle, 99),
                p50_bytes: percentile_of(idle, 50),
                samples: idle.len() as usize,
                thin: idle.len() < THIN_SAMPLES,
            },
        )
    }
}

/// The baseline for one provider, or `None` if it has never been seen idle.
///
/// An observation counts only when the provider held nothing *and* the reading
/// could be attributed.
pub fn from_corpus(corpus: &[Observation], provider: ProviderKind) -> (r: Option<Baseline>)
    ensures
        r == baseline_of(provider, idle_readings(corpus@, provider)),
{
    let ghost p = |o: Observation| is_idle(o, provider);
    let ghost f = |o: Observation| o.footprint_bytes;
    let mut idle: Vec<u64> = Vec::new();
    let mut i: usize = 0;
    while i < corpus.len()
        invariant
            i <= corpus.len(),
            p == (|o: Observation| is_idle(o, provider)),
            f == (|o: Observation| o.footprint_bytes),
            idle@ =~= corpus@.take(i as int).filter(p).map_values(f),
        decreases corpus.len() - i,
    {
        proof {
            lemma_filter_take(corpus@, p, i as int);
        }
        let o = &corpus[i];
        if o.provider == provider && o.loaded == 0 && o.attributable {
            idle.push(o.footprint_bytes);
        }
        i += 1;
    }
    proof {
        assert(corpus@.take(i as int) =~= corpus@);
    }
    if idle.len() == 0 {
        return None;
    }
    let samples: usize = idle.len();
    let le = |a: &u64, b: &u64| -> (r: bool)
        ensures
            r == (*a <= *b),
    {
        *a <= *b
    };
    let ghost readings = idle@;
    let sorted = sort_with(idle, le, Ghost(|a: u64, b: u64| a <= b));
    proof {
        lemma_stable_sort(readings, |a: u64, b: u64| a <= b);
    }
    Some(
        Baseline {
            provider,
            bytes: percentile(&sorted, 99),
            p50_bytes: percentile(&sorted, 50),
            samples,
            thin: samples < THIN_SAMPLES,
        },
    )
}

/// Every provider that has ever been observed idle, in reporting order.
pub fn all(corpus: &[Observation]) -> (r: Vec<Baseline>)
    ensures
        r@ == all_kinds().filter_map(
            |k: ProviderKind| baseline_of(k, idle_readings(corpus@, k)),
        ),
{
    let ghost f = |k: ProviderKind| baseline_of(k, idle_readings(corpus@, k));
    let kinds = [
        ProviderKind::LmStudio,
        ProviderKind::Ollama,
        ProviderKind::LlamaCpp,
        ProviderKind::Vllm,
    ];
    let mut out: Vec<Baseline> = Vec::new();
    let mut i: usize = 0;
    proof {
        assert(all_kinds().take(0).filter_map(f) =~= Seq::<Baseline>::empty());
    }
    while i < 4
        invariant
            i <= 4,
            kinds@ == all_kinds(),
            f == (|k: ProviderKind| baseline_of(k, idle_readings(corpus@, k))),
            out@ == all_kinds().take(i as int).filter_map(f),
        decreases 4 - i,
    {
        proof {
            all_kinds().lemma_filter_map_take_succ(f, i as int);
        }
        if let Some(b) = from_corpus(corpus, kinds[i]) {
            out.push(b);
        }
        proof {
            assert(out@ =~= all_kinds().take(i + 1).filter_map(f));
        }
        i += 1;
    }
    proof {
        assert(all_kinds().take(4) =~= all_kinds());
    }
    out
}

/// The charged figure is never below the median, and both are readings that
/// were actually taken.
pub proof fn the_figure_is_a_reading_and_never_below_the_median(
    provider: ProviderKind,
    idle: Seq<u64>,
)
    requires
        idle.len() > 0,
    ensures
        baseline_of(provider, idle) matches Some(b) && b.p50_bytes <= b.bytes && idle.contains(
            b.bytes,
        ) && idle.contains(b.p50_bytes),
{
    let le = |a: u64, b: u64| a <= b;
    let s = ascending(idle);
    lemma_stable_sort(idle, le);
    assert(total_preorder(le));
    assert(ordered(s, le));
    let hi = nearest_rank(idle.len(), 99) - 1;
    let lo = nearest_rank(idle.len(), 50) - 1;
    assert(0 <= lo <= hi < s.len());
    if lo < hi {
        assert(le(s[lo], s[hi]));
    }
    lemma_stable_sort_contains(idle, le, s[hi]);
    lemma_stable_sort_contains(idle, le, s[lo]);
}

/// A lone spike does not set the figure: of a hundred readings or more, at
/// least one may lie above the one that is charged.
pub proof fn a_lone_spike_does_not_set_the_figure(n: nat)
    requires
        n >= 100,
    ensures
        nearest_rank(n, 99) < n,
{
}

/// One provider's readings never price another's: what other providers
/// recorded does not change a baseline.
pub proof fn baselines_do_not_leak(
    corpus: Seq<Observation>,
    provider: ProviderKind,
    other: Observation,
)
    requires
        other.provider != provider,
    ensures
        idle_readings(corpus.push(other), provider) == idle_readings(corpus, provider),
{
    let p = |o: Observation| is_idle(o, provider);
    corpus.lemma_filter_push(other, p);
}

} // verus!
