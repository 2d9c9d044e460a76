//! What an estimate promises, in terms of what was observed, declared and asked.
use vstd::prelude::*;

use crate::config::{Config, ProviderConfig};
use crate::estimate::attribute::{attributed, footprints};
use crate::estimate::baseline::{ascending, baseline_of, idle_readings, is_idle, nearest_rank};
use crate::estimate::computed::priced;
use crate::estimate::estimator::{
    best_of, measured, measurements, measures, or_declared, Basis, Estimate,
};
use crate::estimate::price::{
    cache_width, computed_price, declared_weight, file_weight, first_computed, first_declared,
    is_entry, is_model, is_row, said_weight,
};
use crate::estimate::shape::ModelShape;
use crate::inventory::artifact::Artifact;
use crate::inventory::{artifact_at, has_id};
use crate::ledger::{resident_of, Ledger, Outcome, ProviderRow};
use crate::provider::{LoadedModel, ProviderKind, State};
use crate::record::{observed, Observation};
use crate::resolve::identity::Candidate;
use crate::seqs::{
    first_index, largest, lemma_count_through, lemma_filter_count, lemma_filter_map_count,
    lemma_filter_map_members, lemma_filter_places, lemma_first_index, lemma_largest,
    lemma_smallest, lemma_sort_places, lemma_stable_sort, ordered, smallest, total_preorder,
};

verus! {

/// Whether an observation is a measurement of a model at a window: taken with at
/// most a gibibyte of swap in use, while that model was the only one resident and
/// the reading could be attributed, with at least one process read. Asking for no
/// window takes every window.
pub open spec fn is_reading(o: Observation, model: Seq<char>, window: Option<u32>) -> bool {
    &&& o.swap_used_bytes <= 0x4000_0000
    &&& o.model is Some && o.model->0@ == model
    &&& window is None || o.context_tokens == window
    &&& o.loaded == 1
    &&& o.attributable
    &&& o.processes@.len() > 0
}

/// Whether a figure is the footprint of the largest process of an observation.
pub open spec fn peaks_at(o: Observation, b: u64) -> bool {
    &&& exists|k: int|
        0 <= k < o.processes@.len() && (#[trigger] o.processes@[k]).footprint_bytes == b
    &&& forall|k: int|
        0 <= k < o.processes@.len() ==> (#[trigger] o.processes@[k]).footprint_bytes <= b
}

proof fn lemma_reading(o: Observation, model: Seq<char>, window: Option<u32>)
    ensures
        measures(o, model, window) is Some <==> is_reading(o, model, window),
        forall|b: u64|
            measures(o, model, window) == Some(b) ==> #[trigger] peaks_at(o, b),
        forall|b: u64|
            is_reading(o, model, window) && #[trigger] peaks_at(o, b) ==> measures(o, model, window)
                == Some(b),
{
    let f = footprints(o.processes@);
    lemma_largest(f);
    assert(f.len() == o.processes@.len());
    if let Some(b) = measures(o, model, window) {
        let k = f.index_of(b);
        assert(o.processes@[k].footprint_bytes == b);
        assert forall|k: int| 0 <= k < o.processes@.len() implies (
        #[trigger] o.processes@[k]).footprint_bytes <= b by {
            assert(f[k] <= b);
        }
        assert forall|c: u64| #[trigger] peaks_at(o, c) implies c == b by {
            let j = choose|j: int|
                0 <= j < o.processes@.len() && (#[trigger] o.processes@[j]).footprint_bytes == c;
            assert(f[j] <= b);
            assert(o.processes@[k].footprint_bytes <= c);
        }
    }
}

/// What was measured of a model is the highest of its readings: each reading
/// counts the largest process of the provider, nothing that is no reading counts,
/// and where there is none nothing is known. The spread is how far the lowest
/// reading lies below the highest, and the samples are all the readings.
#[verifier::rlimit(40)]
pub proof fn a_measured_estimate_is_the_highest_reading(
    corpus: Seq<Observation>,
    model: Seq<char>,
    window: Option<u32>,
)
    requires
        corpus.len() <= usize::MAX,
    ensures
        ({
            let e = measured(measurements(corpus, model, window));
            let any = exists|i: int|
                0 <= i < corpus.len() && is_reading(#[trigger] corpus[i], model, window);
            &&& e.basis == Basis::Measured <==> any
            &&& !any ==> e.basis == Basis::Unknown && e.bytes is None && e.samples == 0
                && e.spread_bytes is None
            &&& any ==> e.bytes is Some && e.spread_bytes is Some && e.spread_bytes->0
                <= e.bytes->0
            &&& any ==> exists|i: int|
                0 <= i < corpus.len() && is_reading(#[trigger] corpus[i], model, window) && peaks_at(
                    corpus[i],
                    e.bytes->0,
                )
            &&& any ==> exists|i: int|
                0 <= i < corpus.len() && is_reading(#[trigger] corpus[i], model, window) && peaks_at(
                    corpus[i],
                    (e.bytes->0 - e.spread_bytes->0) as u64,
                )
            &&& forall|i: int, b: u64|
                0 <= i < corpus.len() && is_reading(#[trigger] corpus[i], model, window)
                    && #[trigger] peaks_at(corpus[i], b) ==> e.bytes->0 - e.spread_bytes->0 <= b
                    <= e.bytes->0
            &&& e.samples == Set::<int>::new(
                |i: int| 0 <= i < corpus.len() && is_reading(corpus[i], model, window),
            ).len()
        }),
{
    let f = |o: Observation| measures(o, model, window);
    let m = measurements(corpus, model, window);
    lemma_filter_map_members(corpus, f);
    lemma_filter_map_count(corpus, f);
    lemma_largest(m);
    lemma_smallest(m);
    assert forall|i: int| 0 <= i < corpus.len() implies (f(#[trigger] corpus[i]) is Some
        <==> is_reading(corpus[i], model, window)) by {
        lemma_reading(corpus[i], model, window);
    }
    assert(Set::<int>::new(|k: int| 0 <= k < corpus.len() && f(corpus[k]) is Some)
        =~= Set::<int>::new(
        |i: int| 0 <= i < corpus.len() && is_reading(corpus[i], model, window),
    ));
    lemma_few(corpus, model, window);
    let e = measured(m);
    if m.len() > 0 {
        let hi = m.index_of(largest(m)->0);
        let lo = m.index_of(smallest(m)->0);
        let a = choose|i: int| 0 <= i < corpus.len() && f(#[trigger] corpus[i]) == Some(m[hi]);
        let b = choose|i: int| 0 <= i < corpus.len() && f(#[trigger] corpus[i]) == Some(m[lo]);
        lemma_reading(corpus[a], model, window);
        lemma_reading(corpus[b], model, window);
        assert(m[lo] <= m[hi]);
        assert(peaks_at(corpus[a], m[hi]));
        assert(peaks_at(corpus[b], m[lo]));
        assert((e.bytes->0 - e.spread_bytes->0) as u64 == m[lo]);
    } else {
        if exists|i: int| 0 <= i < corpus.len() && is_reading(#[trigger] corpus[i], model, window) {
            let i = choose|i: int|
                0 <= i < corpus.len() && is_reading(#[trigger] corpus[i], model, window);
            assert(f(corpus[i]) is Some);
            assert(m.contains(f(corpus[i])->0));
        }
    }
    assert forall|i: int, b: u64|
        0 <= i < corpus.len() && is_reading(#[trigger] corpus[i], model, window)
            && #[trigger] peaks_at(corpus[i], b) implies e.bytes->0 - e.spread_bytes->0 <= b
        <= e.bytes->0 by {
        lemma_reading(corpus[i], model, window);
        assert(f(corpus[i]) == Some(b));
        assert(m.contains(b));
        let k = m.index_of(b);
        assert(m[k] == b);
    }
}

/// There are no more measurements than observations.
proof fn lemma_few(corpus: Seq<Observation>, model: Seq<char>, window: Option<u32>)
    ensures
        measurements(corpus, model, window).len() <= corpus.len(),
    decreases corpus.len(),
{
    if corpus.len() > 0 {
        lemma_few(corpus.drop_last(), model, window);
    } else {
        assert(measurements(corpus, model, window) =~= Seq::<u64>::empty());
    }
}

/// A better rung always stands: what was measured, whatever was computed or
/// declared; then what was computed; then a declared figure, as a declared one
/// and with no samples behind it. Without any of them nothing is known.
pub proof fn a_better_rung_always_stands(measured: Estimate, computed: Estimate, declared: Option<u64>)
    ensures
        ({
            let e = best_of(measured, computed, declared);
            &&& measured.basis != Basis::Unknown ==> e == measured
            &&& measured.basis == Basis::Unknown && computed.basis != Basis::Unknown ==> e
                == computed
            &&& measured.basis == Basis::Unknown && computed.basis == Basis::Unknown
                && declared is Some ==> e.bytes == declared && e.basis == Basis::Declared
                && e.samples == 0 && e.spread_bytes is None
            &&& measured.basis == Basis::Unknown && computed.basis == Basis::Unknown
                && declared is None ==> e == measured
        }),
        ({
            let e = or_declared(measured, declared);
            &&& measured.basis != Basis::Unknown || declared is None ==> e == measured
            &&& measured.basis == Basis::Unknown && declared is Some ==> e.bytes == declared
                && e.basis == Basis::Declared && e.samples == 0 && e.spread_bytes is None
        }),
{
}

/// A count of readings that a test holds of is one of observations.
proof fn lemma_idle_count(corpus: Seq<Observation>, provider: ProviderKind, t: spec_fn(u64) -> bool)
    ensures
        ({
            let s = ascending(idle_readings(corpus, provider));
            &&& Set::<int>::new(|k: int| 0 <= k < s.len() && t(s[k])).finite()
            &&& Set::<int>::new(|k: int| 0 <= k < s.len() && t(s[k])).len() == Set::<int>::new(
                |i: int|
                    0 <= i < corpus.len() && is_idle(corpus[i], provider) && t(
                        corpus[i].footprint_bytes,
                    ),
            ).len()
        }),
{
    let p = |o: Observation| is_idle(o, provider);
    let le = |a: u64, b: u64| a <= b;
    let idle = idle_readings(corpus, provider);
    let s = ascending(idle);
    let from = lemma_filter_places(corpus, p);
    let to = lemma_sort_places(idle, le);
    let at = Seq::new(s.len(), |k: int| from[to[k]]);
    assert forall|k: int| 0 <= k < at.len() implies 0 <= #[trigger] at[k] < corpus.len() && is_idle(
        corpus[at[k]],
        provider,
    ) && s[k] == corpus[at[k]].footprint_bytes by {
        assert(0 <= to[k] < idle.len());
        assert(0 <= from[to[k]] < corpus.len());
        assert(idle[to[k]] == s[k]);
        assert(idle[to[k]] == corpus.filter(p)[to[k]].footprint_bytes);
    }
    assert(at.no_duplicates()) by {
        assert forall|j: int, k: int| 0 <= j < at.len() && 0 <= k < at.len() && j != k implies at[j]
            != at[k] by {
            assert(to[j] != to[k]);
            assert(0 <= to[j] < from.len() && 0 <= to[k] < from.len());
            if to[j] < to[k] {
                assert(from[to[j]] < from[to[k]]);
            } else {
                assert(from[to[k]] < from[to[j]]);
            }
        }
    }
    let q = |i: int| t(corpus[i].footprint_bytes);
    lemma_count_through(at, q);
    assert forall|i: int| 0 <= i < corpus.len() && #[trigger] is_idle(
        corpus[i],
        provider,
    ) implies at.contains(i) by {
        assert(p(corpus[i]));
        assert(from.contains(i));
        let x = from.index_of(i);
        assert(to.contains(x));
        let y = to.index_of(x);
        assert(at[y] == i);
    }
    assert(Set::<int>::new(|k: int| 0 <= k < s.len() && t(s[k])) =~= Set::<int>::new(
        |k: int| 0 <= k < at.len() && q(at[k]),
    ));
    assert(Set::<int>::new(|i: int| at.contains(i) && q(i)) =~= Set::<int>::new(
        |i: int|
            0 <= i < corpus.len() && is_idle(corpus[i], provider) && t(corpus[i].footprint_bytes),
    )) by {
        assert forall|i: int| at.contains(i) implies 0 <= i < corpus.len() && is_idle(
            corpus[i],
            provider,
        ) by {
            let k = at.index_of(i);
            assert(at[k] == i);
        }
    }
}

/// How many of ascending readings lie at or below the one at a percentile, and
/// how many below it.
proof fn lemma_percentile(s: Seq<u64>, percent: nat)
    requires
        s.len() > 0,
        0 < percent <= 100,
        ordered(s, |a: u64, b: u64| a <= b),
    ensures
        ({
            let b = s[nearest_rank(s.len(), percent) - 1];
            &&& 100 * Set::<int>::new(|k: int| 0 <= k < s.len() && s[k] <= b).len() >= percent
                * s.len()
            &&& 100 * Set::<int>::new(|k: int| 0 <= k < s.len() && s[k] < b).len() < percent
                * s.len()
        }),
{
    let le = |a: u64, b: u64| a <= b;
    let n = s.len();
    let r = nearest_rank(n, percent);
    assert(n * percent <= n * 100 && n * percent >= 1) by (nonlinear_arith)
        requires
            0 < percent <= 100,
            n >= 1,
    ;
    assert(percent * n == n * percent) by (nonlinear_arith);
    assert(1 <= r <= n);
    assert(100 * r >= n * percent && 100 * (r - 1) < n * percent);
    let b = s[r - 1];
    let upto = Set::<int>::new(|k: int| 0 <= k < s.len() && s[k] <= b);
    let below = Set::<int>::new(|k: int| 0 <= k < s.len() && s[k] < b);
    let all = vstd::set_lib::set_int_range(0, n as int);
    let front = vstd::set_lib::set_int_range(0, r as int);
    let less = vstd::set_lib::set_int_range(0, r - 1);
    vstd::set_lib::lemma_int_range(0, n as int);
    vstd::set_lib::lemma_int_range(0, r as int);
    vstd::set_lib::lemma_int_range(0, r - 1);
    vstd::set_lib::lemma_len_subset(upto, all);
    assert(front.subset_of(upto)) by {
        assert forall|k: int| front.contains(k) implies upto.contains(k) by {
            if k < r - 1 {
                assert(le(s[k], s[r - 1]));
            }
        }
    }
    vstd::set_lib::lemma_len_subset(front, upto);
    assert(below.subset_of(less)) by {
        assert forall|k: int| below.contains(k) implies less.contains(k) by {
            if k > r - 1 {
                assert(le(s[r - 1], s[k]));
            }
        }
    }
    vstd::set_lib::lemma_len_subset(below, less);
}

/// A provider's baseline rests on the readings of it while it held nothing that
/// could be attributed, and on no others. Without any there is none. What is
/// charged is a reading that ninety-nine in a hundred of them do not exceed and
/// that fewer lie below, the middle one likewise at fifty, and fewer than ten
/// make it thin.
#[verifier::rlimit(40)]
pub proof fn a_baseline_is_a_percentile_of_the_idle_readings(
    corpus: Seq<Observation>,
    provider: ProviderKind,
)
    requires
        corpus.len() <= usize::MAX,
    ensures
        ({
            let r = baseline_of(provider, idle_readings(corpus, provider));
            let n = Set::<int>::new(
                |i: int|
                    0 <= i < corpus.len() && corpus[i].provider == provider && corpus[i].loaded == 0
                        && corpus[i].attributable,
            ).len();
            &&& r is Some <==> exists|i: int|
                0 <= i < corpus.len() && (#[trigger] corpus[i]).provider == provider
                    && corpus[i].loaded == 0 && corpus[i].attributable
            &&& r is Some ==> r->0.provider == provider && r->0.samples == n && r->0.thin == (n < 10)
            &&& r is Some ==> 100 * Set::<int>::new(
                |i: int|
                    0 <= i < corpus.len() && corpus[i].provider == provider && corpus[i].loaded == 0
                        && corpus[i].attributable && corpus[i].footprint_bytes <= r->0.bytes,
            ).len() >= 99 * n
            &&& r is Some ==> 100 * Set::<int>::new(
                |i: int|
                    0 <= i < corpus.len() && corpus[i].provider == provider && corpus[i].loaded == 0
                        && corpus[i].attributable && corpus[i].footprint_bytes < r->0.bytes,
            ).len() < 99 * n
            &&& r is Some ==> 100 * Set::<int>::new(
                |i: int|
                    0 <= i < corpus.len() && corpus[i].provider == provider && corpus[i].loaded == 0
                        && corpus[i].attributable && corpus[i].footprint_bytes <= r->0.p50_bytes,
            ).len() >= 50 * n
            &&& r is Some ==> 100 * Set::<int>::new(
                |i: int|
                    0 <= i < corpus.len() && corpus[i].provider == provider && corpus[i].loaded == 0
                        && corpus[i].attributable && corpus[i].footprint_bytes < r->0.p50_bytes,
            ).len() < 50 * n
        }),
{
    let p = |o: Observation| is_idle(o, provider);
    let le = |a: u64, b: u64| a <= b;
    let idle = idle_readings(corpus, provider);
    let s = ascending(idle);
    let from = lemma_filter_places(corpus, p);
    lemma_filter_count(corpus, p);
    assert(Set::<int>::new(|k: int| 0 <= k < corpus.len() && p(corpus[k])) =~= Set::<int>::new(
        |i: int|
            0 <= i < corpus.len() && corpus[i].provider == provider && corpus[i].loaded == 0
                && corpus[i].attributable,
    ));
    assert(idle.len() == from.len());
    lemma_stable_sort(idle, le);
    assert(total_preorder(le));
    lemma_few_idle(corpus, provider);
    if idle.len() > 0 {
        let i = from[0];
        assert(is_idle(corpus[i], provider));
        let r = baseline_of(provider, idle)->0;
        lemma_percentile(s, 99);
        lemma_percentile(s, 50);
        lemma_sets(corpus, provider, r.bytes);
        lemma_sets(corpus, provider, r.p50_bytes);
    } else if exists|i: int|
        0 <= i < corpus.len() && (#[trigger] corpus[i]).provider == provider && corpus[i].loaded == 0
            && corpus[i].attributable {
        let i = choose|i: int|
            0 <= i < corpus.len() && (#[trigger] corpus[i]).provider == provider
                && corpus[i].loaded == 0 && corpus[i].attributable;
        assert(p(corpus[i]));
        assert(from.contains(i));
    }
}

proof fn lemma_few_idle(corpus: Seq<Observation>, provider: ProviderKind)
    ensures
        idle_readings(corpus, provider).len() <= corpus.len(),
{
    let p = |o: Observation| is_idle(o, provider);
    lemma_filter_count(corpus, p);
    vstd::set_lib::lemma_int_range(0, corpus.len() as int);
    vstd::set_lib::lemma_len_subset(
        Set::<int>::new(|k: int| 0 <= k < corpus.len() && p(corpus[k])),
        vstd::set_lib::set_int_range(0, corpus.len() as int),
    );
}

/// The readings at or below a figure, and below it, are those of observations.
proof fn lemma_sets(corpus: Seq<Observation>, provider: ProviderKind, b: u64)
    ensures
        ({
            let s = ascending(idle_readings(corpus, provider));
            &&& Set::<int>::new(|k: int| 0 <= k < s.len() && s[k] <= b).len() == Set::<int>::new(
                |i: int|
                    0 <= i < corpus.len() && corpus[i].provider == provider && corpus[i].loaded == 0
                        && corpus[i].attributable && corpus[i].footprint_bytes <= b,
            ).len()
            &&& Set::<int>::new(|k: int| 0 <= k < s.len() && s[k] < b).len() == Set::<int>::new(
                |i: int|
                    0 <= i < corpus.len() && corpus[i].provider == provider && corpus[i].loaded == 0
                        && corpus[i].attributable && corpus[i].footprint_bytes < b,
            ).len()
        }),
{
    let s = ascending(idle_readings(corpus, provider));
    let upto = |x: u64| x <= b;
    let below = |x: u64| x < b;
    lemma_idle_count(corpus, provider, upto);
    lemma_idle_count(corpus, provider, below);
    assert(Set::<int>::new(|k: int| 0 <= k < s.len() && upto(s[k])) =~= Set::<int>::new(
        |k: int| 0 <= k < s.len() && s[k] <= b,
    ));
    assert(Set::<int>::new(|k: int| 0 <= k < s.len() && below(s[k])) =~= Set::<int>::new(
        |k: int| 0 <= k < s.len() && s[k] < b,
    ));
    assert(Set::<int>::new(
        |i: int|
            0 <= i < corpus.len() && is_idle(corpus[i], provider) && upto(corpus[i].footprint_bytes),
    ) =~= Set::<int>::new(
        |i: int|
            0 <= i < corpus.len() && corpus[i].provider == provider && corpus[i].loaded == 0
                && corpus[i].attributable && corpus[i].footprint_bytes <= b,
    ));
    assert(Set::<int>::new(
        |i: int|
            0 <= i < corpus.len() && is_idle(corpus[i], provider) && below(
                corpus[i].footprint_bytes,
            ),
    ) =~= Set::<int>::new(
        |i: int|
            0 <= i < corpus.len() && corpus[i].provider == provider && corpus[i].loaded == 0
                && corpus[i].attributable && corpus[i].footprint_bytes < b,
    ));
}

/// An observation counts the resident models of its row, and names the model
/// and its window only where there is exactly one; it can be attributed only
/// where there is at most one. The rest it takes from the row and the machine.
pub proof fn an_observation_names_a_lone_model(
    o: Observation,
    r: ProviderRow,
    models: Vec<LoadedModel>,
    l: Ledger,
    at: u64,
)
    requires
        observed(o, r, l, at),
        r.outcome == Outcome::Answered(models),
    ensures
        o.loaded == Set::<int>::new(
            |k: int| 0 <= k < models@.len() && models@[k].state == State::Loaded,
        ).len(),
        o.attributable <==> o.loaded == 0 || o.loaded == 1,
        o.loaded != 1 ==> o.model is None && o.context_tokens is None,
        o.loaded == 1 ==> exists|k: int|
            0 <= k < models@.len() && (#[trigger] models@[k]).state == State::Loaded && o.model
                == Some(models@[k].id) && o.context_tokens == models@[k].context_tokens,
        o.schema == 1,
        o.at == at,
        o.provider == r.kind,
        r.footprint_bytes == Some(o.footprint_bytes),
        o.phys_footprint_bytes == r.phys_footprint_bytes,
        o.rss_bytes == r.rss_bytes,
        o.processes@ == r.processes@,
        o.machine_total_bytes == l.machine.total_bytes,
        o.machine_used_bytes == l.machine.used_bytes,
        o.swap_used_bytes == l.machine.swap_used_bytes,
{
    let p = |m: LoadedModel| m.state == State::Loaded;
    lemma_filter_count(models@, p);
    let at = lemma_filter_places(models@, p);
    assert(Set::<int>::new(|k: int| 0 <= k < models@.len() && p(models@[k])) =~= Set::<int>::new(
        |k: int| 0 <= k < models@.len() && models@[k].state == State::Loaded,
    ));
    if o.loaded == 1 {
        let k = at[0];
        assert(models@[k] == resident_of(r.outcome)[0]);
    }
}

/// Whether an entry is the first that configures a provider.
pub open spec fn configures(config: Config, kind: ProviderKind, j: int) -> bool {
    &&& 0 <= j < config.providers@.len()
    &&& config.providers@[j].kind == kind
    &&& forall|m: int| 0 <= m < j ==> (#[trigger] config.providers@[m]).kind != kind
}

/// A price is computed from the geometry of the first offer that has an
/// artifact, a shape that was read and a window: the one that was asked for, or
/// else the one the model was trained at. A cache element takes what the first
/// entry that configures the offer's provider says, or two bytes.
pub proof fn a_price_is_computed_at_the_window_asked_for(
    config: Config,
    candidates: Seq<Candidate>,
    shapes: Seq<Option<ModelShape>>,
    context: Option<u32>,
)
    requires
        candidates.len() == shapes.len(),
    ensures
        ({
            let e = first_computed(config, candidates, shapes, context, 0);
            &&& e.basis == Basis::Unknown <==> forall|k: int|
                0 <= k < candidates.len() ==> !can_compute(
                    #[trigger] candidates[k],
                    shapes[k],
                    context,
                )
            &&& e.basis == Basis::Unknown ==> e.bytes is None
            &&& e.basis != Basis::Unknown ==> exists|k: int, width: u64|
                {
                    &&& 0 <= k < candidates.len()
                    &&& can_compute(#[trigger] candidates[k], shapes[k], context)
                    &&& forall|m: int|
                        0 <= m < k ==> !can_compute(#[trigger] candidates[m], shapes[m], context)
                    &&& #[trigger] element_takes(config, candidates[k].provider, width)
                    &&& e.basis == Basis::Computed
                    &&& e.samples == 0
                    &&& e.spread_bytes is None
                    &&& e.bytes == Some(
                        priced(
                            shapes[k]->0,
                            (if context is Some {
                                context->0
                            } else {
                                shapes[k]->0.trained_context->0
                            }) as nat,
                            width as nat,
                        ),
                    )
                }
        }),
{
    lemma_first_computed(config, candidates, shapes, context, 0);
}

/// Whether an offer has what a price is computed from.
pub open spec fn can_compute(c: Candidate, shape: Option<ModelShape>, context: Option<u32>) -> bool {
    c.artifact is Some && shape is Some && (context is Some || shape->0.trained_context is Some)
}

/// Whether a cache element of a provider takes so many bytes.
pub open spec fn element_takes(config: Config, kind: ProviderKind, width: u64) -> bool {
    &&& forall|j: int| #[trigger]
        configures(config, kind, j) ==> width == match config.providers@[j].kv_dtype_bytes {
            Some(w) => w,
            None => 2,
        }
    &&& (forall|j: int| !#[trigger] configures(config, kind, j)) ==> width == 2
}

proof fn lemma_width(config: Config, kind: ProviderKind)
    ensures
        element_takes(config, kind, cache_width(config, kind)),
{
    let p = |x: ProviderConfig| is_entry(x, kind);
    let all = config.providers@;
    lemma_first_index(all, p);
    let f = first_index(all, p);
    if f < all.len() {
        assert(p(all[f]));
        assert forall|m: int| 0 <= m < f implies (#[trigger] all[m]).kind != kind by {
            assert(!p(all[m]));
        }
        assert(configures(config, kind, f));
    }
    assert forall|j: int| #[trigger] configures(config, kind, j) implies j == f by {
        assert(p(all[j]));
        assert(all.any(p));
        if f < j {
            assert(all[f].kind != kind);
        }
    }
}

proof fn lemma_first_computed(
    config: Config,
    candidates: Seq<Candidate>,
    shapes: Seq<Option<ModelShape>>,
    context: Option<u32>,
    from: int,
)
    requires
        candidates.len() == shapes.len(),
        0 <= from <= candidates.len(),
        forall|m: int|
            0 <= m < from ==> !can_compute(#[trigger] candidates[m], shapes[m], context),
    ensures
        ({
            let e = first_computed(config, candidates, shapes, context, from);
            &&& e.basis == Basis::Unknown <==> forall|k: int|
                0 <= k < candidates.len() ==> !can_compute(
                    #[trigger] candidates[k],
                    shapes[k],
                    context,
                )
            &&& e.basis == Basis::Unknown ==> e.bytes is None
            &&& e.basis != Basis::Unknown ==> exists|k: int, width: u64|
                {
                    &&& 0 <= k < candidates.len()
                    &&& can_compute(#[trigger] candidates[k], shapes[k], context)
                    &&& forall|m: int|
                        0 <= m < k ==> !can_compute(#[trigger] candidates[m], shapes[m], context)
                    &&& #[trigger] element_takes(config, candidates[k].provider, width)
                    &&& e.basis == Basis::Computed
                    &&& e.samples == 0
                    &&& e.spread_bytes is None
                    &&& e.bytes == Some(
                        priced(
                            shapes[k]->0,
                            (if context is Some {
                                context->0
                            } else {
                                shapes[k]->0.trained_context->0
                            }) as nat,
                            width as nat,
                        ),
                    )
                }
        }),
    decreases candidates.len() - from,
{
    if from < candidates.len() {
        let c = candidates[from];
        assert(computed_price(config, c, shapes[from], context) is Some == can_compute(
            c,
            shapes[from],
            context,
        ));
        if can_compute(c, shapes[from], context) {
            lemma_width(config, c.provider);
            assert(element_takes(config, candidates[from].provider, cache_width(config, c.provider)));
        } else {
            lemma_first_computed(config, candidates, shapes, context, from + 1);
        }
    }
}

/// Whether a row is the first of a provider.
pub open spec fn first_row(rows: Seq<ProviderRow>, kind: ProviderKind, r: int) -> bool {
    &&& 0 <= r < rows.len()
    &&& rows[r].kind == kind
    &&& forall|j: int| 0 <= j < r ==> (#[trigger] rows[j]).kind != kind
}

/// Whether a listed model is the first under an id.
pub open spec fn first_model(models: Seq<LoadedModel>, id: Seq<char>, m: int) -> bool {
    &&& 0 <= m < models.len()
    &&& models[m].id@ == id
    &&& forall|j: int| 0 <= j < m ==> (#[trigger] models[j]).id@ != id
}

/// Whether a provider says what the weights behind an offer weigh: its first
/// row answered, and the first model there under the offer's id has a size.
pub open spec fn says(rows: Seq<ProviderRow>, c: Candidate, b: u64) -> bool {
    exists|r: int, m: int|
        {
            &&& #[trigger] first_row(rows, c.provider, r)
            &&& rows[r].outcome is Answered
            &&& #[trigger] first_model(
                rows[r].outcome->Answered_0@,
                c.provider_model_id@,
                m,
            )
            &&& rows[r].outcome->Answered_0@[m].weights_bytes == Some(b)
        }
}

/// Whether an artifact is the first under an id.
pub open spec fn first_under(artifacts: Seq<Artifact>, id: Seq<char>, a: int) -> bool {
    &&& 0 <= a < artifacts.len()
    &&& artifacts[a].id@ == id
    &&& forall|j: int| 0 <= j < a ==> (#[trigger] artifacts[j]).id@ != id
}

/// Whether the first artifact under an offer's id weighs so much.
pub open spec fn weighs(artifacts: Seq<Artifact>, c: Candidate, b: u64) -> bool {
    c.artifact is Some && exists|a: int| #[trigger]
        first_under(artifacts, c.artifact->0@, a) && artifacts[a].bytes == b
}

proof fn lemma_said(rows: Seq<ProviderRow>, c: Candidate)
    ensures
        forall|b: u64| #[trigger] says(rows, c, b) <==> said_weight(rows, c) == Some(b),
{
    let p = |r: ProviderRow| is_row(r, c.provider);
    let q = |m: LoadedModel| is_model(m, c.provider_model_id@);
    lemma_first_index(rows, p);
    let f = first_index(rows, p);
    assert forall|r: int| #[trigger] first_row(rows, c.provider, r) implies r == f by {
        assert(p(rows[r]));
        assert(rows.any(p));
        if f < r {
            assert(p(rows[f]));
            assert(rows[f].kind != c.provider);
        }
    }
    if f < rows.len() {
        assert(p(rows[f]));
        assert forall|j: int| 0 <= j < f implies (#[trigger] rows[j]).kind != c.provider by {
            assert(!p(rows[j]));
        }
        assert(first_row(rows, c.provider, f));
        if rows[f].outcome is Answered {
            let models = rows[f].outcome->Answered_0@;
            lemma_first_index(models, q);
            let g = first_index(models, q);
            if g < models.len() {
                assert(q(models[g]));
                assert forall|j: int| 0 <= j < g implies (#[trigger] models[j]).id@
                    != c.provider_model_id@ by {
                    assert(!q(models[j]));
                }
                assert(first_model(models, c.provider_model_id@, g));
            }
            assert forall|m: int| #[trigger]
                first_model(models, c.provider_model_id@, m) implies m == g by {
                assert(q(models[m]));
                assert(models.any(q));
                if g < m {
                    assert(models[g].id@ != c.provider_model_id@);
                }
            }
        }
    }
}

/// The first artifact under an id.
proof fn lemma_artifact_at(artifacts: Seq<Artifact>, id: Seq<char>)
    ensures
        forall|a: int| #[trigger]
            first_under(artifacts, id, a) ==> artifact_at(artifacts, id) == Some(artifacts[a]),
        artifact_at(artifacts, id) matches Some(x) ==> exists|a: int| #[trigger]
            first_under(artifacts, id, a) && artifacts[a] == x,
{
    let p = |a: Artifact| has_id(a, id);
    lemma_first_index(artifacts, p);
    let f = first_index(artifacts, p);
    assert forall|j: int| 0 <= j < f implies (#[trigger] artifacts[j]).id@ != id by {
        assert(!p(artifacts[j]));
    }
    if f < artifacts.len() {
        assert(p(artifacts[f]));
        assert(first_under(artifacts, id, f));
    }
    assert forall|a: int| #[trigger] first_under(artifacts, id, a) implies a == f by {
        assert(p(artifacts[a]));
        assert(artifacts.any(p));
        if f < a {
            assert(artifacts[f].id@ != id);
        }
    }
}

proof fn lemma_weighs(artifacts: Seq<Artifact>, c: Candidate)
    ensures
        forall|b: u64| #[trigger] weighs(artifacts, c, b) <==> file_weight(artifacts, c) == Some(b),
{
    if c.artifact is Some {
        lemma_artifact_at(artifacts, c.artifact->0@);
    }
}

/// Whether nothing is declared of an offer.
pub open spec fn undeclared(rows: Seq<ProviderRow>, artifacts: Seq<Artifact>, c: Candidate) -> bool {
    forall|x: u64| !#[trigger] says(rows, c, x) && !#[trigger] weighs(artifacts, c, x)
}

/// What is declared is of the first offer of which anything is: what its
/// provider says, or else what its file weighs.
#[verifier::rlimit(40)]
pub proof fn what_a_provider_says_comes_before_the_file(
    rows: Seq<ProviderRow>,
    artifacts: Seq<Artifact>,
    candidates: Seq<Candidate>,
)
    ensures
        match first_declared(rows, artifacts, candidates, 0) {
            Some(b) => exists|k: int|
                {
                    &&& 0 <= k < candidates.len()
                    &&& says(rows, #[trigger] candidates[k], b) || (weighs(
                        artifacts,
                        candidates[k],
                        b,
                    ) && forall|x: u64| !#[trigger] says(rows, candidates[k], x))
                    &&& forall|m: int|
                        0 <= m < k ==> undeclared(rows, artifacts, #[trigger] candidates[m])
                },
            None => forall|m: int|
                0 <= m < candidates.len() ==> undeclared(
                    rows,
                    artifacts,
                    #[trigger] candidates[m],
                ),
        },
{
    lemma_first_declared(rows, artifacts, candidates, 0);
    assert forall|m: int| 0 <= m < candidates.len() && declared_weight(
        rows,
        artifacts,
        #[trigger] candidates[m],
    ) is None implies undeclared(rows, artifacts, candidates[m]) by {
        lemma_declared(rows, artifacts, candidates[m]);
    }
    if let Some(b) = first_declared(rows, artifacts, candidates, 0) {
        let k = choose|k: int|
            0 <= k < candidates.len() && declared_weight(rows, artifacts, #[trigger] candidates[k])
                == Some(b) && forall|m: int|
                0 <= m < k ==> declared_weight(rows, artifacts, #[trigger] candidates[m]) is None;
        lemma_declared(rows, artifacts, candidates[k]);
    }
}

proof fn lemma_declared(rows: Seq<ProviderRow>, artifacts: Seq<Artifact>, c: Candidate)
    ensures
        match declared_weight(rows, artifacts, c) {
            Some(b) => says(rows, c, b) || (weighs(artifacts, c, b) && forall|x: u64|
                !#[trigger] says(rows, c, x)),
            None => undeclared(rows, artifacts, c),
        },
{
    lemma_said(rows, c);
    lemma_weighs(artifacts, c);
}

proof fn lemma_first_declared(
    rows: Seq<ProviderRow>,
    artifacts: Seq<Artifact>,
    candidates: Seq<Candidate>,
    from: int,
)
    requires
        0 <= from <= candidates.len(),
        forall|m: int|
            0 <= m < from ==> declared_weight(rows, artifacts, #[trigger] candidates[m]) is None,
    ensures
        match first_declared(rows, artifacts, candidates, from) {
            Some(b) => exists|k: int|
                0 <= k < candidates.len() && declared_weight(
                    rows,
                    artifacts,
                    #[trigger] candidates[k],
                ) == Some(b) && forall|m: int|
                    0 <= m < k ==> declared_weight(rows, artifacts, #[trigger] candidates[m]) is None,
            None => forall|m: int|
                0 <= m < candidates.len() ==> declared_weight(
                    rows,
                    artifacts,
                    #[trigger] candidates[m],
                ) is None,
        },
    decreases candidates.len() - from,
{
    if from < candidates.len() && declared_weight(rows, artifacts, candidates[from]) is None {
        lemma_first_declared(rows, artifacts, candidates, from + 1);
    }
}

} // verus!
