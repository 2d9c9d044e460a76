//! What a provider costs with nothing loaded.
use llm_harmony::estimate::baseline::{all, from_corpus, percentile, THIN_SAMPLES};
use llm_harmony::provider::ProviderKind;
use llm_harmony::record::{Observation, OBSERVATION_SCHEMA};

const LM_STUDIO: ProviderKind = ProviderKind::LmStudio;
const VLLM: ProviderKind = ProviderKind::Vllm;

fn obs(provider: ProviderKind, loaded: usize, footprint: u64) -> Observation {
    Observation {
        schema: OBSERVATION_SCHEMA,
        at: 1_789_000_000,
        provider,
        loaded,
        model: None,
        context_tokens: None,
        attributable: true,
        footprint_bytes: footprint,
        phys_footprint_bytes: Some(footprint),
        rss_bytes: Some(footprint),
        processes: Vec::new(),
        machine_total_bytes: 25_769_803_776,
        machine_used_bytes: 10 << 30,
        swap_used_bytes: 0,
    }
}

const MIB: u64 = 1024 * 1024;

/// Only a reading with nothing loaded prices the provider itself.
#[test]
fn a_reading_with_a_model_loaded_is_not_a_baseline() {
    let c = vec![obs(LM_STUDIO, 1, 9 << 30), obs(LM_STUDIO, 0, 560 * MIB)];
    let b = from_corpus(&c, LM_STUDIO).unwrap();
    assert_eq!(b.samples, 1);
    assert_eq!(b.bytes, 560 * MIB);
}

/// Measured 2026-09-11: LM Studio's largest idle reading moved 637 -> 788
/// MiB inside an hour, on one sample, while p95 held at 571. The maximum
/// is a tail that grows with the corpus; p99 is a statistic.
#[test]
fn the_figure_is_p99_and_not_the_maximum() {
    let mut c: Vec<Observation> = (0..99).map(|_| obs(LM_STUDIO, 0, 560 * MIB)).collect();
    c.push(obs(LM_STUDIO, 0, 788 * MIB));
    let b = from_corpus(&c, LM_STUDIO).unwrap();
    assert_eq!(b.bytes, 560 * MIB, "the lone spike must not set the figure");
    assert!(b.bytes < 788 * MIB);
}

/// It is still an over-estimate: p99 sits above the middle of the
/// distribution, which is the safe direction to be wrong in.
#[test]
fn the_figure_is_never_below_the_median() {
    let mut c: Vec<Observation> = (0..50).map(|_| obs(LM_STUDIO, 0, 537 * MIB)).collect();
    c.extend((0..50).map(|_| obs(LM_STUDIO, 0, 571 * MIB)));
    let b = from_corpus(&c, LM_STUDIO).unwrap();
    assert!(b.bytes >= b.p50_bytes, "{b:?}");
}

/// vLLM-MLX has two idle readings and that is structural: with no
/// model-level unload it is idle only between start and first request. A
/// figure resting on two samples has to say so.
#[test]
fn a_provider_with_too_few_idle_readings_is_marked_thin() {
    let c = vec![obs(VLLM, 0, 332 * MIB), obs(VLLM, 0, 331 * MIB)];
    let b = from_corpus(&c, VLLM).unwrap();
    assert!(b.thin);
    assert_eq!(b.samples, 2);
}

#[test]
fn a_sufficiently_observed_provider_is_not_marked_thin() {
    let c: Vec<Observation> = (0..THIN_SAMPLES).map(|_| obs(LM_STUDIO, 0, 537 * MIB)).collect();
    assert!(!from_corpus(&c, LM_STUDIO).unwrap().thin);
}

/// A provider that has never idled yields nothing rather than a guess --
/// the same posture the estimator takes for a shape it has never seen.
#[test]
fn a_provider_never_observed_idle_has_no_baseline() {
    assert!(from_corpus(&[obs(VLLM, 1, 5 << 30)], VLLM).is_none());
}

/// An observation harmony could not attribute is a number without a
/// subject, and `record.rs` flags it for exactly this reason.
#[test]
fn an_unattributable_reading_is_skipped() {
    let mut o = obs(LM_STUDIO, 0, 560 * MIB);
    o.attributable = false;
    assert!(from_corpus(&[o], LM_STUDIO).is_none());
}

/// One provider's readings never price another's.
#[test]
fn baselines_do_not_leak_between_providers() {
    let c = vec![obs(LM_STUDIO, 0, 560 * MIB), obs(VLLM, 0, 332 * MIB)];
    assert_eq!(from_corpus(&c, VLLM).unwrap().bytes, 332 * MIB);
    assert_eq!(all(&c).len(), 2);
}

/// The nearest rank: the smallest reading that at least that share of the
/// readings do not exceed.
#[test]
fn a_percentile_is_the_nearest_rank() {
    let v: Vec<u64> = (1..=200).collect();
    assert_eq!(percentile(&v, 99), 198);
    assert_eq!(percentile(&v, 50), 100);
    assert_eq!(percentile(&vec![7], 99), 7);
    assert_eq!(percentile(&vec![1, 2, 3], 50), 2);
}
