//! Whether a set of models fits at once.
use llm_harmony::budget::{Budget, Ceiling};
use llm_harmony::estimate::baseline::Baseline;
use llm_harmony::estimate::estimator::{Basis, Estimate};
use llm_harmony::fit::search::{cheapest, MAX_ASSIGNMENTS};
use llm_harmony::fit::{plan, Inputs, Plan, Verdict};
use llm_harmony::inventory::artifact::Provenance;
use llm_harmony::memory::Machine;
use llm_harmony::pins::{Pin, Pins};
use llm_harmony::provider::{ProviderKind, State};
use llm_harmony::resolve::identity::Candidate;

const LLAMA_CPP: ProviderKind = ProviderKind::LlamaCpp;
const LM_STUDIO: ProviderKind = ProviderKind::LmStudio;
const OLLAMA: ProviderKind = ProviderKind::Ollama;
const VLLM: ProviderKind = ProviderKind::Vllm;

const RESERVE: u64 = 8 * 1024 * 1024 * 1024;
const GB: u64 = 1024 * 1024 * 1024;

/// One way one model could be served, as a test says it.
#[derive(Clone)]
struct Opt {
    model: &'static str,
    provider: ProviderKind,
    bytes: Option<u64>,
    basis: Basis,
    resident: bool,
}

fn opt(model: &'static str, provider: ProviderKind, bytes: u64) -> Opt {
    Opt { model, provider, bytes: Some(bytes), basis: Basis::Measured, resident: false }
}

struct Bench {
    opts: Vec<Opt>,
    baselines: Vec<Baseline>,
    budgets: Vec<Budget>,
    running: Vec<ProviderKind>,
    free: u64,
    pins: Pins,
}

impl Bench {
    fn new(opts: Vec<Opt>) -> Bench {
        Bench {
            opts,
            baselines: Vec::new(),
            budgets: Vec::new(),
            running: ProviderKind::ALL.to_vec(),
            free: 21 * GB,
            pins: Pins::empty(),
        }
    }

    fn plan(&self, models: &[&str]) -> Plan {
        let machine = Machine {
            total_bytes: 25_769_803_776,
            used_bytes: 25_769_803_776 - self.free,
            swap_total_bytes: 0,
            swap_used_bytes: 0,
        };
        let cands = |m: &str| -> Vec<Candidate> {
            self.opts
                .iter()
                .filter(|o| o.model == m)
                .map(|o| Candidate {
                    provider: o.provider,
                    provider_model_id: format!("{}-on-{}", o.model, o.provider.as_str()),
                    url: format!("http://127.0.0.1:{}", o.provider.default_port()),
                    state: if o.resident { State::Loaded } else { State::NotLoaded },
                    artifact: Some(o.model.into()),
                    provenance: Provenance::Recorded,
                })
                .collect()
        };
        let price = |c: &Candidate, m: &str| -> Estimate {
            match self.opts.iter().find(|o| o.model == m && o.provider == c.provider) {
                Some(o) => Estimate {
                    bytes: o.bytes,
                    basis: o.basis,
                    samples: 3,
                    spread_bytes: Some(0),
                },
                None => Estimate::unknown(),
            }
        };
        let offers: Vec<Vec<(Candidate, Estimate)>> = models
            .iter()
            .map(|m| {
                cands(m)
                    .into_iter()
                    .map(|c| {
                        let e = price(&c, m);
                        (c, e)
                    })
                    .collect()
            })
            .collect();
        let i = Inputs {
            offers: &offers,
            baselines: &self.baselines,
            budgets: &self.budgets,
            running: &self.running,
            machine: &machine,
            reserve_bytes: RESERVE,
            pins: &self.pins,
            now: 1_789_000_000,
        };
        plan(&models.iter().map(|s| s.to_string()).collect::<Vec<_>>(), &i)
    }
}

fn baseline(provider: ProviderKind, bytes: u64, thin: bool) -> Baseline {
    Baseline { provider, bytes, p50_bytes: bytes, samples: if thin { 2 } else { 100 }, thin }
}

fn count(provider: ProviderKind, n: u32) -> Budget {
    Budget { provider, ceiling: Ceiling::Count(n), source: "test".into() }
}

#[test]
fn a_set_that_fits_names_the_assignment_it_fits_under() {
    let b = Bench::new(vec![opt("a", LLAMA_CPP, 5 * GB), opt("e", OLLAMA, GB)]);
    let p = b.plan(&["a", "e"]);
    assert_eq!(p.verdict, Verdict::Fits);
    assert_eq!(p.assigned.len(), 2);
    assert_eq!(p.charged_bytes, 6 * GB);
}

/// The dimension one model does not have: the same logical model exists at
/// several prices, so this is a selection as well as a sum.
#[test]
fn the_same_model_on_two_providers_is_priced_twice_and_the_cheaper_assignment_wins() {
    let b = Bench::new(vec![opt("a", LLAMA_CPP, 5 * GB), opt("a", VLLM, 8 * GB)]);
    let p = b.plan(&["a"]);
    assert_eq!(p.assigned[0].candidate.provider, LLAMA_CPP, "{:?}", p.assigned);
    assert_eq!(p.charged_bytes, 5 * GB);
    let (_, runner) = p.runner_up.expect("the rejected assignment is reportable");
    assert_eq!(runner, 8 * GB, "why not the other one has to be answerable");
}

/// The arithmetic the whole feature turns on: two models on one provider
/// pay that provider's baseline once, not twice.
#[test]
fn a_providers_baseline_is_charged_once_however_many_of_its_models_are_chosen() {
    let mut b = Bench::new(vec![opt("a", LM_STUDIO, 2 * GB), opt("c", LM_STUDIO, 3 * GB)]);
    b.baselines = vec![baseline(LM_STUDIO, GB, false)];
    b.running = vec![]; // nothing up, so the baseline is payable
    b.budgets = vec![count(LM_STUDIO, 4)];
    let p = b.plan(&["a", "c"]);
    assert_eq!(p.charged_bytes, 2 * GB + 3 * GB + GB, "one baseline, not two");
    assert_eq!(p.overheads.len(), 1);
}

/// A resident model is in `used_bytes` already, and `decide` has always
/// treated residency as needing no admission. Charging it again would
/// refuse sets that are already satisfied.
#[test]
fn a_model_already_resident_is_not_charged_again() {
    let mut o = opt("a", LLAMA_CPP, 20 * GB);
    o.resident = true;
    let b = Bench::new(vec![o]);
    let p = b.plan(&["a"]);
    assert_eq!(p.charged_bytes, 0, "{:?}", p.verdict);
    assert_eq!(p.verdict, Verdict::Fits);
}

/// Same argument one level up: a running provider's overhead is spent.
#[test]
fn a_running_providers_baseline_is_not_charged_again() {
    let mut b = Bench::new(vec![opt("a", LM_STUDIO, 2 * GB)]);
    b.baselines = vec![baseline(LM_STUDIO, GB, false)];
    b.running = vec![LM_STUDIO];
    let p = b.plan(&["a"]);
    assert_eq!(p.charged_bytes, 2 * GB);
    assert!(!p.overheads[0].charged_bytes() > 0);
}

/// One unpriced member makes
/// the set unpriced. A total that looked authoritative because two of its
/// three terms were measured is the under-estimate to avoid.
#[test]
fn a_set_holding_one_unpriced_model_is_an_unpriced_set() {
    let unpriced = Opt {
        model: "u",
        provider: VLLM,
        bytes: None,
        basis: Basis::Unknown,
        resident: false,
    };
    let b = Bench::new(vec![opt("a", LLAMA_CPP, 2 * GB), unpriced]);
    assert_eq!(b.plan(&["a", "u"]).verdict, Verdict::Unpriced { model: "u".into() });
}

/// A declared figure is a weights-only floor. `decide` will not admit on
/// one, so neither will a set.
#[test]
fn a_declared_figure_does_not_price_a_set_either() {
    let declared = Opt {
        model: "d",
        provider: OLLAMA,
        bytes: Some(4 * GB),
        basis: Basis::Declared,
        resident: false,
    };
    let b = Bench::new(vec![declared]);
    assert_eq!(b.plan(&["d"]).verdict, Verdict::Unpriced { model: "d".into() });
}

#[test]
fn a_set_that_does_not_fit_names_the_smallest_drop_that_would_fit() {
    let b = Bench::new(vec![
        opt("big", LLAMA_CPP, 10 * GB),
        opt("mid", VLLM, 4 * GB),
        opt("small", OLLAMA, GB),
    ]);
    let p = b.plan(&["big", "mid", "small"]);
    match p.verdict {
        Verdict::DoesNotFit { smallest_drop, .. } => {
            assert_eq!(smallest_drop, vec!["big".to_string()], "largest first, fewest members");
        }
        other => panic!("expected a byte refusal, got {other:?}"),
    }
}

/// llama.cpp runs `--models-max 1` here. No arithmetic over bytes gets two
/// GGUFs into a router that holds one.
#[test]
fn two_models_on_a_provider_that_allows_one_is_a_ceiling_refusal_not_a_byte_refusal() {
    let mut b = Bench::new(vec![opt("a", LLAMA_CPP, GB), opt("c", LLAMA_CPP, GB)]);
    b.budgets = vec![count(LLAMA_CPP, 1)];
    let p = b.plan(&["a", "c"]);
    assert_eq!(
        p.verdict,
        Verdict::CeilingRefusal { provider: LLAMA_CPP, allowed: 1, wanted: 2 },
        "the bytes fit; the ceiling does not"
    );
}

/// An unknown count ceiling is not an unknown memory cost: exceeding it
/// makes the provider evict by its own policy. Mark it, proceed.
#[test]
fn an_unknown_count_ceiling_is_marked_and_does_not_refuse_the_set() {
    let b = Bench::new(vec![opt("a", OLLAMA, GB), opt("c", OLLAMA, GB)]);
    let p = b.plan(&["a", "c"]);
    assert_eq!(p.verdict, Verdict::Fits);
    assert!(p.unchecked_ceilings.contains(&OLLAMA), "{:?}", p.unchecked_ceilings);
}

/// A ceiling that allows the set does not refuse it, and does not appear
/// as unchecked either.
#[test]
fn a_ceiling_that_allows_the_set_is_neither_a_refusal_nor_unchecked() {
    let mut b = Bench::new(vec![opt("a", LLAMA_CPP, GB), opt("c", LLAMA_CPP, GB)]);
    b.budgets = vec![count(LLAMA_CPP, 2)];
    let p = b.plan(&["a", "c"]);
    assert_eq!(p.verdict, Verdict::Fits);
    assert!(p.unchecked_ceilings.is_empty());
}

/// A thin baseline is carried into the plan rather than smoothed over:
/// vLLM-MLX's rests on two readings.
#[test]
fn a_thin_baseline_is_reported_on_the_plan_that_used_it() {
    let mut b = Bench::new(vec![opt("a", VLLM, 4 * GB)]);
    b.baselines = vec![baseline(VLLM, 332 * 1024 * 1024, true)];
    b.running = vec![];
    assert!(b.plan(&["a"]).overheads.iter().any(|o| o.thin));
}

#[test]
fn a_model_no_provider_serves_makes_the_set_unservable() {
    let b = Bench::new(vec![opt("a", LLAMA_CPP, GB)]);
    assert_eq!(b.plan(&["a", "ghost"]).verdict, Verdict::Unservable { model: "ghost".into() });
}

/// A pinned or leased member is not a drop candidate: harmony may not
/// propose freeing what it has been told to protect.
#[test]
fn a_held_member_is_never_proposed_as_the_drop() {
    let mut b = Bench::new(vec![opt("big", LLAMA_CPP, 10 * GB), opt("mid", VLLM, 9 * GB)]);
    b.pins.add(Pin {
        provider: LLAMA_CPP,
        model: "big-on-llamacpp".into(),
        at: 1,
        note: None,
        owner: None,
        expires_at: None,
    });
    let p = b.plan(&["big", "mid"]);
    match p.verdict {
        Verdict::DoesNotFit { smallest_drop, .. } => {
            assert!(!smallest_drop.contains(&"big".to_string()), "{smallest_drop:?}");
            assert_eq!(smallest_drop, vec!["mid".to_string()]);
        }
        other => panic!("expected a byte refusal, got {other:?}"),
    }
}

/// A search too wide to finish says so instead of hanging.
#[test]
fn a_set_with_too_many_assignments_is_marked_capped() {
    let names: Vec<String> = (0..7).map(|i| format!("m{i}")).collect();
    let leaked: Vec<&'static str> = names.iter().map(|n| &*n.clone().leak()).collect();
    let mut opts = Vec::new();
    for m in &leaked {
        for k in ProviderKind::ALL {
            opts.push(opt(m, k, 1024));
        }
    }
    let b = Bench::new(opts);
    assert!(4usize.pow(7) > MAX_ASSIGNMENTS);
    assert!(b.plan(&leaked).capped);
    assert!(!b.plan(&leaked[..2]).capped);
}

/// The cheapest assignment under the ceilings, and the next one.
#[test]
fn the_search_answers_with_the_best_two() {
    let machine = Machine::zero();
    let pins = Pins::empty();
    let i = Inputs {
        offers: &[],
        baselines: &[],
        budgets: &[],
        running: &ProviderKind::ALL,
        machine: &machine,
        reserve_bytes: 0,
        pins: &pins,
        now: 0,
    };
    let offer = |k: ProviderKind, bytes: u64| {
        (
            Candidate {
                provider: k,
                provider_model_id: "a".into(),
                url: "http://127.0.0.1:1".into(),
                state: State::NotLoaded,
                artifact: None,
                provenance: Provenance::Recorded,
            },
            Estimate { bytes: Some(bytes), basis: Basis::Computed, samples: 0, spread_bytes: None },
        )
    };
    let options =
        vec![("a".to_string(), vec![offer(VLLM, 9), offer(OLLAMA, 4), offer(LLAMA_CPP, 6)])];
    let o = cheapest(&options, &i);
    assert_eq!(o.best.unwrap().1, 4);
    assert_eq!(o.runner_up.unwrap().1, 6);
    assert!(!o.capped);
}

/// That there is no ceiling is something read; what could not be read is
/// marked.
#[test]
fn only_an_unread_ceiling_is_marked_unchecked() {
    let mut b = Bench::new(vec![opt("a", LM_STUDIO, GB)]);
    b.budgets =
        vec![Budget { provider: LM_STUDIO, ceiling: Ceiling::Unbounded, source: "x".into() }];
    let p = b.plan(&["a"]);
    assert_eq!(p.verdict, Verdict::Fits);
    assert!(p.unchecked_ceilings.is_empty(), "{:?}", p.unchecked_ceilings);
    let why = "unset".to_string();
    b.budgets =
        vec![Budget { provider: LM_STUDIO, ceiling: Ceiling::Unknown { why }, source: "x".into() }];
    assert_eq!(b.plan(&["a"]).unchecked_ceilings, vec![LM_STUDIO]);
}

/// A ceiling of none refuses even one.
#[test]
fn a_ceiling_of_none_refuses_one() {
    let mut b = Bench::new(vec![opt("a", LLAMA_CPP, GB)]);
    b.budgets = vec![count(LLAMA_CPP, 0)];
    assert_eq!(
        b.plan(&["a"]).verdict,
        Verdict::CeilingRefusal { provider: LLAMA_CPP, allowed: 0, wanted: 1 }
    );
}

/// One more model on a used provider costs itself, in whichever order they come.
#[test]
fn one_more_model_costs_itself() {
    let mut b = Bench::new(vec![opt("a", OLLAMA, GB), opt("c", OLLAMA, 2 * GB)]);
    b.baselines = vec![baseline(OLLAMA, 7, false)];
    b.running = Vec::new();
    assert_eq!(b.plan(&["a"]).charged_bytes, GB + 7);
    assert_eq!(b.plan(&["a", "c"]).charged_bytes, 3 * GB + 7);
    assert_eq!(b.plan(&["c", "a"]).charged_bytes, 3 * GB + 7);
}
