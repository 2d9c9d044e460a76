//! Can these models be resident **at once**, and under which assignment?
//!
//! Admission generalised from one item to a set. A set is a selection, not
//! only a sum: the same logical model exists as several artifacts at several
//! prices. And sequential admission cannot answer it: each load admits against
//! a ledger the previous one changed.
//!
//! ```text
//! charged  = the estimate of every model not already resident
//!          + the baseline of every provider not already running
//! headroom = total - used - reserve
//! ```
//!
//! A resident model is charged nothing, because its bytes are in use already;
//! a provider's baseline is charged once, however many of its models are
//! picked, and not at all if it is already running.
//!
//! A count ceiling can refuse what the bytes allow. Where that ceiling is
//! *unknown* the set is marked and admitted: exceeding a count makes a
//! provider evict by its own policy, which is a surprise rather than a wedged
//! machine.
pub mod laws;
pub mod search;

use vstd::prelude::*;

use self::search::{
    all_countable, assignment, choices, costs, named, price, refusal, reported, second,
    the_search_finds_the_best_two, usable, ways, winner, MAX_ASSIGNMENTS,
};
use crate::budget::{count_limit, count_of, Budget, Ceiling};
use crate::estimate::baseline::Baseline;
use crate::estimate::estimator::{Basis, Estimate};
use crate::memory::Machine;
use crate::pins::{holder, Pin, Pins};
use crate::provider::{ProviderKind, State};
use crate::resolve::identity::Candidate;
use crate::seqs::{
    first_index, first_match, lemma_filter_members, lemma_filter_take, lemma_first_index,
    lemma_first_index_is,
    lemma_shortest_front, lemma_shortest_front_is, lemma_stable_sort,
    lemma_stable_sort_contains, lemma_total_take, shortest_front, sort_with, stable_sort, total,
};
use crate::text::texts;

verus! {

/// One way to serve a model, and what it would cost there.
pub type Offer = (Candidate, Estimate);

/// One model, placed.
#[derive(Debug)]
pub struct Assigned {
    pub model: String,
    pub candidate: Candidate,
    pub estimate: Estimate,
    /// Already loaded on this provider, so it is charged nothing.
    pub resident: bool,
}

impl Clone for Assigned {
    fn clone(&self) -> (r: Self)
        ensures
            r == *self,
    {
        Assigned {
            model: self.model.clone(),
            candidate: self.candidate.clone(),
            estimate: self.estimate,
            resident: self.resident,
        }
    }
}

/// What a placed model adds to the machine. Nothing when it is already there.
pub open spec fn charge(a: Assigned) -> nat {
    if a.resident {
        0
    } else {
        match a.estimate.bytes {
            Some(b) => b as nat,
            None => 0,
        }
    }
}

impl Assigned {
    /// What this row adds to the machine. Zero when it is already there.
    pub fn charged_bytes(&self) -> (b: u64)
        ensures
            b == charge(*self),
    {
        if self.resident {
            0
        } else {
            match self.estimate.bytes {
                Some(b) => b,
                None => 0,
            }
        }
    }
}

/// A provider's own overhead, and whether the assignment has to pay it.
#[derive(Debug, Clone, Copy, PartialEq, Eq, Structural)]
pub struct Overhead {
    pub provider: ProviderKind,
    pub bytes: u64,
    /// Already up, so its baseline is in use already and is not charged.
    pub running: bool,
    /// The figure rests on too few idle readings.
    pub thin: bool,
}

/// What an overhead adds to the machine. Nothing when its provider is up.
pub open spec fn overhead_charge(o: Overhead) -> nat {
    if o.running {
        0
    } else {
        o.bytes as nat
    }
}

impl Overhead {
    pub fn charged_bytes(&self) -> (b: u64)
        ensures
            b == overhead_charge(*self),
    {
        if self.running {
            0
        } else {
            self.bytes
        }
    }
}

#[derive(Debug, PartialEq, Eq)]
pub enum Verdict {
    Fits,
    /// One member could not be priced, so the set cannot be.
    Unpriced { model: String },
    /// The bytes do not fit, with the smallest set of members whose removal
    /// would make them fit.
    DoesNotFit { short_by_bytes: u64, smallest_drop: Vec<String> },
    /// A provider cannot hold that many models at once, whatever the bytes say.
    CeilingRefusal { provider: ProviderKind, allowed: u32, wanted: usize },
    /// No provider serves one of the named models.
    Unservable { model: String },
}

#[derive(Debug)]
pub struct Plan {
    pub assigned: Vec<Assigned>,
    pub overheads: Vec<Overhead>,
    pub charged_bytes: u64,
    pub headroom_bytes: u64,
    pub verdict: Verdict,
    /// The next-best assignment and what it would have cost, so *why not the
    /// other one* is answerable. `None` when there was only one.
    pub runner_up: Option<(Vec<Assigned>, u64)>,
    /// Providers whose count ceiling could not be read, and so was not
    /// enforced. Marked rather than refused.
    pub unchecked_ceilings: Vec<ProviderKind>,
    /// Not every assignment was looked at. Never silently.
    pub capped: bool,
}

/// Everything the planner needs that it will not read for itself.
pub struct Inputs<'a> {
    /// For each model in turn, every way it could be served and its price there.
    pub offers: &'a [Vec<Offer>],
    pub baselines: &'a [Baseline],
    pub budgets: &'a [Budget],
    pub running: &'a [ProviderKind],
    pub machine: &'a Machine,
    pub reserve_bytes: u64,
    pub pins: &'a Pins,
    pub now: u64,
}

/// Whether a figure may be admitted on: only a measurement or a computation
/// is, and a resident candidate whatever its price, because it is already there.
pub open spec fn may_admit(o: Offer) -> bool {
    o.0.state == State::Loaded || ((o.1.basis == Basis::Measured || o.1.basis == Basis::Computed)
        && o.1.bytes is Some)
}

/// Whether a figure may be admitted on.
///
/// A resident candidate is admissible whatever its price: it is already there.
pub fn admissible(c: &Candidate, e: &Estimate) -> (r: bool)
    ensures
        r == may_admit((*c, *e)),
{
    if c.state == State::Loaded {
        return true;
    }
    (e.basis == Basis::Measured || e.basis == Basis::Computed) && e.bytes.is_some()
}

/// The baseline of a provider, where one is known.
pub open spec fn baseline_of(baselines: Seq<Baseline>, p: ProviderKind) -> Option<Baseline> {
    first_match(baselines, |b: Baseline| b.provider == p)
}

pub(crate) fn baseline_for(baselines: &[Baseline], p: ProviderKind) -> (r: Option<Baseline>)
    ensures
        r == baseline_of(baselines@, p),
{
    let ghost q = |b: Baseline| b.provider == p;
    let mut i: usize = 0;
    while i < baselines.len()
        invariant
            i <= baselines@.len(),
            q == (|b: Baseline| b.provider == p),
            forall|k: int| 0 <= k < i ==> !q(#[trigger] baselines@[k]),
        decreases baselines.len() - i,
    {
        if baselines[i].provider == p {
            proof {
                lemma_first_index_is(baselines@, q, i as int);
            }
            return Some(baselines[i]);
        }
        i += 1;
    }
    proof {
        lemma_first_index_is(baselines@, q, baselines@.len() as int);
    }
    None
}

/// How many models a provider may hold, where that is known.
pub open spec fn limit_for(budgets: Seq<Budget>, p: ProviderKind) -> Option<u32> {
    match first_match(budgets, |b: Budget| b.provider == p) {
        Some(b) => count_of(b),
        None => None,
    }
}

pub(crate) fn count_limit_for(budgets: &[Budget], p: ProviderKind) -> (r: Option<u32>)
    ensures
        r == limit_for(budgets@, p),
{
    let ghost q = |b: Budget| b.provider == p;
    let mut i: usize = 0;
    while i < budgets.len()
        invariant
            i <= budgets@.len(),
            q == (|b: Budget| b.provider == p),
            forall|k: int| 0 <= k < i ==> !q(#[trigger] budgets@[k]),
        decreases budgets.len() - i,
    {
        if budgets[i].provider == p {
            proof {
                lemma_first_index_is(budgets@, q, i as int);
            }
            return count_limit(&budgets[i]);
        }
        i += 1;
    }
    proof {
        lemma_first_index_is(budgets@, q, budgets@.len() as int);
    }
    None
}

/// Whether a provider's ceiling could be read at all: that there is none is
/// something read.
pub open spec fn readable(budgets: Seq<Budget>, p: ProviderKind) -> bool {
    match first_match(budgets, |b: Budget| b.provider == p) {
        Some(b) => !(b.ceiling is Unknown),
        None => false,
    }
}

fn can_read(budgets: &[Budget], p: ProviderKind) -> (r: bool)
    ensures
        r == readable(budgets@, p),
{
    let ghost q = |b: Budget| b.provider == p;
    let mut i: usize = 0;
    while i < budgets.len()
        invariant
            i <= budgets@.len(),
            q == (|b: Budget| b.provider == p),
            forall|k: int| 0 <= k < i ==> !q(#[trigger] budgets@[k]),
        decreases budgets.len() - i,
    {
        if budgets[i].provider == p {
            proof {
                lemma_first_index_is(budgets@, q, i as int);
            }
            return match budgets[i].ceiling {
                Ceiling::Unknown { .. } => false,
                _ => true,
            };
        }
        i += 1;
    }
    proof {
        lemma_first_index_is(budgets@, q, budgets@.len() as int);
    }
    false
}

/// The providers in the order of their names.
pub open spec fn by_name() -> Seq<ProviderKind> {
    seq![
        ProviderKind::LlamaCpp,
        ProviderKind::LmStudio,
        ProviderKind::Ollama,
        ProviderKind::Vllm,
    ]
}

/// Whether an assignment places anything on a provider.
pub open spec fn places_on(assigned: Seq<Assigned>, p: ProviderKind) -> bool {
    exists|i: int| 0 <= i < assigned.len() && (#[trigger] assigned[i]).candidate.provider == p
}

/// The providers an assignment places anything on, each once, by name.
pub open spec fn used_by(assigned: Seq<Assigned>) -> Seq<ProviderKind> {
    by_name().filter(|p: ProviderKind| places_on(assigned, p))
}

pub open spec fn contains_kind(s: Seq<ProviderKind>, p: ProviderKind) -> bool {
    exists|i: int| 0 <= i < s.len() && #[trigger] s[i] == p
}

/// What a provider's overhead is, where its baseline is known.
pub open spec fn overhead_of(
    p: ProviderKind,
    baselines: Seq<Baseline>,
    running: Seq<ProviderKind>,
) -> Option<Overhead> {
    match baseline_of(baselines, p) {
        Some(b) => Some(
            Overhead {
                provider: p,
                bytes: b.bytes,
                running: contains_kind(running, p),
                thin: b.thin,
            },
        ),
        None => None,
    }
}

/// The overheads of an assignment: one for each provider it uses.
pub open spec fn overheads_of(
    assigned: Seq<Assigned>,
    baselines: Seq<Baseline>,
    running: Seq<ProviderKind>,
) -> Seq<Overhead> {
    used_by(assigned).filter_map(|p: ProviderKind| overhead_of(p, baselines, running))
}

/// The providers an assignment places anything on, each once, by name.
pub(crate) fn providers_of(assigned: &[Assigned]) -> (r: Vec<ProviderKind>)
    ensures
        r@ == used_by(assigned@),
{
    let ghost q = |p: ProviderKind| places_on(assigned@, p);
    let order = [
        ProviderKind::LlamaCpp,
        ProviderKind::LmStudio,
        ProviderKind::Ollama,
        ProviderKind::Vllm,
    ];
    let mut out: Vec<ProviderKind> = Vec::new();
    let mut i: usize = 0;
    while i < 4
        invariant
            i <= 4,
            order@ == by_name(),
            q == (|p: ProviderKind| places_on(assigned@, p)),
            out@ == by_name().take(i as int).filter(q),
        decreases 4 - i,
    {
        proof {
            lemma_filter_take(by_name(), q, i as int);
        }
        let kind = order[i];
        let mut found: bool = false;
        let mut k: usize = 0;
        while k < assigned.len() && !found
            invariant
                k <= assigned@.len(),
                found ==> places_on(assigned@, kind),
                !found ==> forall|j: int|
                    0 <= j < k ==> (#[trigger] assigned@[j]).candidate.provider != kind,
            decreases assigned.len() - k + (if found {
                0int
            } else {
                1
            }),
        {
            if assigned[k].candidate.provider == kind {
                found = true;
            } else {
                k += 1;
            }
        }
        if found {
            out.push(kind);
        }
        i += 1;
    }
    proof {
        assert(by_name().take(4) =~= by_name());
    }
    out
}

pub(crate) fn has_kind(s: &[ProviderKind], p: ProviderKind) -> (r: bool)
    ensures
        r == contains_kind(s@, p),
{
    let mut i: usize = 0;
    while i < s.len()
        invariant
            i <= s@.len(),
            forall|k: int| 0 <= k < i ==> #[trigger] s@[k] != p,
        decreases s.len() - i,
    {
        if s[i] == p {
            return true;
        }
        i += 1;
    }
    false
}

/// The overheads of an assignment.
pub(crate) fn overheads_for(assigned: &[Assigned], baselines: &[Baseline], running: &[ProviderKind]) -> (r:
    Vec<Overhead>)
    ensures
        r@ == overheads_of(assigned@, baselines@, running@),
{
    let used = providers_of(assigned);
    let ghost f = |p: ProviderKind| overhead_of(p, baselines@, running@);
    let mut out: Vec<Overhead> = Vec::new();
    let mut i: usize = 0;
    proof {
        assert(used@.take(0).filter_map(f) =~= Seq::<Overhead>::empty());
    }
    while i < used.len()
        invariant
            i <= used@.len(),
            f == (|p: ProviderKind| overhead_of(p, baselines@, running@)),
            out@ == used@.take(i as int).filter_map(f),
        decreases used.len() - i,
    {
        proof {
            used@.lemma_filter_map_take_succ(f, i as int);
        }
        let p = used[i];
        if let Some(b) = baseline_for(baselines, p) {
            out.push(
                Overhead {
                    provider: p,
                    bytes: b.bytes,
                    running: has_kind(running, p),
                    thin: b.thin,
                },
            );
        }
        proof {
            assert(out@ =~= used@.take(i + 1).filter_map(f));
        }
        i += 1;
    }
    proof {
        assert(used@.take(i as int) =~= used@);
    }
    out
}

/// Whether a placed model may be proposed to be dropped: it was charged, and
/// nothing protects it.
pub open spec fn droppable(a: Assigned, pins: Seq<Pin>, now: u64) -> bool {
    charge(a) > 0 && holder(pins, a.candidate.provider, a.candidate.provider_model_id@, now) is None
}

/// What could be dropped, the largest first.
pub open spec fn drop_line(assigned: Seq<Assigned>, pins: Seq<Pin>, now: u64) -> Seq<Assigned> {
    stable_sort(
        assigned.filter(|a: Assigned| droppable(a, pins, now)),
        |a: Assigned, b: Assigned| charge(a) >= charge(b),
    )
}

/// The fewest members whose removal frees `short`; all that may go, when even
/// they do not.
pub open spec fn drops(assigned: Seq<Assigned>, pins: Seq<Pin>, now: u64, short: nat) -> Seq<
    Assigned,
> {
    let line = drop_line(assigned, pins, now);
    line.take(shortest_front(line, |a: Assigned| charge(a), short as int))
}

pub open spec fn model_names(a: Seq<Assigned>) -> Seq<Seq<char>> {
    a.map_values(|x: Assigned| x.model@)
}

/// The fewest members whose removal frees `short`.
///
/// Largest first. A member that is already resident frees nothing by being
/// dropped, and one held by a pin or a lease is not on the table at all.
fn smallest_drop(assigned: &[Assigned], pins: &Pins, now: u64, short: u64) -> (r: Vec<String>)
    ensures
        texts(r@) == model_names(drops(assigned@, pins@, now, short as nat)),
{
    let ghost p = |a: Assigned| droppable(a, pins@, now);
    let ghost f = |a: Assigned| charge(a);
    let mut able: Vec<Assigned> = Vec::new();
    let mut i: usize = 0;
    while i < assigned.len()
        invariant
            i <= assigned@.len(),
            p == (|a: Assigned| droppable(a, pins@, now)),
            able@ == assigned@.take(i as int).filter(p),
        decreases assigned.len() - i,
    {
        proof {
            lemma_filter_take(assigned@, p, i as int);
        }
        let a = &assigned[i];
        if a.charged_bytes() > 0 && pins.holds(
            a.candidate.provider,
            a.candidate.provider_model_id.as_str(),
            now,
        ).is_none() {
            able.push(a.clone());
        }
        i += 1;
    }
    proof {
        assert(assigned@.take(i as int) =~= assigned@);
    }
    let le = |a: &Assigned, b: &Assigned| -> (r: bool)
        ensures
            r == (charge(*a) >= charge(*b)),
    {
        a.charged_bytes() >= b.charged_bytes()
    };
    let line = sort_with(able, le, Ghost(|a: Assigned, b: Assigned| charge(a) >= charge(b)));
    let mut freed: u64 = 0;
    let mut out: Vec<String> = Vec::new();
    let mut k: usize = 0;
    proof {
        assert(line@.take(0).len() == 0);
        assert(texts(out@) =~= model_names(line@.take(0)));
    }
    while k < line.len() && freed < short
        invariant
            k <= line@.len(),
            f == (|a: Assigned| charge(a)),
            freed == crate::seqs::capped(total(line@.take(k as int), f)),
            forall|j: int| 0 <= j < k ==> total(#[trigger] line@.take(j), f) < short,
            texts(out@) == model_names(line@.take(k as int)),
        decreases line.len() - k,
    {
        proof {
            lemma_total_take(line@, f, k as int);
        }
        freed = freed.saturating_add(line[k].charged_bytes());
        let ghost was = out@;
        out.push(line[k].model.clone());
        proof {
            assert(texts(out@) =~= texts(was).push(line@[k as int].model@));
            assert(model_names(line@.take(k + 1)) =~= model_names(line@.take(k as int)).push(
                line@[k as int].model@,
            ));
        }
        k += 1;
    }
    proof {
        lemma_shortest_front_is(line@, f, short as int, k as int);
    }
    out
}

/// The bytes a set may take: what is free, less the reserve.
pub open spec fn headroom(machine: Machine, reserve: u64) -> nat {
    if machine.free() >= reserve {
        (machine.free() - reserve) as nat
    } else {
        0
    }
}

/// The usable offers of every model.
pub open spec fn offered(offers: Seq<Vec<Offer>>) -> Seq<Seq<Offer>> {
    offers.map_values(|v: Vec<Offer>| usable(v@))
}

/// The first model with no usable offer, or the number of models.
pub open spec fn first_obstacle(offers: Seq<Vec<Offer>>) -> int {
    first_index(offers, |v: Vec<Offer>| usable(v@).len() == 0)
}

/// What every allowed assignment of the models costs.
pub open spec fn prices_of(models: Seq<String>, i: Inputs) -> Seq<Option<nat>> {
    costs(models, offered(i.offers@), i.baselines@, i.running@, i.budgets@)
}

/// The plan places nothing.
pub open spec fn nothing_placed(p: Plan) -> bool {
    &&& p.assigned@.len() == 0
    &&& p.overheads@.len() == 0
    &&& p.charged_bytes == 0
    &&& p.runner_up is None
    &&& p.unchecked_ceilings@.len() == 0
}

/// Whether a verdict is the one owed to an assignment: it fits exactly when it
/// costs no more than the headroom, and otherwise names the shortfall and the
/// fewest members to drop.
pub open spec fn judged(
    v: Verdict,
    assigned: Seq<Assigned>,
    charged: nat,
    room: nat,
    pins: Seq<Pin>,
    now: u64,
) -> bool {
    match v {
        Verdict::Fits => charged <= room,
        Verdict::DoesNotFit { short_by_bytes, smallest_drop } => {
            &&& charged > room
            &&& short_by_bytes == charged - room
            &&& texts(smallest_drop@) == model_names(
                drops(assigned, pins, now, (charged - room) as nat),
            )
        },
        _ => false,
    }
}

/// Whether a plan is the answer to a set of models.
pub open spec fn planned(models: Seq<String>, i: Inputs, p: Plan) -> bool {
    let k = first_obstacle(i.offers@);
    let c = offered(i.offers@);
    let prices = prices_of(models, i);
    &&& p.headroom_bytes == headroom(*i.machine, i.reserve_bytes)
    &&& if k < models.len() {
        // A model that nothing serves, or that nothing can price, stops the set.
        &&& nothing_placed(p)
        &&& !p.capped
        &&& if i.offers@[k]@.len() == 0 {
            p.verdict == (Verdict::Unservable { model: models[k] })
        } else {
            p.verdict == (Verdict::Unpriced { model: models[k] })
        }
    } else {
        &&& p.capped == (ways(c) > MAX_ASSIGNMENTS)
        &&& match winner(prices) {
            None => {
                &&& nothing_placed(p)
                &&& match p.verdict {
                    Verdict::CeilingRefusal { provider, allowed, wanted } => refusal(
                        assignment(models, c, 0),
                        i.budgets@,
                    ) == Some((provider, allowed, wanted as nat)),
                    _ => false,
                }
            },
            Some(n) => {
                &&& p.assigned@ == assignment(models, c, n as nat)
                &&& p.charged_bytes == price(p.assigned@, i.baselines@, i.running@)
                &&& p.overheads@ == overheads_of(p.assigned@, i.baselines@, i.running@)
                &&& reported(p.runner_up, models, c, prices, second(prices))
                &&& p.unchecked_ceilings@ == used_by(p.assigned@).filter(
                    |q: ProviderKind| !readable(i.budgets@, q),
                )
                &&& judged(
                    p.verdict,
                    p.assigned@,
                    p.charged_bytes as nat,
                    p.headroom_bytes as nat,
                    i.pins@,
                    i.now,
                )
            },
        }
    }
}

/// A plan that places nothing.
fn nothing(headroom_bytes: u64, verdict: Verdict, capped: bool) -> (p: Plan)
    ensures
        nothing_placed(p),
        p.headroom_bytes == headroom_bytes,
        p.verdict == verdict,
        p.capped == capped,
{
    Plan {
        assigned: Vec::new(),
        overheads: Vec::new(),
        charged_bytes: 0,
        headroom_bytes,
        verdict,
        runner_up: None,
        unchecked_ceilings: Vec::new(),
        capped,
    }
}

/// A copy of a list of offers.
fn copied(offers: &Vec<Offer>) -> (r: Vec<Offer>)
    ensures
        r@ == offers@,
{
    let mut out: Vec<Offer> = Vec::new();
    let mut k: usize = 0;
    while k < offers.len()
        invariant
            k <= offers@.len(),
            out@ == offers@.take(k as int),
        decreases offers.len() - k,
    {
        out.push((offers[k].0.clone(), offers[k].1));
        proof {
            assert(offers@.take(k + 1) =~= offers@.take(k as int).push(offers@[k as int]));
        }
        k += 1;
    }
    proof {
        assert(offers@.take(k as int) =~= offers@);
    }
    out
}

/// Whether no offer may be admitted on.
fn none_usable(offers: &Vec<Offer>) -> (r: bool)
    ensures
        r == (usable(offers@).len() == 0),
{
    let ghost p = |o: Offer| may_admit(o);
    proof {
        lemma_filter_members(offers@, p);
    }
    let mut k: usize = 0;
    while k < offers.len()
        invariant
            k <= offers@.len(),
            p == (|o: Offer| may_admit(o)),
            forall|j: int| 0 <= j < k ==> !p(#[trigger] offers@[j]),
        decreases offers.len() - k,
    {
        if admissible(&offers[k].0, &offers[k].1) {
            proof {
                lemma_filter_members(offers@, p);
                assert(offers@.contains(offers@[k as int]));
                assert(offers@.filter(p).contains(offers@[k as int]));
            }
            return false;
        }
        k += 1;
    }
    proof {
        if offers@.filter(p).len() > 0 {
            let o = offers@.filter(p)[0];
            assert(offers@.contains(o) && p(o));
            let j = offers@.index_of(o);
            assert(!p(offers@[j]));
        }
    }
    true
}

/// Plan a set. Touches nothing, and cannot: there is no actuation here.
pub fn plan(models: &[String], i: &Inputs) -> (p: Plan)
    requires
        models@.len() == i.offers@.len(),
        all_countable(prices_of(models@, *i)),
    ensures
        planned(models@, *i, p),
{
    let room = i.machine.free_bytes().saturating_sub(i.reserve_bytes);
    let ghost q = |v: Vec<Offer>| usable(v@).len() == 0;
    let ghost c = offered(i.offers@);
    let mut options: Vec<(String, Vec<Offer>)> = Vec::new();
    let mut k: usize = 0;
    while k < models.len()
        invariant
            k <= models@.len(),
            models@.len() == i.offers@.len(),
            q == (|v: Vec<Offer>| usable(v@).len() == 0),
            c == offered(i.offers@),
            room == headroom(*i.machine, i.reserve_bytes),
            options@.len() == k,
            forall|j: int| 0 <= j < k ==> !q(#[trigger] i.offers@[j]),
            forall|j: int|
                0 <= j < k ==> (#[trigger] options@[j]).0 == models@[j] && usable(options@[j].1@)
                    == c[j],
        decreases models.len() - k,
    {
        let offers = &i.offers[k];
        if none_usable(offers) {
            proof {
                lemma_first_index_is(i.offers@, q, k as int);
            }
            let model = models[k].clone();
            return if offers.len() == 0 {
                nothing(room, Verdict::Unservable { model }, false)
            } else {
                nothing(room, Verdict::Unpriced { model }, false)
            };
        }
        options.push((models[k].clone(), copied(offers)));
        k += 1;
    }
    proof {
        lemma_first_index_is(i.offers@, q, k as int);
        assert(named(options@) =~= models@);
        assert(choices(options@) =~= c);
        assert forall|j: int| 0 <= j < c.len() implies (#[trigger] c[j]).len() > 0 by {
            assert(!q(i.offers@[j]));
        }
        lemma_some_way(c);
        the_search_finds_the_best_two(prices_of(models@, *i));
    }
    let outcome = search::cheapest(options.as_slice(), i);
    match outcome.best {
        None => {
            let (provider, allowed, wanted) = match outcome.ceiling_refusal {
                Some(r) => r,
                None => vstd::pervasive::unreached(),
            };
            nothing(room, Verdict::CeilingRefusal { provider, allowed, wanted }, outcome.capped)
        },
        Some((assigned, charged)) => {
            let ghost f = |q: ProviderKind| !readable(i.budgets@, q);
            let used = &outcome.providers_used;
            let mut unchecked: Vec<ProviderKind> = Vec::new();
            let mut j: usize = 0;
            while j < used.len()
                invariant
                    j <= used@.len(),
                    f == (|q: ProviderKind| !readable(i.budgets@, q)),
                    unchecked@ == used@.take(j as int).filter(f),
                decreases used.len() - j,
            {
                proof {
                    lemma_filter_take(used@, f, j as int);
                }
                if !can_read(i.budgets, used[j]) {
                    unchecked.push(used[j]);
                }
                j += 1;
            }
            proof {
                assert(used@.take(j as int) =~= used@);
            }
            let overheads = overheads_for(assigned.as_slice(), i.baselines, i.running);
            let verdict = if charged <= room {
                Verdict::Fits
            } else {
                let short = charged - room;
                Verdict::DoesNotFit {
                    short_by_bytes: short,
                    smallest_drop: smallest_drop(assigned.as_slice(), i.pins, i.now, short),
                }
            };
            Plan {
                assigned,
                overheads,
                charged_bytes: charged,
                headroom_bytes: room,
                verdict,
                runner_up: outcome.runner_up,
                unchecked_ceilings: unchecked,
                capped: outcome.capped,
            }
        },
    }
}

/// There is an assignment when every model has a usable offer.
proof fn lemma_some_way(c: Seq<Seq<Offer>>)
    requires
        forall|k: int| 0 <= k < c.len() ==> (#[trigger] c[k]).len() > 0,
    ensures
        ways(c) > 0,
    decreases c.len(),
{
    if c.len() > 0 {
        let front = c.drop_last();
        assert forall|k: int| 0 <= k < front.len() implies (#[trigger] front[k]).len() > 0 by {
            assert(c[k].len() > 0);
        }
        lemma_some_way(front);
        assert(c.last().len() > 0);
        assert(ways(front) * c.last().len() > 0) by (nonlinear_arith)
            requires
                ways(front) > 0,
                c.last().len() > 0,
        ;
    }
}

/// A provider's baseline is charged once, however many of its models an
/// assignment picks, and only where the assignment picks any.
pub proof fn a_baseline_is_charged_once(
    assigned: Seq<Assigned>,
    baselines: Seq<Baseline>,
    running: Seq<ProviderKind>,
)
    ensures
        forall|i: int, j: int|
            #![trigger overheads_of(assigned, baselines, running)[i], overheads_of(assigned, baselines, running)[j]]
            0 <= i < j < overheads_of(assigned, baselines, running).len() ==> overheads_of(
                assigned,
                baselines,
                running,
            )[i].provider != overheads_of(assigned, baselines, running)[j].provider,
        forall|i: int|
            0 <= i < overheads_of(assigned, baselines, running).len() ==> places_on(
                assigned,
                (#[trigger] overheads_of(assigned, baselines, running)[i]).provider,
            ),
{
    let p = |p: ProviderKind| places_on(assigned, p);
    lemma_filter_members(by_name(), p);
    lemma_filter_keeps_apart(by_name(), p);
    lemma_one_overhead_each(used_by(assigned), baselines, running);
    let o = overheads_of(assigned, baselines, running);
    assert forall|i: int| 0 <= i < o.len() implies places_on(assigned, (#[trigger] o[i]).provider) by {
        assert(used_by(assigned).contains(o[i].provider));
    }
}

/// Filtering brings no duplicates into a sequence that has none.
proof fn lemma_filter_keeps_apart<T>(s: Seq<T>, p: spec_fn(T) -> bool)
    requires
        s.no_duplicates(),
    ensures
        s.filter(p).no_duplicates(),
    decreases s.len(),
{
    if s.len() == 0 {
        lemma_filter_members(s, p);
    } else {
        let n = s.len() - 1;
        let front = s.take(n);
        lemma_filter_keeps_apart(front, p);
        lemma_filter_take(s, p, n);
        lemma_filter_members(front, p);
        assert(s.take(n + 1) =~= s);
        let f = front.filter(p);
        assert forall|i: int| 0 <= i < f.len() implies #[trigger] f[i] != s[n] by {
            let k = front.index_of(f[i]);
            assert(s[k] == f[i]);
        }
    }
}

proof fn lemma_one_overhead_each(
    used: Seq<ProviderKind>,
    baselines: Seq<Baseline>,
    running: Seq<ProviderKind>,
)
    requires
        used.no_duplicates(),
    ensures
        ({
            let o = used.filter_map(|p: ProviderKind| overhead_of(p, baselines, running));
            &&& forall|i: int| 0 <= i < o.len() ==> used.contains((#[trigger] o[i]).provider)
            &&& forall|i: int|
                0 <= i < o.len() ==> (#[trigger] o[i]).running == contains_kind(
                    running,
                    o[i].provider,
                )
            &&& forall|i: int, j: int|
                0 <= i < j < o.len() ==> (#[trigger] o[i]).provider != (#[trigger] o[j]).provider
        }),
    decreases used.len(),
{
    let f = |p: ProviderKind| overhead_of(p, baselines, running);
    if used.len() == 0 {
        assert(used.filter_map(f) =~= Seq::<Overhead>::empty());
    } else {
        let n = used.len() - 1;
        let front = used.take(n);
        lemma_one_overhead_each(front, baselines, running);
        used.lemma_filter_map_take_succ(f, n);
        assert(used.take(n + 1) =~= used);
        let o = front.filter_map(f);
        let all = used.filter_map(f);
        assert forall|i: int| 0 <= i < o.len() implies used.contains((#[trigger] o[i]).provider) by {
            let k = front.index_of(o[i].provider);
            assert(used[k] == o[i].provider);
        }
        assert(used.contains(used[n]));
        if f(used[n]) is Some {
            assert forall|i: int| 0 <= i < o.len() implies (#[trigger] o[i]).provider != used[n] by {
                let k = front.index_of(o[i].provider);
                assert(used[k] == o[i].provider);
            }
        }
    }
}

/// Models that are all resident, on providers that are all running, cost
/// nothing: a set that is already satisfied is never refused.
pub proof fn a_satisfied_set_costs_nothing(
    assigned: Seq<Assigned>,
    baselines: Seq<Baseline>,
    running: Seq<ProviderKind>,
)
    requires
        forall|k: int| 0 <= k < assigned.len() ==> (#[trigger] assigned[k]).resident,
        forall|k: int|
            0 <= k < assigned.len() ==> contains_kind(
                running,
                (#[trigger] assigned[k]).candidate.provider,
            ),
    ensures
        price(assigned, baselines, running) == 0,
{
    lemma_nothing_in_all(assigned, |x: Assigned| charge(x));
    a_baseline_is_charged_once(assigned, baselines, running);
    let o = overheads_of(assigned, baselines, running);
    lemma_filter_keeps_apart(by_name(), |p: ProviderKind| places_on(assigned, p));
    lemma_one_overhead_each(used_by(assigned), baselines, running);
    assert forall|k: int| 0 <= k < o.len() implies overhead_charge(#[trigger] o[k]) == 0 by {
        let p = o[k].provider;
        assert(places_on(assigned, p));
        let a = choose|a: int| 0 <= a < assigned.len() && (#[trigger] assigned[a]).candidate.provider == p;
        assert(contains_kind(running, assigned[a].candidate.provider));
    }
    lemma_nothing_in_all(o, |x: Overhead| overhead_charge(x));
}

proof fn lemma_nothing_in_all<T>(s: Seq<T>, f: spec_fn(T) -> nat)
    requires
        forall|k: int| 0 <= k < s.len() ==> f(#[trigger] s[k]) == 0,
    ensures
        total(s, f) == 0,
    decreases s.len(),
{
    if s.len() > 0 {
        let front = s.drop_last();
        assert forall|k: int| 0 <= k < front.len() implies f(#[trigger] front[k]) == 0 by {
            assert(f(s[k]) == 0);
        }
        lemma_nothing_in_all(front, f);
        assert(f(s[s.len() - 1]) == 0);
    }
}

/// What is proposed to be dropped is never held by a pin or a live lease, and
/// always frees something.
pub proof fn a_held_member_is_never_dropped(
    assigned: Seq<Assigned>,
    pins: Seq<Pin>,
    now: u64,
    short: nat,
)
    ensures
        forall|k: int|
            0 <= k < drops(assigned, pins, now, short).len() ==> droppable(
                #[trigger] drops(assigned, pins, now, short)[k],
                pins,
                now,
            ) && assigned.contains(drops(assigned, pins, now, short)[k]),
{
    let p = |a: Assigned| droppable(a, pins, now);
    let le = |a: Assigned, b: Assigned| charge(a) >= charge(b);
    let line = drop_line(assigned, pins, now);
    let f = |a: Assigned| charge(a);
    lemma_filter_members(assigned, p);
    lemma_shortest_front(line, f, short as int);
    let d = drops(assigned, pins, now, short);
    assert forall|k: int| 0 <= k < d.len() implies droppable(#[trigger] d[k], pins, now)
        && assigned.contains(d[k]) by {
        assert(d[k] == line[k]);
        assert(line.contains(line[k]));
        lemma_stable_sort_contains(assigned.filter(p), le, line[k]);
    }
}

/// A drop frees the shortfall whenever everything that may go would, and no
/// choice of fewer members does.
pub proof fn no_smaller_drop_is_enough(
    assigned: Seq<Assigned>,
    pins: Seq<Pin>,
    now: u64,
    short: nat,
    picks: Seq<int>,
)
    requires
        forall|a: int|
            0 <= a < picks.len() ==> 0 <= #[trigger] picks[a] < drop_line(assigned, pins, now).len(),
        forall|a: int, b: int| 0 <= a < b < picks.len() ==> #[trigger] picks[a] < #[trigger] picks[b],
    ensures
        total(drop_line(assigned, pins, now), |a: Assigned| charge(a)) >= short ==> total(
            drops(assigned, pins, now, short),
            |a: Assigned| charge(a),
        ) >= short,
        picks.len() < drops(assigned, pins, now, short).len() ==> total(
            picks,
            |k: int| charge(drop_line(assigned, pins, now)[k]),
        ) < short,
{
    let le = |a: Assigned, b: Assigned| charge(a) >= charge(b);
    let f = |a: Assigned| charge(a);
    let line = drop_line(assigned, pins, now);
    let p = |a: Assigned| droppable(a, pins, now);
    lemma_shortest_front(line, f, short as int);
    lemma_stable_sort(assigned.filter(p), le);
    let n = shortest_front(line, f, short as int);
    if picks.len() < n {
        lemma_front_is_largest(line, picks);
        if picks.len() < n - 1 {
            lemma_total_grows(line, f, picks.len() as int, n - 1);
        }
    }
}

pub(crate) proof fn lemma_total_grows<T>(s: Seq<T>, f: spec_fn(T) -> nat, i: int, j: int)
    requires
        0 <= i <= j <= s.len(),
    ensures
        total(s.take(i), f) <= total(s.take(j), f),
    decreases j - i,
{
    if i < j {
        lemma_total_grows(s, f, i, j - 1);
        lemma_total_take(s, f, j - 1);
    }
}

/// No choice of members from a line in descending order weighs more than as
/// many taken from its front.
pub(crate) proof fn lemma_front_is_largest(line: Seq<Assigned>, picks: Seq<int>)
    requires
        crate::seqs::ordered(line, |a: Assigned, b: Assigned| charge(a) >= charge(b)),
        forall|a: int| 0 <= a < picks.len() ==> 0 <= #[trigger] picks[a] < line.len(),
        forall|a: int, b: int| 0 <= a < b < picks.len() ==> #[trigger] picks[a] < #[trigger] picks[b],
    ensures
        picks.len() <= line.len(),
        total(picks, |k: int| charge(line[k])) <= total(
            line.take(picks.len() as int),
            |a: Assigned| charge(a),
        ),
        picks.len() > 0 ==> picks.last() >= picks.len() - 1,
    decreases picks.len(),
{
    let f = |a: Assigned| charge(a);
    let g = |k: int| charge(line[k]);
    let le = |a: Assigned, b: Assigned| charge(a) >= charge(b);
    if picks.len() > 0 {
        let front = picks.drop_last();
        lemma_front_is_largest(line, front);
        let n = front.len() as int;
        let last = picks.last();
        assert(picks[n] == last);
        if n > 0 {
            assert(front.last() == picks[n - 1]);
        }
        assert(last >= n);
        lemma_total_take(line, f, n);
        if n < last {
            assert(le(line[n], line[last]));
        }
        assert(g(last) <= f(line[n]));
    }
}

/// One member that nothing serves or prices stops the set: nothing is placed,
/// and no sum is reported that leaves it out.
pub proof fn one_unpriced_member_stops_the_set(models: Seq<String>, i: Inputs, p: Plan, k: int)
    requires
        models.len() == i.offers@.len(),
        planned(models, i, p),
        0 <= k < models.len(),
        usable(i.offers@[k]@).len() == 0,
    ensures
        nothing_placed(p),
        p.verdict is Unservable || p.verdict is Unpriced,
{
    let q = |v: Vec<Offer>| usable(v@).len() == 0;
    lemma_first_index(i.offers@, q);
    assert(q(i.offers@[k]));
}

} // verus!
