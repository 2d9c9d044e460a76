//! What every provider holds right now, one row each.
use vstd::prelude::*;

use crate::memory::{port_from_url, url_port, Machine, ProcessSample, ProcessTree};
use crate::provider::{LoadedModel, ProbeError, ProviderKind, State};
use crate::seqs::{lemma_filter_members, lemma_filter_take, lemma_total_take, total};

verus! {

/// What asking a provider for its models came to.
#[derive(Debug)]
pub enum Outcome {
    Answered(Vec<LoadedModel>),
    Failed(ProbeError),
}

#[derive(Debug)]
pub struct ProviderRow {
    pub kind: ProviderKind,
    pub url: String,
    pub outcome: Outcome,
    pub pids: Vec<u32>,
    /// `max(phys_footprint, rss)` per process, summed.
    pub footprint_bytes: Option<u64>,
    /// Components, so the estimator can revisit the choice of measure.
    pub phys_footprint_bytes: Option<u64>,
    pub rss_bytes: Option<u64>,
    /// Per-process breakdown, for attribution. Empty when unreadable.
    pub processes: Vec<ProcessSample>,
}

/// The models an outcome reports as resident.
pub open spec fn resident_of(o: Outcome) -> Seq<LoadedModel> {
    match o {
        Outcome::Answered(models) => models@.filter(|m: LoadedModel| m.state == State::Loaded),
        Outcome::Failed(_) => Seq::empty(),
    }
}

/// What a model's weights weigh, nothing when it does not say.
pub open spec fn weight_of(m: LoadedModel) -> nat {
    match m.weights_bytes {
        Some(b) => b as nat,
        None => 0,
    }
}

/// The summed weights of a list of models, known only when every one of them publishes a size.
pub open spec fn weights_of(models: Seq<LoadedModel>) -> Option<nat> {
    if models.len() > 0 && forall|i: int|
        0 <= i < models.len() ==> (#[trigger] models[i]).weights_bytes is Some {
        Some(total(models, |m: LoadedModel| weight_of(m)))
    } else {
        None
    }
}

impl ProviderRow {
    /// The published sizes can be added up in 64 bits.
    pub open spec fn countable(self) -> bool {
        total(resident_of(self.outcome), |m: LoadedModel| weight_of(m)) <= u64::MAX
    }

    pub fn loaded(&self) -> (r: Vec<&LoadedModel>)
        ensures
            r@.unref() == resident_of(self.outcome),
    {
        let mut out: Vec<&LoadedModel> = Vec::new();
        match &self.outcome {
            Outcome::Answered(models) => {
                let ghost p = |m: LoadedModel| m.state == State::Loaded;
                let mut i: usize = 0;
                while i < models.len()
                    invariant
                        i <= models.len(),
                        p == (|m: LoadedModel| m.state == State::Loaded),
                        out@.unref() =~= models@.take(i as int).filter(p),
                    decreases models.len() - i,
                {
                    proof {
                        lemma_filter_take(models@, p, i as int);
                    }
                    if models[i].state == State::Loaded {
                        out.push(&models[i]);
                    }
                    i += 1;
                }
                proof {
                    assert(models@.take(i as int) =~= models@);
                }
            },
            Outcome::Failed(_) => {
                proof {
                    assert(out@.unref() =~= Seq::<LoadedModel>::empty());
                }
            },
        }
        out
    }

    /// Summed weights of resident models, `None` unless *every* resident model
    /// publishes a size. A partial sum would understate, and understating is
    /// the failure mode that crashes the machine.
    pub fn weights_bytes(&self) -> (r: Option<u64>)
        requires
            self.countable(),
        ensures
            match r {
                Some(b) => weights_of(resident_of(self.outcome)) == Some(b as nat),
                None => weights_of(resident_of(self.outcome)) is None,
            },
    {
        let loaded = self.loaded();
        let ghost all = resident_of(self.outcome);
        let ghost f = |m: LoadedModel| weight_of(m);
        if loaded.len() == 0 {
            return None;
        }
        let mut sum: u64 = 0;
        let mut i: usize = 0;
        while i < loaded.len()
            invariant
                i <= loaded.len(),
                loaded@.unref() == all,
                all == resident_of(self.outcome),
                f == (|m: LoadedModel| weight_of(m)),
                total(all, f) <= u64::MAX,
                sum == total(all.take(i as int), f),
                forall|j: int| 0 <= j < i ==> (#[trigger] all[j]).weights_bytes is Some,
            decreases loaded.len() - i,
        {
            proof {
                lemma_total_take(all, f, i as int);
                assert(*loaded@[i as int] == all[i as int]);
            }
            match loaded[i].weights_bytes {
                Some(b) => {
                    sum = sum + b;
                },
                None => {
                    proof {
                        assert(all[i as int].weights_bytes is None);
                    }
                    return None;
                },
            }
            i += 1;
        }
        proof {
            assert(all.take(i as int) =~= all);
        }
        Some(sum)
    }

    /// KV cache, prefix cache, and activations: what the weights figure omits.
    pub open spec fn gap(self) -> Option<nat> {
        match (self.footprint_bytes, weights_of(resident_of(self.outcome))) {
            (Some(f), Some(w)) => Some(if f >= w {
                (f - w) as nat
            } else {
                0
            }),
            _ => None,
        }
    }

    pub fn gap_bytes(&self) -> (r: Option<u64>)
        requires
            self.countable(),
        ensures
            match r {
                Some(b) => self.gap() == Some(b as nat),
                None => self.gap() is None,
            },
    {
        match (self.footprint_bytes, self.weights_bytes()) {
            (Some(f), Some(w)) => Some(f.saturating_sub(w)),
            _ => None,
        }
    }

    /// The port to look for processes behind: memory is attributed only to a
    /// provider that answered.
    pub fn port_to_read(outcome: &Outcome, url: &str) -> (r: Option<u16>)
        ensures
            r == match *outcome {
                Outcome::Answered(_) => url_port(url@),
                Outcome::Failed(_) => None,
            },
    {
        match outcome {
            Outcome::Answered(_) => port_from_url(url),
            Outcome::Failed(_) => None,
        }
    }

    /// The row of one provider, from what it answered and the processes found
    /// behind its port.
    pub fn assembled(
        kind: ProviderKind,
        url: String,
        outcome: Outcome,
        tree: Option<ProcessTree>,
    ) -> (r: ProviderRow)
        ensures
            r.kind == kind,
            r.url == url,
            r.outcome == outcome,
            match tree {
                Some(t) => r.pids@ == t.pids@ && r.footprint_bytes == t.footprint_bytes
                    && r.phys_footprint_bytes == t.phys_footprint_bytes && r.rss_bytes
                    == t.rss_bytes && r.processes@ == t.processes@,
                None => r.pids@.len() == 0 && r.footprint_bytes is None
                    && r.phys_footprint_bytes is None && r.rss_bytes is None && r.processes@.len()
                    == 0,
            },
    {
        match tree {
            Some(t) => ProviderRow {
                kind,
                url,
                outcome,
                pids: t.pids,
                footprint_bytes: t.footprint_bytes,
                phys_footprint_bytes: t.phys_footprint_bytes,
                rss_bytes: t.rss_bytes,
                processes: t.processes,
            },
            None => ProviderRow {
                kind,
                url,
                outcome,
                pids: Vec::new(),
                footprint_bytes: None,
                phys_footprint_bytes: None,
                rss_bytes: None,
                processes: Vec::new(),
            },
        }
    }
}

/// Bumped whenever the serialised shape changes in a way a consumer would
/// notice. Consumers should refuse a schema they do not know.
pub const SCHEMA: u32 = 1;

#[derive(Debug)]
pub struct Ledger {
    pub schema_version: u32,
    pub machine: Machine,
    pub rows: Vec<ProviderRow>,
}

/// What a row adds to the footprint, nothing when it could not be read.
pub open spec fn row_footprint(r: ProviderRow) -> nat {
    match r.footprint_bytes {
        Some(b) => b as nat,
        None => 0,
    }
}

impl Ledger {
    /// The readable footprints can be added up in 64 bits.
    pub open spec fn countable(self) -> bool {
        total(self.rows@, |r: ProviderRow| row_footprint(r)) <= u64::MAX
    }

    /// The summed footprint, unknown only when no provider reported one.
    pub open spec fn footprint(self) -> Option<nat> {
        if self.rows@.any(|r: ProviderRow| r.footprint_bytes is Some) {
            Some(total(self.rows@, |r: ProviderRow| row_footprint(r)))
        } else {
            None
        }
    }

    /// The ledger of these rows, in the order they were asked for.
    pub fn assemble(machine: Machine, rows: Vec<ProviderRow>) -> (l: Ledger)
        ensures
            l.schema_version == SCHEMA,
            l.machine == machine,
            l.rows == rows,
    {
        Ledger { schema_version: SCHEMA, machine, rows }
    }

    /// `None` only when no provider reported a readable footprint.
    pub fn total_footprint_bytes(&self) -> (r: Option<u64>)
        requires
            self.countable(),
        ensures
            match r {
                Some(b) => self.footprint() == Some(b as nat),
                None => self.footprint() is None,
            },
    {
        let ghost f = |r: ProviderRow| row_footprint(r);
        let ghost known = |r: ProviderRow| r.footprint_bytes is Some;
        let mut sum: u64 = 0;
        let mut any: bool = false;
        let mut i: usize = 0;
        while i < self.rows.len()
            invariant
                i <= self.rows.len(),
                f == (|r: ProviderRow| row_footprint(r)),
                known == (|r: ProviderRow| r.footprint_bytes is Some),
                total(self.rows@, f) <= u64::MAX,
                sum == total(self.rows@.take(i as int), f),
                any == exists|j: int| 0 <= j < i && known(#[trigger] self.rows@[j]),
            decreases self.rows.len() - i,
        {
            proof {
                lemma_total_take(self.rows@, f, i as int);
            }
            if let Some(b) = self.rows[i].footprint_bytes {
                proof {
                    assert(known(self.rows@[i as int]));
                }
                sum = sum + b;
                any = true;
            }
            i += 1;
        }
        proof {
            assert(self.rows@.take(i as int) =~= self.rows@);
        }
        if any {
            Some(sum)
        } else {
            None
        }
    }
}

/// One more model in an answer: a resident one is one more resident model and
/// adds its published size, one that publishes none leaves the weights unknown,
/// and one that is not resident changes nothing. Where it is the only resident
/// model, the weights are its own.
pub proof fn a_resident_model_adds_its_size(
    before: Outcome,
    after: Outcome,
    v: Vec<LoadedModel>,
    w: Vec<LoadedModel>,
    m: LoadedModel,
)
    requires
        before == Outcome::Answered(v),
        after == Outcome::Answered(w),
        w@ == v@.push(m),
    ensures
        m.state == State::Loaded ==> resident_of(after) == resident_of(before).push(m),
        m.state != State::Loaded ==> resident_of(after) == resident_of(before),
        m.state != State::Loaded ==> weights_of(resident_of(after)) == weights_of(
            resident_of(before),
        ),
        m.state == State::Loaded && m.weights_bytes is None ==> weights_of(
            resident_of(after),
        ) is None,
        m.state == State::Loaded && m.weights_bytes is Some ==> weights_of(resident_of(after))
            == match weights_of(resident_of(before)) {
            Some(n) => Some(n + m.weights_bytes->0 as nat),
            None => if forall|i: int|
                0 <= i < v@.len() ==> (#[trigger] v@[i]).state != State::Loaded {
                Some(m.weights_bytes->0 as nat)
            } else {
                None
            },
        },
{
    let p = |x: LoadedModel| x.state == State::Loaded;
    let f = |x: LoadedModel| weight_of(x);
    lemma_filter_take(w@, p, v@.len() as int);
    assert(w@.take(v@.len() as int) =~= v@);
    assert(w@.take(v@.len() as int + 1) =~= w@);
    let a = resident_of(before);
    let b = resident_of(after);
    lemma_filter_members(v@, p);
    if m.state == State::Loaded {
        assert(b == a.push(m));
        assert(b.drop_last() =~= a);
        assert(b[a.len() as int] == m);
        assert forall|i: int| 0 <= i < a.len() implies #[trigger] a[i] == b[i] by {}
        if a.len() > 0 {
            let x = a[0];
            assert(a.contains(x));
            assert(p(x) && v@.contains(x));
            let k = v@.index_of(x);
            assert(v@[k].state == State::Loaded);
        } else {
            assert forall|i: int| 0 <= i < v@.len() implies (#[trigger] v@[i]).state
                != State::Loaded by {
                if v@[i].state == State::Loaded {
                    assert(v@.contains(v@[i]) && p(v@[i]));
                    assert(a.contains(v@[i]));
                }
            }
            assert(total(a, f) == 0);
        }
        if m.weights_bytes is Some {
            if weights_of(a) is None && a.len() > 0 {
                let i = choose|i: int| 0 <= i < a.len() && (#[trigger] a[i]).weights_bytes is None;
                assert(b[i].weights_bytes is None);
            }
        }
    }
}

/// The weights are known exactly when something is resident and all of it
/// publishes a size, and they are never less than any of those sizes. An answer
/// with nothing in it has none, nor has a provider that did not answer.
pub proof fn the_weights_cover_every_resident_model(o: Outcome)
    ensures
        match o {
            Outcome::Failed(_) => resident_of(o).len() == 0 && weights_of(resident_of(o)) is None,
            Outcome::Answered(v) => {
                &&& weights_of(resident_of(o)) is Some <==> {
                    &&& exists|i: int| 0 <= i < v@.len() && (#[trigger] v@[i]).state == State::Loaded
                    &&& forall|i: int|
                        0 <= i < v@.len() && (#[trigger] v@[i]).state == State::Loaded
                            ==> v@[i].weights_bytes is Some
                }
                &&& weights_of(resident_of(o)) matches Some(n) ==> forall|i: int|
                    0 <= i < v@.len() && (#[trigger] v@[i]).state == State::Loaded
                        ==> v@[i].weights_bytes->0 <= n
                &&& v@.len() == 0 ==> resident_of(o).len() == 0
            },
        },
{
    if let Outcome::Answered(v) = o {
        let p = |x: LoadedModel| x.state == State::Loaded;
        let f = |x: LoadedModel| weight_of(x);
        let a = resident_of(o);
        lemma_filter_members(v@, p);
        assert forall|i: int| 0 <= i < a.len() implies exists|k: int|
            0 <= k < v@.len() && v@[k] == #[trigger] a[i] && v@[k].state == State::Loaded by {
            assert(a.contains(a[i]));
            assert(p(a[i]) && v@.contains(a[i]));
            let k = v@.index_of(a[i]);
            assert(v@[k] == a[i]);
        }
        assert forall|i: int| 0 <= i < v@.len() && (#[trigger] v@[i]).state
            == State::Loaded implies exists|k: int| 0 <= k < a.len() && #[trigger] a[k] == v@[i] by {
            assert(v@.contains(v@[i]) && p(v@[i]));
            assert(a.contains(v@[i]));
            let k = a.index_of(v@[i]);
            assert(a[k] == v@[i]);
        }
        if let Some(n) = weights_of(a) {
            assert forall|i: int| 0 <= i < v@.len() && (#[trigger] v@[i]).state
                == State::Loaded implies v@[i].weights_bytes->0 <= n by {
                let k = choose|k: int| 0 <= k < a.len() && #[trigger] a[k] == v@[i];
                lemma_total_take(a, f, k);
            }
        }
    }
}

/// The gap is what the footprint has beyond the weights: the two together are
/// the footprint, where it is not the lesser.
pub proof fn the_gap_and_the_weights_are_the_footprint(r: ProviderRow)
    ensures
        r.gap() is Some <==> r.footprint_bytes is Some && weights_of(resident_of(r.outcome)) is Some,
        r.gap() matches Some(g) ==> {
            let w = weights_of(resident_of(r.outcome))->0;
            if w <= r.footprint_bytes->0 {
                g + w == r.footprint_bytes->0
            } else {
                g == 0
            }
        },
{
}

/// One more row adds its own footprint where it could be read and nothing where
/// it could not, and no rows have none.
pub proof fn a_row_adds_its_footprint(before: Ledger, after: Ledger, r: ProviderRow)
    requires
        after.rows@ == before.rows@.push(r),
    ensures
        before.rows@.len() == 0 ==> before.footprint() is None,
        after.footprint() == match (before.footprint(), r.footprint_bytes) {
            (Some(n), Some(b)) => Some(n + b as nat),
            (None, Some(b)) => Some(b as nat),
            (n, None) => n,
        },
{
    let f = |r: ProviderRow| row_footprint(r);
    let known = |r: ProviderRow| r.footprint_bytes is Some;
    let a = before.rows@;
    let b = after.rows@;
    assert(b.drop_last() =~= a);
    assert forall|i: int| 0 <= i < a.len() implies #[trigger] a[i] == b[i] by {}
    assert(b[a.len() as int] == r);
    if a.any(known) {
        let i = choose|i: int| 0 <= i < a.len() && known(#[trigger] a[i]);
        assert(known(b[i]));
    } else {
        lemma_none_known(a);
        if b.any(known) {
            let i = choose|i: int| 0 <= i < b.len() && known(#[trigger] b[i]);
            if i < a.len() {
                assert(known(a[i]));
            }
        }
        if r.footprint_bytes is Some {
            assert(known(b[a.len() as int]));
        }
    }
}

proof fn lemma_none_known(rows: Seq<ProviderRow>)
    requires
        !rows.any(|r: ProviderRow| r.footprint_bytes is Some),
    ensures
        total(rows, |r: ProviderRow| row_footprint(r)) == 0,
    decreases rows.len(),
{
    let known = |r: ProviderRow| r.footprint_bytes is Some;
    if rows.len() > 0 {
        let t = rows.drop_last();
        if t.any(known) {
            let i = choose|i: int| 0 <= i < t.len() && known(#[trigger] t[i]);
            assert(known(rows[i]));
        }
        lemma_none_known(t);
        assert(!known(rows[rows.len() - 1]));
    }
}

} // verus!
