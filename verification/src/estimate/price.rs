//! What a model costs, by the best evidence at hand: measured, then computed,
//! then a declared floor.
//!
//! Shared by every verb that prices a model, so no two of them can disagree:
//! the number one prints is the number another admits on.
use vstd::prelude::*;

use crate::config::{Config, ProviderConfig};
use crate::estimate::computed::{computed, priced, KV_DTYPE_BYTES};
use crate::estimate::estimator::{
    best_of, for_model, ladder, measured, measurements, no_estimate, Basis, Estimate,
};
use crate::estimate::shape::ModelShape;
use crate::inventory::{artifact_at, has_id, weights_behind, Inventory};
use crate::inventory::artifact::Artifact;
use crate::ledger::{Ledger, Outcome, ProviderRow};
use crate::provider::{LoadedModel, ProviderKind};
use crate::record::Observation;
use crate::resolve::identity::Candidate;
use crate::seqs::{first_match, lemma_first_index_is};
use crate::text::{same, texts};

verus! {

/// Whether a row is about a provider.
pub open spec fn is_row(r: ProviderRow, kind: ProviderKind) -> bool {
    r.kind == kind
}

/// Whether a listed model goes by an id.
pub open spec fn is_model(m: LoadedModel, id: Seq<char>) -> bool {
    m.id@ == id
}

/// What a provider says the weights behind an offer weigh.
pub open spec fn said_weight(rows: Seq<ProviderRow>, c: Candidate) -> Option<u64> {
    match first_match(rows, |r: ProviderRow| is_row(r, c.provider)) {
        Some(r) => match r.outcome {
            Outcome::Answered(models) => match first_match(
                models@,
                |m: LoadedModel| is_model(m, c.provider_model_id@),
            ) {
                Some(m) => m.weights_bytes,
                None => None,
            },
            Outcome::Failed(_) => None,
        },
        None => None,
    }
}

/// The size of the artifact behind an offer.
pub open spec fn file_weight(artifacts: Seq<Artifact>, c: Candidate) -> Option<u64> {
    match c.artifact {
        Some(id) => match artifact_at(artifacts, id@) {
            Some(a) => Some(a.bytes),
            None => None,
        },
        None => None,
    }
}

/// What is declared of an offer: the provider's figure, or else the file's.
pub open spec fn declared_weight(
    rows: Seq<ProviderRow>,
    artifacts: Seq<Artifact>,
    c: Candidate,
) -> Option<u64> {
    match said_weight(rows, c) {
        Some(b) => Some(b),
        None => file_weight(artifacts, c),
    }
}

/// The first figure declared of any offer from a place on.
pub open spec fn first_declared(
    rows: Seq<ProviderRow>,
    artifacts: Seq<Artifact>,
    candidates: Seq<Candidate>,
    from: int,
) -> Option<u64>
    decreases candidates.len() - from,
{
    if from < 0 || from >= candidates.len() {
        None
    } else {
        match declared_weight(rows, artifacts, candidates[from]) {
            Some(b) => Some(b),
            None => first_declared(rows, artifacts, candidates, from + 1),
        }
    }
}

/// Whether an entry configures a provider.
pub open spec fn is_entry(p: ProviderConfig, kind: ProviderKind) -> bool {
    p.kind == kind
}

/// The bytes of one cache element: two, unless the provider declared a
/// quantised cache.
pub open spec fn cache_width(config: Config, kind: ProviderKind) -> u64 {
    match first_match(config.providers@, |p: ProviderConfig| is_entry(p, kind)) {
        Some(p) => match p.kv_dtype_bytes {
            Some(w) => w,
            None => KV_DTYPE_BYTES,
        },
        None => KV_DTYPE_BYTES,
    }
}

/// The price of an offer from its artifact's own geometry, at the window asked
/// for or else the one the model was trained at.
pub open spec fn computed_price(
    config: Config,
    c: Candidate,
    shape: Option<ModelShape>,
    context: Option<u32>,
) -> Option<Estimate> {
    match (c.artifact, shape) {
        (Some(_), Some(s)) => {
            let window = if context is Some {
                context
            } else {
                s.trained_context
            };
            match window {
                Some(w) => Some(
                    Estimate {
                        bytes: Some(priced(s, w as nat, cache_width(config, c.provider) as nat)),
                        basis: Basis::Computed,
                        samples: 0,
                        spread_bytes: None,
                    },
                ),
                None => None,
            }
        },
        _ => None,
    }
}

/// The first computed price of any offer from a place on.
pub open spec fn first_computed(
    config: Config,
    candidates: Seq<Candidate>,
    shapes: Seq<Option<ModelShape>>,
    context: Option<u32>,
    from: int,
) -> Estimate
    decreases candidates.len() - from,
{
    if from < 0 || from >= candidates.len() || from >= shapes.len() {
        no_estimate()
    } else {
        match computed_price(config, candidates[from], shapes[from], context) {
            Some(e) => e,
            None => first_computed(config, candidates, shapes, context, from + 1),
        }
    }
}

/// The files to read an offer's geometry from, in the order to try them: the
/// artifact the provider named, which may itself be a model file whatever it
/// is called, then the weights beside it.
pub open spec fn geometry_paths(artifacts: Seq<Artifact>, c: Candidate) -> Seq<Seq<char>> {
    match c.artifact {
        Some(id) => {
            let given = match artifact_at(artifacts, id@) {
                Some(a) => seq![a.path@],
                None => Seq::empty(),
            };
            match weights_behind(artifacts, id@) {
                Some(a) => given.push(a.path@),
                None => given,
            }
        },
        None => Seq::empty(),
    }
}

fn find_artifact<'a>(inventory: &'a Inventory, id: &str) -> (r: Option<&'a Artifact>)
    ensures
        crate::inventory::opt_artifact(r) == artifact_at(inventory.artifacts@, id@),
{
    let ghost p = |a: Artifact| has_id(a, id@);
    let all = &inventory.artifacts;
    let mut i: usize = 0;
    while i < all.len()
        invariant
            i <= all@.len(),
            *all == inventory.artifacts,
            p == (|a: Artifact| has_id(a, id@)),
            forall|j: int| 0 <= j < i ==> !p(#[trigger] all@[j]),
        decreases all.len() - i,
    {
        if same(all[i].id.as_str(), id) {
            proof {
                lemma_first_index_is(all@, p, i as int);
            }
            return Some(&all[i]);
        }
        i += 1;
    }
    proof {
        lemma_first_index_is(all@, p, i as int);
    }
    None
}

/// The files to read an offer's geometry from, in the order to try them.
pub fn shape_paths(inventory: &Inventory, c: &Candidate) -> (paths: Vec<String>)
    ensures
        texts(paths@) == geometry_paths(inventory.artifacts@, *c),
{
    let mut out: Vec<String> = Vec::new();
    proof {
        assert(texts(out@) =~= Seq::empty());
    }
    if let Some(id) = &c.artifact {
        if let Some(a) = find_artifact(inventory, id.as_str()) {
            out.push(a.path.clone());
            proof {
                assert(texts(out@) =~= seq![a.path@]);
            }
        }
        let ghost was = out@;
        if let Some(a) = inventory.weights_artifact(id) {
            out.push(a.path.clone());
            proof {
                assert(texts(out@) =~= texts(was).push(a.path@));
            }
        }
    }
    out
}

fn find_said(ledger: &Ledger, c: &Candidate) -> (r: Option<u64>)
    ensures
        r == said_weight(ledger.rows@, *c),
{
    let ghost p = |r: ProviderRow| is_row(r, c.provider);
    let rows = &ledger.rows;
    let mut i: usize = 0;
    while i < rows.len() && rows[i].kind != c.provider
        invariant
            i <= rows@.len(),
            p == (|r: ProviderRow| is_row(r, c.provider)),
            forall|j: int| 0 <= j < i ==> !p(#[trigger] rows@[j]),
        decreases rows.len() - i,
    {
        i += 1;
    }
    proof {
        lemma_first_index_is(rows@, p, i as int);
    }
    if i == rows.len() {
        return None;
    }
    match &rows[i].outcome {
        Outcome::Answered(models) => {
            let ghost q = |m: LoadedModel| is_model(m, c.provider_model_id@);
            let mut k: usize = 0;
            while k < models.len() && !same(models[k].id.as_str(), c.provider_model_id.as_str())
                invariant
                    k <= models@.len(),
                    q == (|m: LoadedModel| is_model(m, c.provider_model_id@)),
                    forall|j: int| 0 <= j < k ==> !q(#[trigger] models@[j]),
                decreases models.len() - k,
            {
                k += 1;
            }
            proof {
                lemma_first_index_is(models@, q, k as int);
            }
            if k == models.len() {
                None
            } else {
                models[k].weights_bytes
            }
        },
        Outcome::Failed(_) => None,
    }
}

/// A declared floor beats a refusal when nothing has been measured.
///
/// Provider figures first, then the artifact's own size, of the first offer
/// that has either.
pub fn declared_bytes(ledger: &Ledger, inventory: &Inventory, candidates: &[Candidate]) -> (r:
    Option<u64>)
    ensures
        r == first_declared(ledger.rows@, inventory.artifacts@, candidates@, 0),
{
    let mut i: usize = 0;
    while i < candidates.len()
        invariant
            i <= candidates@.len(),
            first_declared(ledger.rows@, inventory.artifacts@, candidates@, 0) == first_declared(
                ledger.rows@,
                inventory.artifacts@,
                candidates@,
                i as int,
            ),
        decreases candidates.len() - i,
    {
        let c = &candidates[i];
        if let Some(b) = find_said(ledger, c) {
            return Some(b);
        }
        if let Some(id) = &c.artifact {
            if let Some(a) = find_artifact(inventory, id.as_str()) {
                return Some(a.bytes);
            }
        }
        i += 1;
    }
    None
}

/// The computed price of the first offer that has one, `shapes` holding the
/// geometry read for each offer.
pub fn computed_bytes(
    config: &Config,
    candidates: &[Candidate],
    shapes: &[Option<ModelShape>],
    context: Option<u32>,
) -> (e: Estimate)
    ensures
        e == first_computed(*config, candidates@, shapes@, context, 0),
{
    let mut i: usize = 0;
    while i < candidates.len() && i < shapes.len()
        invariant
            i <= candidates@.len(),
            first_computed(*config, candidates@, shapes@, context, 0) == first_computed(
                *config,
                candidates@,
                shapes@,
                context,
                i as int,
            ),
        decreases candidates.len() - i,
    {
        let c = &candidates[i];
        if let (Some(_), Some(shape)) = (&c.artifact, &shapes[i]) {
            let window: Option<u32> = match context {
                Some(w) => Some(w),
                None => shape.trained_context,
            };
            if let Some(w) = window {
                let ghost p = |x: ProviderConfig| is_entry(x, c.provider);
                proof {
                    assert(p =~= (|x: ProviderConfig| x.kind == c.provider));
                }
                let width: u64 = match config.provider(c.provider) {
                    Some(entry) => match entry.kv_dtype_bytes {
                        Some(n) => n,
                        None => KV_DTYPE_BYTES,
                    },
                    None => KV_DTYPE_BYTES,
                };
                return computed(shape, w, width);
            }
        }
        i += 1;
    }
    Estimate::unknown()
}

/// What a model costs: what was measured of it at this window, else what its
/// geometry comes to, else what is declared of it.
pub fn estimate_for(
    config: &Config,
    ledger: &Ledger,
    inventory: &Inventory,
    candidates: &[Candidate],
    shapes: &[Option<ModelShape>],
    model: &str,
    context: Option<u32>,
    corpus: &[Observation],
) -> (e: Estimate)
    ensures
        e == best_of(
            measured(measurements(corpus@, model@, context)),
            first_computed(*config, candidates@, shapes@, context, 0),
            first_declared(ledger.rows@, inventory.artifacts@, candidates@, 0),
        ),
{
    ladder(
        for_model(corpus, model, context),
        computed_bytes(config, candidates, shapes, context),
        declared_bytes(ledger, inventory, candidates),
    )
}

} // verus!
