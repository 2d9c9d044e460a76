//! A provider's offer to serve a model.
use vstd::prelude::*;

use crate::inventory::artifact::{Artifact, ArtifactId, Provenance};
use crate::inventory::identity::{canonical, canonical_name};
use crate::inventory::Inventory;
use crate::ledger::{Ledger, Outcome, ProviderRow};
use crate::provider::{LoadedModel, ProviderKind, State};
use crate::seqs::{first_match, lemma_filter_take, lemma_first_index_is};
use crate::text::{opt_text, same, same_opt};

verus! {

/// One provider's offer to serve a model.
#[derive(Debug, PartialEq, Eq)]
pub struct Candidate {
    pub provider: ProviderKind,
    /// The id this provider serves the model under.
    pub provider_model_id: String,
    pub url: String,
    pub state: State,
    /// The artifact behind it, where one is known.
    pub artifact: Option<ArtifactId>,
    /// Whether that artifact was reported or derived from a name.
    pub provenance: Provenance,
}

impl Clone for Candidate {
    fn clone(&self) -> (r: Self)
        ensures
            r == *self,
    {
        Candidate {
            provider: self.provider,
            provider_model_id: self.provider_model_id.clone(),
            url: self.url.clone(),
            state: self.state,
            artifact: self.artifact.clone(),
            provenance: self.provenance.clone(),
        }
    }
}

/// Whether two claims came from the same place.
pub open spec fn same_provenance(a: Provenance, b: Provenance) -> bool {
    match (a, b) {
        (Provenance::Recorded, Provenance::Recorded) => true,
        (Provenance::Inferred { basis: x }, Provenance::Inferred { basis: y }) => x@ == y@,
        _ => false,
    }
}

/// Whether two offers are the same offer.
pub open spec fn same_offer(a: Candidate, b: Candidate) -> bool {
    &&& a.provider == b.provider
    &&& a.provider_model_id@ == b.provider_model_id@
    &&& a.url@ == b.url@
    &&& a.state == b.state
    &&& opt_text(a.artifact) == opt_text(b.artifact)
    &&& same_provenance(a.provenance, b.provenance)
}

impl Candidate {
    pub fn is_same(&self, other: &Candidate) -> (r: bool)
        ensures
            r == same_offer(*self, *other),
    {
        let claim = match (&self.provenance, &other.provenance) {
            (Provenance::Recorded, Provenance::Recorded) => true,
            (Provenance::Inferred { basis: x }, Provenance::Inferred { basis: y }) => same(
                x.as_str(),
                y.as_str(),
            ),
            _ => false,
        };
        claim && self.provider == other.provider && self.state == other.state && same(
            self.provider_model_id.as_str(),
            other.provider_model_id.as_str(),
        ) && same(self.url.as_str(), other.url.as_str()) && same_opt(
            &self.artifact,
            &other.artifact,
        )
    }
}

/// Whether a listed model is the one asked for: by its own id, or by the name
/// both go by once what varies between builds is gone.
pub open spec fn is_asked_for(m: LoadedModel, model: Seq<char>) -> bool {
    m.id@ == model || (canonical(model).len() > 0 && canonical(m.id@) == canonical(model))
}

/// The models of an answer that are the one asked for.
pub open spec fn asked_for(o: Outcome, model: Seq<char>) -> Seq<LoadedModel> {
    match o {
        Outcome::Answered(models) => models@.filter(|m: LoadedModel| is_asked_for(m, model)),
        Outcome::Failed(_) => Seq::empty(),
    }
}

/// Every listing of the model asked for, with the row it stands in.
pub open spec fn all_asked_for(rows: Seq<ProviderRow>, model: Seq<char>) -> Seq<
    (ProviderRow, LoadedModel),
>
    decreases rows.len(),
{
    if rows.len() == 0 {
        Seq::empty()
    } else {
        all_asked_for(rows.drop_last(), model) + asked_for(rows.last().outcome, model).map_values(
            |m: LoadedModel| (rows.last(), m),
        )
    }
}

/// Whether an artifact lies where a provider says.
pub open spec fn lies_at(a: Artifact, path: Option<Seq<char>>) -> bool {
    path == Some(a.path@)
}

/// Whether an artifact goes by a model's name.
pub open spec fn goes_by(a: Artifact, id: Seq<char>) -> bool {
    canonical(id).len() > 0 && canonical(a.name_hint@) == canonical(id)
}

/// The artifact behind a listed model, and whether the provider reported it:
/// the one that lies where the provider says, or else the first that goes by
/// the model's name.
pub open spec fn artifact_behind(artifacts: Seq<Artifact>, m: LoadedModel) -> (
    Option<Seq<char>>,
    bool,
) {
    match first_match(artifacts, |a: Artifact| lies_at(a, opt_text(m.artifact_path))) {
        Some(a) => (Some(a.id@), true),
        None => match first_match(artifacts, |a: Artifact| goes_by(a, m.id@)) {
            Some(a) => (Some(a.id@), false),
            None => (None, false),
        },
    }
}

/// Whether an offer is the one that a listed model makes.
pub open spec fn offers(
    c: Candidate,
    row: ProviderRow,
    m: LoadedModel,
    artifacts: Seq<Artifact>,
) -> bool {
    &&& c.provider == row.kind
    &&& c.provider_model_id@ == m.id@
    &&& c.url@ == row.url@
    &&& c.state == m.state
    &&& opt_text(c.artifact) == artifact_behind(artifacts, m).0
    &&& match c.provenance {
        Provenance::Recorded => artifact_behind(artifacts, m).1,
        Provenance::Inferred { basis } => !artifact_behind(artifacts, m).1 && basis@ == "name"@,
    }
}

fn find_behind(inventory: &Inventory, m: &LoadedModel) -> (r: (Option<ArtifactId>, bool))
    ensures
        (opt_text(r.0), r.1) == artifact_behind(inventory.artifacts@, *m),
{
    let all = &inventory.artifacts;
    let ghost p = |a: Artifact| lies_at(a, opt_text(m.artifact_path));
    let mut i: usize = 0;
    if let Some(path) = &m.artifact_path {
        while i < all.len() && !same(all[i].path.as_str(), path.as_str())
            invariant
                i <= all@.len(),
                m.artifact_path == Some(*path),
                p == (|a: Artifact| lies_at(a, opt_text(m.artifact_path))),
                forall|k: int| 0 <= k < i ==> !p(#[trigger] all@[k]),
            decreases all.len() - i,
        {
            i += 1;
        }
    } else {
        i = all.len();
    }
    proof {
        lemma_first_index_is(all@, p, i as int);
    }
    if i < all.len() {
        return (Some(all[i].id.clone()), true);
    }
    let name = canonical_name(m.id.as_str());
    let known: bool = !same(name.as_str(), "");
    proof {
        reveal_strlit("");
        assert(known == (name@.len() > 0)) by {
            if name@.len() == 0 {
                assert(name@ =~= ""@);
            }
        }
    }
    let ghost q = |a: Artifact| goes_by(a, m.id@);
    let mut k: usize = 0;
    while k < all.len()
        invariant
            k <= all@.len(),
            *all == inventory.artifacts,
            first_match(all@, |a: Artifact| lies_at(a, opt_text(m.artifact_path))) is None,
            known == (canonical(m.id@).len() > 0),
            name@ == canonical(m.id@),
            q == (|a: Artifact| goes_by(a, m.id@)),
            forall|j: int| 0 <= j < k ==> !q(#[trigger] all@[j]),
        decreases all.len() - k,
    {
        if known && same(canonical_name(all[k].name_hint.as_str()).as_str(), name.as_str()) {
            proof {
                lemma_first_index_is(all@, q, k as int);
            }
            return (Some(all[k].id.clone()), false);
        }
        k += 1;
    }
    proof {
        lemma_first_index_is(all@, q, k as int);
    }
    (None, false)
}

/// Every offer to serve a model, in the order of the ledger's rows.
///
/// A name is resolved to the model and not to one server's spelling of it, so
/// one name may be offered by several providers.
pub fn candidates(ledger: &Ledger, inventory: &Inventory, model: &str) -> (out: Vec<Candidate>)
    ensures
        out@.len() == all_asked_for(ledger.rows@, model@).len(),
        forall|i: int|
            0 <= i < out@.len() ==> offers(
                #[trigger] out@[i],
                all_asked_for(ledger.rows@, model@)[i].0,
                all_asked_for(ledger.rows@, model@)[i].1,
                inventory.artifacts@,
            ),
{
    let ghost rows = ledger.rows@;
    let ghost found = inventory.artifacts@;
    let name = canonical_name(model);
    let known: bool = !same(name.as_str(), "");
    proof {
        reveal_strlit("");
        assert(known == (name@.len() > 0)) by {
            if name@.len() == 0 {
                assert(name@ =~= ""@);
            }
        }
    }
    let mut out: Vec<Candidate> = Vec::new();
    let mut i: usize = 0;
    while i < ledger.rows.len()
        invariant
            i <= rows.len(),
            rows == ledger.rows@,
            found == inventory.artifacts@,
            known == (canonical(model@).len() > 0),
            name@ == canonical(model@),
            out@.len() == all_asked_for(rows.take(i as int), model@).len(),
            forall|k: int|
                0 <= k < out@.len() ==> offers(
                    #[trigger] out@[k],
                    all_asked_for(rows.take(i as int), model@)[k].0,
                    all_asked_for(rows.take(i as int), model@)[k].1,
                    found,
                ),
        decreases ledger.rows.len() - i,
    {
        let row = &ledger.rows[i];
        let ghost before = all_asked_for(rows.take(i as int), model@);
        let ghost here = asked_for(row.outcome, model@);
        let ghost f = |m: LoadedModel| (*row, m);
        let ghost p = |m: LoadedModel| is_asked_for(m, model@);
        proof {
            assert(rows.take(i + 1).drop_last() =~= rows.take(i as int));
            assert(rows.take(i + 1).last() == *row);
        }
        if let Outcome::Answered(models) = &row.outcome {
            let mut k: usize = 0;
            proof {
                assert(models@.take(0).filter(p) =~= Seq::empty());
            }
            while k < models.len()
                invariant
                    k <= models@.len(),
                    found == inventory.artifacts@,
                    known == (canonical(model@).len() > 0),
                    name@ == canonical(model@),
                    p == (|m: LoadedModel| is_asked_for(m, model@)),
                    out@.len() == before.len() + models@.take(k as int).filter(p).len(),
                    forall|j: int|
                        0 <= j < before.len() ==> offers(
                            #[trigger] out@[j],
                            before[j].0,
                            before[j].1,
                            found,
                        ),
                    forall|j: int|
                        before.len() <= j < out@.len() ==> offers(
                            #[trigger] out@[j],
                            *row,
                            models@.take(k as int).filter(p)[j - before.len()],
                            found,
                        ),
                decreases models.len() - k,
            {
                let m = &models[k];
                proof {
                    lemma_filter_take(models@, p, k as int);
                }
                if same(m.id.as_str(), model) || (known && same(
                    canonical_name(m.id.as_str()).as_str(),
                    name.as_str(),
                )) {
                    let (artifact, reported) = find_behind(inventory, m);
                    let provenance = if reported {
                        Provenance::Recorded
                    } else {
                        Provenance::Inferred { basis: "name".to_owned() }
                    };
                    out.push(
                        Candidate {
                            provider: row.kind,
                            provider_model_id: m.id.clone(),
                            url: row.url.clone(),
                            state: m.state,
                            artifact,
                            provenance,
                        },
                    );
                }
                k += 1;
            }
            proof {
                assert(models@.take(k as int) =~= models@);
            }
        }
        proof {
            let after = all_asked_for(rows.take(i + 1), model@);
            assert(after == before + here.map_values(f));
            assert forall|j: int| 0 <= j < out@.len() implies offers(
                #[trigger] out@[j],
                after[j].0,
                after[j].1,
                found,
            ) by {
                if j >= before.len() {
                    assert(after[j] == f(here[j - before.len()]));
                }
            }
        }
        i += 1;
    }
    proof {
        assert(rows.take(i as int) =~= rows);
    }
    out
}

} // verus!
