//! What is on disk, which paths reach the same bytes, and what may go.
pub mod artifact;
pub mod clean;
pub mod dupes;
pub mod graph;
pub mod identity;
pub mod laws;
pub mod name_laws;
pub mod naming;
pub mod plan;
pub mod safety;
pub mod scan;

use vstd::prelude::*;

use crate::inventory::artifact::{store_text, Artifact, ArtifactId, Format, Store};
use crate::inventory::graph::{
    aliases, chains, groups_of, holds, holds_id, laid_out, lemma_chains_mark_nothing,
    lemma_laid_out_push, lemma_marks_push, marks, need, sharing_an_allocation_is_being_an_alias, Edge,
    Graph, Mark, Need, Requirer,
};
use crate::inventory::identity::{
    canonical, canonical_name, families, family, group_with_aliases, grouped, known_as, unified,
    Family, ModelIdentity,
};
use crate::inventory::scan::vllm::RegistryEntry;
use crate::inventory::scan::{total_unique_bytes, unique_bytes};
use crate::ledger::{Ledger, Outcome, ProviderRow};
use crate::paths::{directory, is_under, lies_under, same_directory};
use crate::provider::{LoadedModel, ProviderKind, State};
use crate::seqs::{
    first_match, lemma_filter_members, lemma_filter_take, lemma_first_index_is, lemma_sort_map,
    lemma_stable_sort_contains, sort_with, stable_sort,
};
use crate::text::{is_before, same, text_le, texts};

verus! {

#[derive(Debug)]
pub struct Inventory {
    pub artifacts: Vec<Artifact>,
    pub graph: Graph,
    pub identities: Vec<ModelIdentity>,
}

/// Whether an artifact holds weights and stands in a directory.
pub open spec fn weights_in(a: Artifact, dir: Seq<Seq<char>>) -> bool {
    a.format != Format::Other && directory(a.path@) == Some(dir)
}

/// The last of the largest artifacts.
pub open spec fn heaviest(s: Seq<Artifact>) -> Option<Artifact>
    decreases s.len(),
{
    if s.len() == 0 {
        None
    } else {
        match heaviest(s.drop_last()) {
            Some(a) if a.bytes > s.last().bytes => Some(a),
            _ => Some(s.last()),
        }
    }
}

/// What is heaviest is one of the artifacts, and nothing is heavier.
pub proof fn the_heaviest_outweighs_the_rest(s: Seq<Artifact>)
    ensures
        match heaviest(s) {
            Some(a) => s.contains(a) && forall|i: int|
                0 <= i < s.len() ==> (#[trigger] s[i]).bytes <= a.bytes,
            None => s.len() == 0,
        },
    decreases s.len(),
{
    if s.len() > 0 {
        let t = s.drop_last();
        the_heaviest_outweighs_the_rest(t);
        assert(s[s.len() - 1] == s.last());
        if t.len() > 0 {
            let a = heaviest(t)->0;
            let k = t.index_of(a);
            assert(s[k] == a);
            assert forall|i: int| 0 <= i < s.len() implies (#[trigger] s[i]).bytes
                <= heaviest(s)->0.bytes by {
                if i < t.len() {
                    assert(t[i].bytes <= a.bytes);
                }
            }
        }
    }
}

/// Whether an artifact goes by an id.
pub open spec fn has_id(a: Artifact, id: Seq<char>) -> bool {
    a.id@ == id
}

/// The artifact with an id.
pub open spec fn artifact_at(artifacts: Seq<Artifact>, id: Seq<char>) -> Option<Artifact> {
    first_match(artifacts, |a: Artifact| has_id(a, id))
}

/// The weights behind an artifact: itself, or the heaviest weights beside it.
pub open spec fn weights_behind(artifacts: Seq<Artifact>, id: Seq<char>) -> Option<Artifact> {
    match artifact_at(artifacts, id) {
        Some(given) => if given.format != Format::Other {
            Some(given)
        } else {
            match directory(given.path@) {
                Some(dir) => heaviest(artifacts.filter(|a: Artifact| weights_in(a, dir))),
                None => None,
            }
        },
        None => None,
    }
}

pub open spec fn opt_artifact(a: Option<&Artifact>) -> Option<Artifact> {
    match a {
        Some(x) => Some(*x),
        None => None,
    }
}

/// The marks on what llama.cpp's router scans.
pub open spec fn scanned_marks(artifacts: Seq<Artifact>, router_up: bool) -> Seq<Mark> {
    if router_up {
        artifacts.filter(|a: Artifact| a.store == Store::HfCache).map_values(
            |a: Artifact|
                Mark {
                    artifact: a.id@,
                    need: Need::Scanned { provider: ProviderKind::LlamaCpp },
                },
        )
    } else {
        Seq::empty()
    }
}

/// Whether a registry entry names an artifact.
pub open spec fn names_artifact(e: RegistryEntry, a: Artifact) -> bool {
    a.store == Store::Vllm && (lies_under(a.path@, e.path@) || a.name_hint@ == e.name@)
}

/// The marks of one registry entry.
pub open spec fn entry_marks(artifacts: Seq<Artifact>, e: RegistryEntry) -> Seq<Mark> {
    artifacts.filter(|a: Artifact| names_artifact(e, a)).map_values(
        |a: Artifact|
            Mark {
                artifact: a.id@,
                need: Need::Registry { store: store_text(Store::Vllm), name: e.name@ },
            },
    )
}

/// The marks of a registry.
pub open spec fn registry_marks(artifacts: Seq<Artifact>, entries: Seq<RegistryEntry>) -> Seq<Mark>
    decreases entries.len(),
{
    if entries.len() == 0 {
        Seq::empty()
    } else {
        registry_marks(artifacts, entries.drop_last()) + entry_marks(artifacts, entries.last())
    }
}

/// The artifacts that go by a model's name.
pub open spec fn direct(artifacts: Seq<Artifact>, name: Seq<char>) -> Seq<ArtifactId> {
    identity::builds_of(artifacts, name)
}

/// Every other path to the same bytes.
pub open spec fn beside(groups: Seq<Seq<ArtifactId>>, ids: Seq<ArtifactId>) -> Seq<ArtifactId>
    decreases ids.len(),
{
    if ids.len() == 0 {
        Seq::empty()
    } else {
        beside(groups, ids.drop_last()) + aliases(groups, ids.last()@)
    }
}

/// Whether two lists have an id in common.
pub open spec fn meet(a: Seq<ArtifactId>, b: Seq<ArtifactId>) -> bool {
    exists|i: int| 0 <= i < a.len() && holds(b, (#[trigger] a[i])@)
}

/// Every build of the models that some builds belong to.
pub open spec fn kindred(models: Seq<Family>, ids: Seq<ArtifactId>) -> Seq<ArtifactId>
    decreases models.len(),
{
    if models.len() == 0 {
        Seq::empty()
    } else {
        let before = kindred(models.drop_last(), ids);
        if meet(models.last().ids, ids) {
            before + models.last().ids
        } else {
            before
        }
    }
}

/// Each text once where it stands beside itself.
pub open spec fn deduped(s: Seq<Seq<char>>) -> Seq<Seq<char>>
    decreases s.len(),
{
    if s.len() <= 1 {
        s
    } else if s.last() == s[s.len() - 2] {
        deduped(s.drop_last())
    } else {
        deduped(s.drop_last()).push(s.last())
    }
}

/// What serving a model makes a dependency: every artifact of its name, every
/// other path to their bytes, and every build of the models they belong to;
/// in order, each once.
pub open spec fn dependents(
    artifacts: Seq<Artifact>,
    groups: Seq<Seq<ArtifactId>>,
    models: Seq<Family>,
    name: Seq<char>,
) -> Seq<Seq<char>> {
    let ids = direct(artifacts, name);
    let all = ids + beside(groups, ids) + kindred(models, ids);
    deduped(stable_sort(texts(all), |a: Seq<char>, b: Seq<char>| text_le(a, b)))
}

/// The marks of one resident model.
pub open spec fn served_marks(
    artifacts: Seq<Artifact>,
    groups: Seq<Seq<ArtifactId>>,
    models: Seq<Family>,
    kind: ProviderKind,
    m: LoadedModel,
) -> Seq<Mark> {
    dependents(artifacts, groups, models, canonical(m.id@)).map_values(
        |id: Seq<char>|
            Mark {
                artifact: id,
                need: Need::ServedLive { provider: kind, model_id: m.id@ },
            },
    )
}

/// The marks of the resident models of a list.
pub open spec fn served_list(
    artifacts: Seq<Artifact>,
    groups: Seq<Seq<ArtifactId>>,
    models: Seq<Family>,
    kind: ProviderKind,
    served: Seq<LoadedModel>,
) -> Seq<Mark>
    decreases served.len(),
{
    if served.len() == 0 {
        Seq::empty()
    } else {
        let before = served_list(artifacts, groups, models, kind, served.drop_last());
        if served.last().state == State::Loaded {
            before + served_marks(artifacts, groups, models, kind, served.last())
        } else {
            before
        }
    }
}

/// The marks of everything resident.
pub open spec fn served_rows(
    artifacts: Seq<Artifact>,
    groups: Seq<Seq<ArtifactId>>,
    models: Seq<Family>,
    rows: Seq<ProviderRow>,
) -> Seq<Mark>
    decreases rows.len(),
{
    if rows.len() == 0 {
        Seq::empty()
    } else {
        let before = served_rows(artifacts, groups, models, rows.drop_last());
        match rows.last().outcome {
            Outcome::Answered(served) => before + served_list(
                artifacts,
                groups,
                models,
                rows.last().kind,
                served@,
            ),
            Outcome::Failed(_) => before,
        }
    }
}

/// Whether a provider's row is an answer.
pub open spec fn answers(r: ProviderRow, kind: ProviderKind) -> bool {
    r.kind == kind && r.outcome is Answered
}

/// Whether llama.cpp's router answered.
pub open spec fn router_up(rows: Seq<ProviderRow>) -> bool {
    exists|i: int| 0 <= i < rows.len() && answers(#[trigger] rows[i], ProviderKind::LlamaCpp)
}

/// Whether an inventory is what files on disk come to, before anything that is
/// resident is marked.
pub open spec fn inventoried(
    inv: Inventory,
    found: Seq<Artifact>,
    up: bool,
    registry: Seq<RegistryEntry>,
) -> bool {
    &&& inv.artifacts@ == found
    &&& inv.graph.groups() == groups_of(found)
    &&& laid_out(inv.graph.edges@, groups_of(found))
    &&& families(inv.identities@) == unified(grouped(found), groups_of(found))
    &&& marks(inv.graph.edges@) == scanned_marks(found, up) + registry_marks(found, registry)
}

fn require(graph: &mut Graph, artifact: ArtifactId, requirer: Requirer)
    ensures
        final(graph).groups() == old(graph).groups(),
        marks(final(graph).edges@) == marks(old(graph).edges@).push(
            Mark { artifact: artifact@, need: need(requirer) },
        ),
        laid_out(old(graph).edges@, old(graph).groups()) ==> laid_out(
            final(graph).edges@,
            old(graph).groups(),
        ),
{
    proof {
        let e = Edge::RequiredBy { artifact, requirer };
        lemma_marks_push(graph.edges@, e);
        if laid_out(graph.edges@, graph.groups()) {
            lemma_laid_out_push(graph.edges@, e, graph.groups());
        }
    }
    graph.add_required_by(artifact, requirer);
}

impl Inventory {
    /// The artifact carrying a model's weights, given whatever artifact a
    /// provider pointed at.
    ///
    /// A reported path is not necessarily the weights: it may be the
    /// `config.json` beside them. The rule is deliberately narrow, **the
    /// largest weights-format file in the same directory**, because the two
    /// wider rules are both wrong: the artifact as given prices a config file,
    /// and the largest artifact of the model crosses builds.
    pub fn weights_artifact(&self, id: &ArtifactId) -> (r: Option<&Artifact>)
        ensures
            opt_artifact(r) == weights_behind(self.artifacts@, id@),
    {
        let ghost q = |a: Artifact| has_id(a, id@);
        let all = &self.artifacts;
        let mut i: usize = 0;
        while i < all.len() && !same(all[i].id.as_str(), id.as_str())
            invariant
                i <= all@.len(),
                q == (|a: Artifact| has_id(a, id@)),
                forall|k: int| 0 <= k < i ==> !q(#[trigger] all@[k]),
            decreases all.len() - i,
        {
            i += 1;
        }
        proof {
            lemma_first_index_is(all@, q, i as int);
        }
        if i == all.len() {
            return None;
        }
        let given = &all[i];
        if given.format.is_weights() {
            return Some(given);
        }
        if !same_directory(given.path.as_str(), given.path.as_str()) {
            return None;
        }
        let ghost dir = directory(given.path@)->0;
        let ghost p = |a: Artifact| weights_in(a, dir);
        let mut best: Option<&Artifact> = None;
        let mut k: usize = 0;
        while k < all.len()
            invariant
                k <= all@.len(),
                directory(given.path@) == Some(dir),
                p == (|a: Artifact| weights_in(a, dir)),
                opt_artifact(best) == heaviest(all@.take(k as int).filter(p)),
            decreases all.len() - k,
        {
            proof {
                lemma_filter_take(all@, p, k as int);
            }
            let a = &all[k];
            if a.format.is_weights() && same_directory(given.path.as_str(), a.path.as_str()) {
                proof {
                    let kept = all@.take(k as int).filter(p);
                    assert(kept.push(*a).drop_last() =~= kept);
                }
                let heavier = match best {
                    Some(b) => b.bytes > a.bytes,
                    None => false,
                };
                if !heavier {
                    best = Some(a);
                }
            }
            k += 1;
        }
        proof {
            assert(all@.take(k as int) =~= all@);
        }
        best
    }

    /// The inventory of files on disk, with what the router and the registry
    /// require marked.
    ///
    /// llama.cpp's router scans the HF cache at runtime, so every entry in it
    /// is a serving dependency *while the router is up*. vLLM-MLX names models
    /// in a registry, where a stale path is a startup failure.
    fn of_files(found: Vec<Artifact>, router_may_be_up: bool, registry: &[RegistryEntry]) -> (inv:
        Inventory)
        ensures
            inventoried(inv, found@, router_may_be_up, registry@),
    {
        let ghost files = found@;
        let mut graph = Graph::build(found.as_slice());
        let ghost groups = groups_of(files);
        proof {
            lemma_chains_mark_nothing(groups);
            assert(marks(graph.edges@) =~= Seq::empty());
            assert(graph.edges@.take(chains(groups).len() as int) =~= chains(groups));
        }
        let ghost scanned = scanned_marks(files, router_may_be_up);
        if router_may_be_up {
            let ghost p = |a: Artifact| a.store == Store::HfCache;
            let ghost f = |a: Artifact|
                Mark {
                    artifact: a.id@,
                    need: Need::Scanned { provider: ProviderKind::LlamaCpp },
                };
            let mut i: usize = 0;
            proof {
                assert(files.take(0).filter(p).map_values(f) =~= Seq::empty());
            }
            while i < found.len()
                invariant
                    i <= found@.len(),
                    found@ == files,
                    p == (|a: Artifact| a.store == Store::HfCache),
                    f == (|a: Artifact|
                        Mark {
                            artifact: a.id@,
                            need: Need::Scanned { provider: ProviderKind::LlamaCpp },
                        }),
                    graph.groups() == groups,
                    laid_out(graph.edges@, groups),
                    marks(graph.edges@) == files.take(i as int).filter(p).map_values(f),
                decreases found.len() - i,
            {
                proof {
                    lemma_filter_take(files, p, i as int);
                }
                if found[i].store == Store::HfCache {
                    require(
                        &mut graph,
                        found[i].id.clone(),
                        Requirer::Scanned { provider: ProviderKind::LlamaCpp },
                    );
                }
                proof {
                    assert(marks(graph.edges@) =~= files.take(i + 1).filter(p).map_values(f));
                }
                i += 1;
            }
            proof {
                assert(files.take(i as int) =~= files);
            }
        }
        proof {
            assert(marks(graph.edges@) == scanned);
        }
        let mut n: usize = 0;
        proof {
            assert(registry_marks(files, registry@.take(0)) =~= Seq::empty());
            assert(scanned + registry_marks(files, registry@.take(0)) =~= scanned);
        }
        while n < registry.len()
            invariant
                n <= registry@.len(),
                found@ == files,
                graph.groups() == groups,
                laid_out(graph.edges@, groups),
                marks(graph.edges@) == scanned + registry_marks(files, registry@.take(n as int)),
            decreases registry.len() - n,
        {
            let e = &registry[n];
            let ghost before = marks(graph.edges@);
            let ghost p = |a: Artifact| names_artifact(*e, a);
            let ghost f = |a: Artifact|
                Mark {
                    artifact: a.id@,
                    need: Need::Registry { store: store_text(Store::Vllm), name: e.name@ },
                };
            let mut i: usize = 0;
            proof {
                assert(files.take(0).filter(p).map_values(f) =~= Seq::empty());
                assert(before + files.take(0).filter(p).map_values(f) =~= before);
            }
            while i < found.len()
                invariant
                    i <= found@.len(),
                    found@ == files,
                    p == (|a: Artifact| names_artifact(*e, a)),
                    f == (|a: Artifact|
                        Mark {
                            artifact: a.id@,
                            need: Need::Registry { store: store_text(Store::Vllm), name: e.name@ },
                        }),
                    graph.groups() == groups,
                    laid_out(graph.edges@, groups),
                    marks(graph.edges@) == before + files.take(i as int).filter(p).map_values(f),
                decreases found.len() - i,
            {
                proof {
                    lemma_filter_take(files, p, i as int);
                }
                let a = &found[i];
                if a.store == Store::Vllm && (is_under(a.path.as_str(), e.path.as_str()) || same(
                    a.name_hint.as_str(),
                    e.name.as_str(),
                )) {
                    require(
                        &mut graph,
                        a.id.clone(),
                        Requirer::Registry {
                            store: Store::Vllm.as_str().to_owned(),
                            name: e.name.clone(),
                        },
                    );
                }
                proof {
                    assert(marks(graph.edges@) =~= before + files.take(i + 1).filter(p).map_values(
                        f,
                    ));
                }
                i += 1;
            }
            proof {
                assert(files.take(i as int) =~= files);
                assert(registry@.take(n + 1).drop_last() =~= registry@.take(n as int));
                assert(marks(graph.edges@) =~= scanned + registry_marks(
                    files,
                    registry@.take(n + 1),
                ));
            }
            n += 1;
        }
        proof {
            assert(registry@.take(n as int) =~= registry@);
        }
        let identities = group_with_aliases(found.as_slice(), &graph);
        Inventory { artifacts: found, graph, identities }
    }

    /// Files only. No provider is contacted, so nothing is served live, and
    /// the HF cache is treated as scanned because that cannot be ruled out.
    pub fn scan_offline(found: Vec<Artifact>, registry: &[RegistryEntry]) -> (inv: Inventory)
        ensures
            inventoried(inv, found@, true, registry@),
    {
        Inventory::of_files(found, true, registry)
    }

    /// The ids that serving a model makes dependencies.
    fn dependents_of(&self, name: &str) -> (r: Vec<String>)
        ensures
            texts(r@) == dependents(
                self.artifacts@,
                self.graph.groups(),
                families(self.identities@),
                name@,
            ),
    {
        let ghost files = self.artifacts@;
        let ghost groups = self.graph.groups();
        let ghost models = families(self.identities@);
        let ghost p = |a: Artifact| known_as(a, name@);
        let mut ids: Vec<ArtifactId> = Vec::new();
        let mut i: usize = 0;
        proof {
            assert(files.take(0).filter(p).map_values(|a: Artifact| a.id) =~= Seq::empty());
        }
        while i < self.artifacts.len()
            invariant
                i <= files.len(),
                files == self.artifacts@,
                p == (|a: Artifact| known_as(a, name@)),
                ids@ == files.take(i as int).filter(p).map_values(|a: Artifact| a.id),
            decreases files.len() - i,
        {
            proof {
                lemma_filter_take(files, p, i as int);
            }
            let a = &self.artifacts[i];
            if same(canonical_name(a.name_hint.as_str()).as_str(), name) {
                ids.push(a.id.clone());
            }
            proof {
                assert(ids@ =~= files.take(i + 1).filter(p).map_values(|a: Artifact| a.id));
            }
            i += 1;
        }
        proof {
            assert(files.take(i as int) =~= files);
        }
        let mut all = graph::copied(&ids);
        let mut k: usize = 0;
        proof {
            assert(beside(groups, ids@.take(0)) =~= Seq::empty());
            assert(ids@ + beside(groups, ids@.take(0)) =~= ids@);
        }
        while k < ids.len()
            invariant
                k <= ids@.len(),
                groups == self.graph.groups(),
                all@ == ids@ + beside(groups, ids@.take(k as int)),
            decreases ids.len() - k,
        {
            let mut more = self.graph.aliases_of(ids[k].as_str());
            let ghost was = all@;
            let ghost added = more@;
            all.append(&mut more);
            proof {
                assert(ids@.take(k + 1).drop_last() =~= ids@.take(k as int));
                assert(all@ =~= ids@ + beside(groups, ids@.take(k + 1)));
            }
            k += 1;
        }
        proof {
            assert(ids@.take(k as int) =~= ids@);
        }
        let ghost near = all@;
        let mut n: usize = 0;
        proof {
            assert(near + kindred(models.take(0), ids@) =~= near);
        }
        while n < self.identities.len()
            invariant
                n <= self.identities@.len(),
                models == families(self.identities@),
                all@ == near + kindred(models.take(n as int), ids@),
            decreases self.identities.len() - n,
        {
            let ident = &self.identities[n];
            proof {
                assert(models.take(n + 1).drop_last() =~= models.take(n as int));
                assert(models.take(n + 1).last() == family(*ident));
            }
            let mut met = false;
            let mut j: usize = 0;
            while j < ident.artifacts.len() && !met
                invariant
                    j <= ident.artifacts@.len(),
                    met ==> meet(ident.artifacts@, ids@),
                    !met ==> forall|q: int|
                        0 <= q < j ==> !holds(ids@, (#[trigger] ident.artifacts@[q])@),
                decreases ident.artifacts@.len() - j + (if met {
                    0int
                } else {
                    1
                }),
            {
                if holds_id(&ids, ident.artifacts[j].as_str()) {
                    met = true;
                } else {
                    j += 1;
                }
            }
            if met {
                let mut more = graph::copied(&ident.artifacts);
                all.append(&mut more);
                proof {
                    assert(all@ =~= near + kindred(models.take(n + 1), ids@));
                }
            }
            n += 1;
        }
        proof {
            assert(models.take(n as int) =~= models);
        }
        sorted_once(all)
    }

    /// Marks what a resident model makes a dependency.
    fn mark_served(&mut self, kind: ProviderKind, m: &LoadedModel)
        ensures
            final(self).artifacts@ == old(self).artifacts@,
            final(self).identities@ == old(self).identities@,
            final(self).graph.groups() == old(self).graph.groups(),
            laid_out(old(self).graph.edges@, old(self).graph.groups()) ==> laid_out(
                final(self).graph.edges@,
                old(self).graph.groups(),
            ),
            marks(final(self).graph.edges@) == marks(old(self).graph.edges@) + served_marks(
                old(self).artifacts@,
                old(self).graph.groups(),
                families(old(self).identities@),
                kind,
                *m,
            ),
    {
        let name = canonical_name(m.id.as_str());
        let ids = self.dependents_of(name.as_str());
        let ghost all = served_marks(
            self.artifacts@,
            self.graph.groups(),
            families(self.identities@),
            kind,
            *m,
        );
        let ghost before = marks(self.graph.edges@);
        let ghost groups = self.graph.groups();
        let mut i: usize = 0;
        proof {
            assert(before + all.take(0) =~= before);
        }
        while i < ids.len()
            invariant
                i <= ids@.len(),
                ids@.len() == all.len(),
                forall|k: int|
                    0 <= k < ids@.len() ==> #[trigger] all[k] == (Mark {
                        artifact: ids@[k]@,
                        need: Need::ServedLive { provider: kind, model_id: m.id@ },
                    }),
                self.artifacts@ == old(self).artifacts@,
                self.identities@ == old(self).identities@,
                self.graph.groups() == groups,
                laid_out(old(self).graph.edges@, groups) ==> laid_out(self.graph.edges@, groups),
                marks(self.graph.edges@) == before + all.take(i as int),
            decreases ids.len() - i,
        {
            require(
                &mut self.graph,
                ids[i].clone(),
                Requirer::ServedLive { provider: kind, model_id: m.id.clone() },
            );
            proof {
                assert(all.take(i + 1) =~= all.take(i as int).push(all[i as int]));
                assert(marks(self.graph.edges@) =~= before + all.take(i + 1));
            }
            i += 1;
        }
        proof {
            assert(all.take(i as int) =~= all);
        }
    }

    /// Files plus the live memory ledger, so resident models are served live
    /// and cannot be planned for removal.
    pub fn scan(found: Vec<Artifact>, registry: &[RegistryEntry], ledger: &Ledger) -> (inv:
        Inventory)
        ensures
            inv.artifacts@ == found@,
            inv.graph.groups() == groups_of(found@),
            laid_out(inv.graph.edges@, groups_of(found@)),
            families(inv.identities@) == unified(grouped(found@), groups_of(found@)),
            marks(inv.graph.edges@) == scanned_marks(found@, router_up(ledger.rows@))
                + registry_marks(found@, registry@) + served_rows(
                found@,
                groups_of(found@),
                unified(grouped(found@), groups_of(found@)),
                ledger.rows@,
            ),
    {
        let rows = &ledger.rows;
        let mut up = false;
        let mut i: usize = 0;
        while i < rows.len() && !up
            invariant
                i <= rows@.len(),
                up ==> router_up(rows@),
                !up ==> forall|k: int|
                    0 <= k < i ==> !answers(#[trigger] rows@[k], ProviderKind::LlamaCpp),
            decreases rows@.len() - i + (if up {
                0int
            } else {
                1
            }),
        {
            let answered = match &rows[i].outcome {
                Outcome::Answered(_) => true,
                Outcome::Failed(_) => false,
            };
            if rows[i].kind == ProviderKind::LlamaCpp && answered {
                proof {
                    assert(answers(rows@[i as int], ProviderKind::LlamaCpp));
                }
                up = true;
            } else {
                i += 1;
            }
        }
        let ghost files = found@;
        let ghost groups = groups_of(files);
        let ghost models = unified(grouped(files), groups);
        let mut inv = Inventory::of_files(found, up, registry);
        let ghost base = marks(inv.graph.edges@);
        let mut n: usize = 0;
        proof {
            assert(base + served_rows(files, groups, models, rows@.take(0)) =~= base);
        }
        while n < rows.len()
            invariant
                n <= rows@.len(),
                inv.artifacts@ == files,
                inv.graph.groups() == groups,
                laid_out(inv.graph.edges@, groups),
                families(inv.identities@) == models,
                marks(inv.graph.edges@) == base + served_rows(
                    files,
                    groups,
                    models,
                    rows@.take(n as int),
                ),
            decreases rows.len() - n,
        {
            let row = &rows[n];
            proof {
                assert(rows@.take(n + 1).drop_last() =~= rows@.take(n as int));
            }
            if let Outcome::Answered(served) = &row.outcome {
                let ghost before = marks(inv.graph.edges@);
                let mut k: usize = 0;
                proof {
                    assert(before + served_list(files, groups, models, row.kind, served@.take(0))
                        =~= before);
                }
                while k < served.len()
                    invariant
                        k <= served@.len(),
                        inv.artifacts@ == files,
                        inv.graph.groups() == groups,
                        laid_out(inv.graph.edges@, groups),
                        families(inv.identities@) == models,
                        marks(inv.graph.edges@) == before + served_list(
                            files,
                            groups,
                            models,
                            row.kind,
                            served@.take(k as int),
                        ),
                    decreases served.len() - k,
                {
                    proof {
                        assert(served@.take(k + 1).drop_last() =~= served@.take(k as int));
                    }
                    if served[k].state == State::Loaded {
                        inv.mark_served(row.kind, &served[k]);
                    }
                    proof {
                        assert(marks(inv.graph.edges@) =~= before + served_list(
                            files,
                            groups,
                            models,
                            row.kind,
                            served@.take(k + 1),
                        ));
                    }
                    k += 1;
                }
                proof {
                    assert(served@.take(k as int) =~= served@);
                }
            }
            proof {
                assert(marks(inv.graph.edges@) =~= base + served_rows(
                    files,
                    groups,
                    models,
                    rows@.take(n + 1),
                ));
            }
            n += 1;
        }
        proof {
            assert(rows@.take(n as int) =~= rows@);
        }
        inv
    }

    /// Bytes on disk, counting each allocation once.
    pub fn total_bytes(&self) -> (n: u64)
        requires
            unique_bytes(self.artifacts@) <= u64::MAX,
        ensures
            n == unique_bytes(self.artifacts@),
    {
        total_unique_bytes(self.artifacts.as_slice())
    }
}

/// Texts in order, each once.
fn sorted_once(all: Vec<String>) -> (r: Vec<String>)
    ensures
        texts(r@) == deduped(
            stable_sort(texts(all@), |a: Seq<char>, b: Seq<char>| text_le(a, b)),
        ),
{
    let le = |a: &String, b: &String| -> (r: bool)
        ensures
            r == text_le(a@, b@),
        {
            !is_before(b.as_str(), a.as_str())
        };
    let ghost over = |a: String, b: String| text_le(a@, b@);
    let ghost read = |s: String| s@;
    let ghost loose = all@;
    let sorted = sort_with(all, le, Ghost(over));
    proof {
        lemma_sort_map(loose, read, over, |a: Seq<char>, b: Seq<char>| text_le(a, b));
        assert(loose.map_values(read) =~= texts(loose));
        assert(sorted@.map_values(read) =~= texts(sorted@));
    }
    let ghost line = texts(sorted@);
    let mut out: Vec<String> = Vec::new();
    let mut i: usize = 0;
    proof {
        assert(texts(out@) =~= deduped(line.take(0)));
    }
    while i < sorted.len()
        invariant
            i <= sorted@.len(),
            line == texts(sorted@),
            texts(out@) == deduped(line.take(i as int)),
        decreases sorted.len() - i,
    {
        let ghost more = line.take(i + 1);
        proof {
            assert(more.drop_last() =~= line.take(i as int));
            assert(more.last() == sorted@[i as int]@);
            if i == 0 {
                assert(line.take(0) =~= Seq::empty());
                assert(more =~= seq![sorted@[0]@]);
            } else {
                assert(more[more.len() - 2] == sorted@[i - 1]@);
            }
        }
        let fresh = i == 0 || !same(sorted[i].as_str(), sorted[i - 1].as_str());
        if fresh {
            let ghost was = out@;
            out.push(sorted[i].clone());
            proof {
                assert(texts(out@) =~= texts(was).push(sorted@[i as int]@));
                if i == 0 {
                    assert(texts(out@) =~= deduped(more));
                }
            }
        }
        i += 1;
    }
    proof {
        assert(line.take(i as int) =~= line);
    }
    out
}

/// Taking repeats out loses nothing and invents nothing.
pub(crate) proof fn lemma_deduped(s: Seq<Seq<char>>, x: Seq<char>)
    ensures
        deduped(s).contains(x) <==> s.contains(x),
    decreases s.len(),
{
    if s.len() > 1 {
        let t = s.drop_last();
        lemma_deduped(t, x);
        let d = deduped(t);
        if s.contains(x) {
            let i = s.index_of(x);
            if i < t.len() {
                assert(t[i] == x);
            } else if s.last() == s[s.len() - 2] {
                assert(t[t.len() - 1] == x);
            }
            if !t.contains(x) {
                assert(deduped(s)[d.len() as int] == x);
            } else {
                let k = d.index_of(x);
                assert(deduped(s)[k] == x);
            }
        }
        if deduped(s).contains(x) {
            let k = deduped(s).index_of(x);
            if k < d.len() {
                assert(d[k] == x);
                let i = t.index_of(x);
                assert(s[i] == x);
            } else {
                assert(s[s.len() - 1] == x);
            }
        }
    }
}

/// What is listed of anything is a dependent of it.
proof fn lemma_dependent(
    artifacts: Seq<Artifact>,
    groups: Seq<Seq<ArtifactId>>,
    models: Seq<Family>,
    name: Seq<char>,
    id: ArtifactId,
)
    requires
        direct(artifacts, name).contains(id) || beside(groups, direct(artifacts, name)).contains(
            id,
        ) || kindred(models, direct(artifacts, name)).contains(id),
    ensures
        dependents(artifacts, groups, models, name).contains(id@),
{
    let ids = direct(artifacts, name);
    let near = beside(groups, ids);
    let kin = kindred(models, ids);
    let all = ids + near + kin;
    let le = |a: Seq<char>, b: Seq<char>| text_le(a, b);
    assert(texts(all).contains(id@)) by {
        if ids.contains(id) {
            let i = ids.index_of(id);
            assert(all[i] == id);
            assert(texts(all)[i] == id@);
        } else if near.contains(id) {
            let i = near.index_of(id);
            assert(all[ids.len() + i] == id);
            assert(texts(all)[ids.len() + i] == id@);
        } else {
            let i = kin.index_of(id);
            assert(all[ids.len() + near.len() + i] == id);
            assert(texts(all)[ids.len() + near.len() + i] == id@);
        }
    }
    lemma_stable_sort_contains(texts(all), le, id@);
    lemma_deduped(stable_sort(texts(all), le), id@);
}

proof fn lemma_beside(groups: Seq<Seq<ArtifactId>>, ids: Seq<ArtifactId>, i: int, id: ArtifactId)
    requires
        0 <= i < ids.len(),
        aliases(groups, ids[i]@).contains(id),
    ensures
        beside(groups, ids).contains(id),
    decreases ids.len(),
{
    let front = beside(groups, ids.drop_last());
    let tail = aliases(groups, ids.last()@);
    if i < ids.len() - 1 {
        assert(ids.drop_last()[i] == ids[i]);
        lemma_beside(groups, ids.drop_last(), i, id);
        let k = front.index_of(id);
        assert((front + tail)[k] == id);
    } else {
        let k = tail.index_of(id);
        assert((front + tail)[front.len() + k] == id);
    }
}

/// No two artifacts go by one id.
pub open spec fn ids_distinct(artifacts: Seq<Artifact>) -> bool {
    forall|a: int, b: int|
        0 <= a < b < artifacts.len() ==> (#[trigger] artifacts[a]).id@ != (
        #[trigger] artifacts[b]).id@
}

proof fn lemma_served_list(
    artifacts: Seq<Artifact>,
    groups: Seq<Seq<ArtifactId>>,
    models: Seq<Family>,
    kind: ProviderKind,
    served: Seq<LoadedModel>,
    k: int,
    x: Mark,
)
    requires
        0 <= k < served.len(),
        served[k].state == State::Loaded,
        served_marks(artifacts, groups, models, kind, served[k]).contains(x),
    ensures
        served_list(artifacts, groups, models, kind, served).contains(x),
    decreases served.len(),
{
    let front = served_list(artifacts, groups, models, kind, served.drop_last());
    let all = served_list(artifacts, groups, models, kind, served);
    if k < served.len() - 1 {
        assert(served.drop_last()[k] == served[k]);
        lemma_served_list(artifacts, groups, models, kind, served.drop_last(), k, x);
        let i = front.index_of(x);
        assert(all[i] == x);
    } else {
        let i = served_marks(artifacts, groups, models, kind, served[k]).index_of(x);
        assert(all[front.len() + i] == x);
    }
}

proof fn lemma_served_rows(
    artifacts: Seq<Artifact>,
    groups: Seq<Seq<ArtifactId>>,
    models: Seq<Family>,
    rows: Seq<ProviderRow>,
    r: int,
    x: Mark,
)
    requires
        0 <= r < rows.len(),
        rows[r].outcome is Answered,
        served_list(artifacts, groups, models, rows[r].kind, rows[r].outcome->Answered_0@).contains(
            x,
        ),
    ensures
        served_rows(artifacts, groups, models, rows).contains(x),
    decreases rows.len(),
{
    let front = served_rows(artifacts, groups, models, rows.drop_last());
    let all = served_rows(artifacts, groups, models, rows);
    if r < rows.len() - 1 {
        assert(rows.drop_last()[r] == rows[r]);
        lemma_served_rows(artifacts, groups, models, rows.drop_last(), r, x);
        let i = front.index_of(x);
        assert(all[i] == x);
    } else {
        let i = served_list(
            artifacts,
            groups,
            models,
            rows[r].kind,
            rows[r].outcome->Answered_0@,
        ).index_of(x);
        assert(all[front.len() + i] == x);
    }
}

/// Serving a file makes every path that reaches it a dependency: whatever goes
/// by a resident model's name is marked as served live, and so is every other
/// path to the same bytes, however it is named.
pub proof fn serving_protects_every_path(
    artifacts: Seq<Artifact>,
    models: Seq<Family>,
    rows: Seq<ProviderRow>,
    r: int,
    k: int,
    i: int,
    j: int,
)
    requires
        ids_distinct(artifacts),
        0 <= r < rows.len(),
        rows[r].outcome is Answered,
        0 <= k < rows[r].outcome->Answered_0@.len(),
        rows[r].outcome->Answered_0@[k].state == State::Loaded,
        0 <= i < artifacts.len(),
        0 <= j < artifacts.len(),
        known_as(artifacts[i], canonical(rows[r].outcome->Answered_0@[k].id@)),
        i == j || (artifacts[i].key is Some && artifacts[i].key == artifacts[j].key),
    ensures
        served_rows(artifacts, groups_of(artifacts), models, rows).contains(
            (Mark {
                artifact: artifacts[j].id@,
                need: Need::ServedLive {
                    provider: rows[r].kind,
                    model_id: rows[r].outcome->Answered_0@[k].id@,
                },
            }),
        ),
{
    let groups = groups_of(artifacts);
    let served = rows[r].outcome->Answered_0@;
    let m = served[k];
    let name = canonical(m.id@);
    let ids = direct(artifacts, name);
    let p = |a: Artifact| known_as(a, name);
    lemma_filter_members(artifacts, p);
    assert(artifacts.contains(artifacts[i]));
    assert(p(artifacts[i]));
    assert(artifacts.filter(p).contains(artifacts[i]));
    let at = artifacts.filter(p).index_of(artifacts[i]);
    assert(ids[at] == artifacts[i].id);
    if i != j {
        sharing_an_allocation_is_being_an_alias(artifacts, i, j);
        lemma_beside(groups, ids, at, artifacts[j].id);
    }
    lemma_dependent(artifacts, groups, models, name, artifacts[j].id);
    let d = dependents(artifacts, groups, models, name);
    let n = d.index_of(artifacts[j].id@);
    let x = Mark {
        artifact: artifacts[j].id@,
        need: Need::ServedLive { provider: rows[r].kind, model_id: m.id@ },
    };
    assert(served_marks(artifacts, groups, models, rows[r].kind, m)[n] == x);
    lemma_served_list(artifacts, groups, models, rows[r].kind, served, k, x);
    lemma_served_rows(artifacts, groups, models, rows, r, x);
}

} // verus!
