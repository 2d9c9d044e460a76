//! Which paths reach the same bytes, and what depends on them.
use vstd::prelude::*;

use crate::inventory::artifact::{Artifact, ArtifactId, FileKey, Provenance};
use crate::inventory::ids_distinct;
use crate::provider::ProviderKind;
use crate::seqs::{
    first_index, first_match, lemma_filter_members, lemma_filter_take, lemma_first_index,
    lemma_first_index_is,
};
use crate::text::same;

verus! {

/// Why an artifact may not be removed.
#[derive(Debug, PartialEq, Eq)]
pub enum Requirer {
    /// A provider currently has it resident. From the memory ledger.
    ServedLive { provider: ProviderKind, model_id: String },
    /// Named in a registry, where a stale path is a startup failure.
    Registry { store: String, name: String },
    /// Inside a directory a provider scans at runtime: llama.cpp's router
    /// scans the HF cache, so cache entries are serving dependencies.
    Scanned { provider: ProviderKind },
}

#[derive(Debug)]
pub enum Edge {
    /// Same bytes reached by two paths. Removing one reclaims nothing.
    Aliases { a: ArtifactId, b: ArtifactId },
    DerivesFrom { child: ArtifactId, parent: ArtifactId, provenance: Provenance },
    RequiredBy { artifact: ArtifactId, requirer: Requirer },
}

#[derive(Debug)]
pub struct Graph {
    pub edges: Vec<Edge>,
    /// The ids that reach each allocation, in the order they were first seen.
    pub by_key: Vec<(FileKey, Vec<ArtifactId>)>,
}

/// The allocations that artifacts reach, each once, in the order first seen.
pub open spec fn keys_of(artifacts: Seq<Artifact>) -> Seq<FileKey>
    decreases artifacts.len(),
{
    if artifacts.len() == 0 {
        Seq::empty()
    } else {
        let before = keys_of(artifacts.drop_last());
        match artifacts.last().key {
            Some(k) => if before.contains(k) {
                before
            } else {
                before.push(k)
            },
            None => before,
        }
    }
}

pub open spec fn reaches(a: Artifact, k: FileKey) -> bool {
    a.key == Some(k)
}

/// The ids of the artifacts that reach an allocation, in their order.
pub open spec fn ids_at(artifacts: Seq<Artifact>, k: FileKey) -> Seq<ArtifactId> {
    artifacts.filter(|a: Artifact| reaches(a, k)).map_values(|a: Artifact| a.id)
}

/// The ids of every allocation.
pub open spec fn groups_of(artifacts: Seq<Artifact>) -> Seq<Seq<ArtifactId>> {
    keys_of(artifacts).map_values(|k: FileKey| ids_at(artifacts, k))
}

/// One edge between each two neighbours.
pub open spec fn chain(ids: Seq<ArtifactId>) -> Seq<Edge> {
    Seq::new(
        if ids.len() == 0 {
            0
        } else {
            (ids.len() - 1) as nat
        },
        |i: int| Edge::Aliases { a: ids[i], b: ids[i + 1] },
    )
}

/// The alias edges of every group.
pub open spec fn chains(groups: Seq<Seq<ArtifactId>>) -> Seq<Edge>
    decreases groups.len(),
{
    if groups.len() == 0 {
        Seq::empty()
    } else {
        chains(groups.drop_last()) + chain(groups.last())
    }
}

/// Whether edges are the alias edges of groups, and after them requirements
/// alone.
pub open spec fn laid_out(edges: Seq<Edge>, groups: Seq<Seq<ArtifactId>>) -> bool {
    let n = chains(groups).len() as int;
    &&& n <= edges.len()
    &&& edges.take(n) == chains(groups)
    &&& forall|i: int| n <= i < edges.len() ==> (#[trigger] edges[i]) is RequiredBy
}

/// Whether a list of ids holds one.
pub open spec fn holds(ids: Seq<ArtifactId>, id: Seq<char>) -> bool {
    exists|i: int| 0 <= i < ids.len() && (#[trigger] ids[i])@ == id
}

/// Groups of more than one id: the same bytes, reached more than once.
pub open spec fn shared(groups: Seq<Seq<ArtifactId>>) -> Seq<Seq<ArtifactId>> {
    groups.filter(|g: Seq<ArtifactId>| g.len() > 1)
}

pub open spec fn other(x: ArtifactId, id: Seq<char>) -> bool {
    x@ != id
}

/// The other ids of the first shared group that holds one.
pub open spec fn aliases(groups: Seq<Seq<ArtifactId>>, id: Seq<char>) -> Seq<ArtifactId> {
    match first_match(shared(groups), |g: Seq<ArtifactId>| holds(g, id)) {
        Some(g) => g.filter(|x: ArtifactId| other(x, id)),
        None => Seq::empty(),
    }
}

/// What requires an artifact, as far as an edge says.
pub open spec fn requirer_in(e: Edge, id: Seq<char>) -> Option<Requirer> {
    match e {
        Edge::RequiredBy { artifact, requirer } => if artifact@ == id {
            Some(requirer)
        } else {
            None
        },
        _ => None,
    }
}

/// Everything that requires an artifact, in the order it was noted.
pub open spec fn requirers(edges: Seq<Edge>, id: Seq<char>) -> Seq<Requirer> {
    edges.filter_map(|e: Edge| requirer_in(e, id))
}

/// Why an artifact may not be removed, in texts.
#[verifier::ext_equal]
pub enum Need {
    ServedLive { provider: ProviderKind, model_id: Seq<char> },
    Registry { store: Seq<char>, name: Seq<char> },
    Scanned { provider: ProviderKind },
}

pub open spec fn need(r: Requirer) -> Need {
    match r {
        Requirer::ServedLive { provider, model_id } => Need::ServedLive {
            provider,
            model_id: model_id@,
        },
        Requirer::Registry { store, name } => Need::Registry { store: store@, name: name@ },
        Requirer::Scanned { provider } => Need::Scanned { provider },
    }
}

/// That an artifact is required, in texts.
#[verifier::ext_equal]
pub struct Mark {
    pub artifact: Seq<char>,
    pub need: Need,
}

/// What an edge says of requirements, where it says anything.
pub open spec fn mark_in(e: Edge) -> Option<Mark> {
    match e {
        Edge::RequiredBy { artifact, requirer } => Some(
            Mark { artifact: artifact@, need: need(requirer) },
        ),
        _ => None,
    }
}

/// Everything that edges say of requirements, in the order it was noted.
pub open spec fn marks(edges: Seq<Edge>) -> Seq<Mark> {
    edges.filter_map(|e: Edge| mark_in(e))
}

/// One requirement more.
pub proof fn lemma_marks_push(edges: Seq<Edge>, e: Edge)
    ensures
        marks(edges.push(e)) == match mark_in(e) {
            Some(m) => marks(edges).push(m),
            None => marks(edges),
        },
{
    assert(edges.push(e).drop_last() =~= edges);
    assert(marks(edges.push(e)) =~= match mark_in(e) {
        Some(m) => marks(edges).push(m),
        None => marks(edges),
    });
}

/// One requirement more leaves the alias edges where they are.
pub proof fn lemma_laid_out_push(edges: Seq<Edge>, e: Edge, groups: Seq<Seq<ArtifactId>>)
    requires
        laid_out(edges, groups),
        e is RequiredBy,
    ensures
        laid_out(edges.push(e), groups),
{
    let n = chains(groups).len() as int;
    assert(edges.push(e).take(n) =~= edges.take(n));
}

/// Alias edges say nothing of requirements.
pub proof fn lemma_chains_mark_nothing(groups: Seq<Seq<ArtifactId>>)
    ensures
        marks(chains(groups)).len() == 0,
    decreases groups.len(),
{
    let f = |e: Edge| mark_in(e);
    let edges = chains(groups);
    crate::seqs::lemma_filter_map_members(edges, f);
    if marks(edges).len() > 0 {
        let m = edges.filter_map(f)[0];
        let i = choose|i: int|
            0 <= i < edges.len() && f(#[trigger] edges[i]) == Some(#[trigger] edges.filter_map(
                f,
            )[0]);
        lemma_chains_alias(groups, i);
    }
}

proof fn lemma_chains_alias(groups: Seq<Seq<ArtifactId>>, i: int)
    requires
        0 <= i < chains(groups).len(),
    ensures
        chains(groups)[i] is Aliases,
    decreases groups.len(),
{
    let before = chains(groups.drop_last());
    if i < before.len() {
        lemma_chains_alias(groups.drop_last(), i);
    }
}

/// A list of lists, seen as sequences.
pub open spec fn lists(v: Seq<Vec<ArtifactId>>) -> Seq<Seq<ArtifactId>> {
    v.map_values(|g: Vec<ArtifactId>| g@)
}

pub(crate) fn holds_id(ids: &Vec<ArtifactId>, id: &str) -> (r: bool)
    ensures
        r == holds(ids@, id@),
{
    let mut i: usize = 0;
    while i < ids.len()
        invariant
            i <= ids@.len(),
            forall|k: int| 0 <= k < i ==> (#[trigger] ids@[k])@ != id@,
        decreases ids.len() - i,
    {
        if same(ids[i].as_str(), id) {
            return true;
        }
        i += 1;
    }
    false
}

/// A copy of a list of ids.
pub(crate) fn copied(ids: &Vec<ArtifactId>) -> (r: Vec<ArtifactId>)
    ensures
        r@ == ids@,
{
    let mut out: Vec<ArtifactId> = Vec::new();
    let mut i: usize = 0;
    while i < ids.len()
        invariant
            i <= ids@.len(),
            out@ == ids@.take(i as int),
        decreases ids.len() - i,
    {
        out.push(ids[i].clone());
        proof {
            assert(ids@.take(i + 1) =~= ids@.take(i as int).push(ids@[i as int]));
        }
        i += 1;
    }
    proof {
        assert(ids@.take(i as int) =~= ids@);
    }
    out
}

/// One artifact more: its id joins the group of its allocation.
proof fn lemma_ids_push(artifacts: Seq<Artifact>, i: int, k: FileKey)
    requires
        0 <= i < artifacts.len(),
    ensures
        ids_at(artifacts.take(i + 1), k) == if reaches(artifacts[i], k) {
            ids_at(artifacts.take(i), k).push(artifacts[i].id)
        } else {
            ids_at(artifacts.take(i), k)
        },
{
    let p = |a: Artifact| reaches(a, k);
    lemma_filter_take(artifacts, p, i);
    assert(ids_at(artifacts.take(i + 1), k) =~= if reaches(artifacts[i], k) {
        ids_at(artifacts.take(i), k).push(artifacts[i].id)
    } else {
        ids_at(artifacts.take(i), k)
    });
}

/// Every allocation in the list is reached, none twice, and no artifact's is
/// missing.
pub proof fn lemma_keys_of(artifacts: Seq<Artifact>)
    ensures
        keys_of(artifacts).no_duplicates(),
        forall|i: int|
            0 <= i < artifacts.len() ==> ((#[trigger] artifacts[i]).key matches Some(k)
                ==> keys_of(artifacts).contains(k)),
        forall|k: FileKey|
            #![trigger keys_of(artifacts).contains(k)]
            keys_of(artifacts).contains(k) ==> exists|i: int|
                0 <= i < artifacts.len() && #[trigger] reaches(artifacts[i], k),
    decreases artifacts.len(),
{
    if artifacts.len() > 0 {
        let front = artifacts.drop_last();
        lemma_keys_of(front);
        let before = keys_of(front);
        let all = keys_of(artifacts);
        let n = artifacts.len() - 1;
        assert forall|k: FileKey| before.contains(k) implies #[trigger] all.contains(k) by {
            let j = before.index_of(k);
            assert(all[j] == k);
        }
        if let Some(k) = artifacts.last().key {
            if !before.contains(k) {
                assert(all[before.len() as int] == k);
            }
        }
        assert forall|i: int| 0 <= i < artifacts.len() implies ((#[trigger] artifacts[i]).key matches Some(k)
            ==> all.contains(k)) by {
            if i < n {
                assert(front[i] == artifacts[i]);
            }
        }
        assert forall|k: FileKey| #![trigger all.contains(k)] all.contains(k) implies exists|i: int|
            0 <= i < artifacts.len() && #[trigger] reaches(artifacts[i], k) by {
            if before.contains(k) {
                let i = choose|i: int| 0 <= i < front.len() && #[trigger] reaches(front[i], k);
                assert(reaches(artifacts[i], k));
            } else {
                assert(reaches(artifacts[n], k));
            }
        }
    }
}

impl Graph {
    /// The ids of every allocation, in the order first seen.
    pub open spec fn groups(self) -> Seq<Seq<ArtifactId>> {
        self.by_key@.map_values(|e: (FileKey, Vec<ArtifactId>)| e.1@)
    }

    pub fn build(artifacts: &[Artifact]) -> (g: Graph)
        ensures
            g.groups() == groups_of(artifacts@),
            g.edges@ == chains(groups_of(artifacts@)),
    {
        let mut by_key: Vec<(FileKey, Vec<ArtifactId>)> = Vec::new();
        let mut i: usize = 0;
        while i < artifacts.len()
            invariant
                i <= artifacts@.len(),
                by_key@.len() == keys_of(artifacts@.take(i as int)).len(),
                forall|j: int|
                    0 <= j < by_key@.len() ==> (#[trigger] by_key@[j]).0 == keys_of(
                        artifacts@.take(i as int),
                    )[j],
                forall|j: int|
                    0 <= j < by_key@.len() ==> (#[trigger] by_key@[j]).1@ == ids_at(
                        artifacts@.take(i as int),
                        by_key@[j].0,
                    ),
            decreases artifacts.len() - i,
        {
            let ghost front = artifacts@.take(i as int);
            let ghost more = artifacts@.take(i + 1);
            let ghost keys = keys_of(front);
            proof {
                assert(more.drop_last() =~= front);
                assert(more.last() == artifacts@[i as int]);
                lemma_keys_of(front);
                assert forall|k: FileKey| #[trigger] ids_at(more, k) == if reaches(
                    artifacts@[i as int],
                    k,
                ) {
                    ids_at(front, k).push(artifacts@[i as int].id)
                } else {
                    ids_at(front, k)
                } by {
                    lemma_ids_push(artifacts@, i as int, k);
                }
            }
            if let Some(k) = artifacts[i].key {
                let mut at: usize = 0;
                while at < by_key.len() && by_key[at].0 != k
                    invariant
                        at <= by_key@.len(),
                        forall|j: int| 0 <= j < at ==> (#[trigger] by_key@[j]).0 != k,
                    decreases by_key.len() - at,
                {
                    at += 1;
                }
                if at < by_key.len() {
                    let ghost was = by_key@;
                    let (key, mut ids) = by_key.remove(at);
                    ids.push(artifacts[i].id.clone());
                    by_key.insert(at, (key, ids));
                    proof {
                        assert(keys[at as int] == k);
                        assert(keys.contains(k));
                        assert forall|j: int| 0 <= j < by_key@.len() implies (
                        #[trigger] by_key@[j]).0 == keys[j] && by_key@[j].1@ == ids_at(
                            more,
                            by_key@[j].0,
                        ) by {
                            if j != at {
                                assert(by_key@[j] == was[j]);
                                assert(keys[j] != keys[at as int]);
                            }
                        }
                    }
                } else {
                    let mut ids: Vec<ArtifactId> = Vec::new();
                    ids.push(artifacts[i].id.clone());
                    let ghost was = by_key@;
                    by_key.push((k, ids));
                    proof {
                        assert(!keys.contains(k)) by {
                            if keys.contains(k) {
                                let j = keys.index_of(k);
                                assert(was[j].0 == k);
                            }
                        }
                        lemma_none_at(front, k);
                        assert forall|j: int| 0 <= j < by_key@.len() implies (
                        #[trigger] by_key@[j]).0 == keys.push(k)[j] && by_key@[j].1@ == ids_at(
                            more,
                            by_key@[j].0,
                        ) by {
                            if j < was.len() {
                                assert(by_key@[j] == was[j]);
                                assert(keys.contains(keys[j]));
                            } else {
                                assert(ids@ =~= ids_at(front, k).push(artifacts@[i as int].id));
                            }
                        }
                    }
                }
            }
            i += 1;
        }
        proof {
            assert(artifacts@.take(i as int) =~= artifacts@);
        }
        let ghost groups = groups_of(artifacts@);
        let mut edges: Vec<Edge> = Vec::new();
        let mut n: usize = 0;
        proof {
            assert(groups.take(0).len() == 0);
        }
        while n < by_key.len()
            invariant
                n <= by_key@.len(),
                by_key@.len() == groups.len(),
                forall|j: int| 0 <= j < by_key@.len() ==> (#[trigger] by_key@[j]).1@ == groups[j],
                edges@ == chains(groups.take(n as int)),
            decreases by_key.len() - n,
        {
            let ids = &by_key[n].1;
            let ghost was = edges@;
            let ghost links = chain(ids@);
            let mut j: usize = 1;
            proof {
                assert(links.take(0).len() == 0);
                assert(was + links.take(0) =~= was);
            }
            while j < ids.len()
                invariant
                    1 <= j,
                    j <= ids@.len() || (ids@.len() == 0 && j == 1),
                    links == chain(ids@),
                    edges@ == was + links.take(j - 1),
                decreases ids.len() - j,
            {
                edges.push(Edge::Aliases { a: ids[j - 1].clone(), b: ids[j].clone() });
                proof {
                    assert(links.take(j as int) =~= links.take(j - 1).push(links[j - 1]));
                    assert(edges@ =~= was + links.take(j as int));
                }
                j += 1;
            }
            proof {
                assert(links.take(j - 1) =~= links);
                assert(edges@ == was + chain(groups[n as int]));
                assert(groups.take(n + 1).drop_last() =~= groups.take(n as int));
                assert(groups.take(n + 1).last() == ids@);
            }
            n += 1;
        }
        proof {
            assert(groups.take(n as int) =~= groups);
        }
        let g = Graph { edges, by_key };
        proof {
            assert(g.groups() =~= groups);
        }
        g
    }

    /// Groups of artifact ids that are the same allocation.
    pub fn alias_groups(&self) -> (r: Vec<Vec<ArtifactId>>)
        ensures
            lists(r@) == shared(self.groups()),
    {
        let ghost p = |g: Seq<ArtifactId>| g.len() > 1;
        let mut out: Vec<Vec<ArtifactId>> = Vec::new();
        let mut i: usize = 0;
        proof {
            assert(lists(out@) =~= self.groups().take(0).filter(p));
        }
        while i < self.by_key.len()
            invariant
                i <= self.by_key@.len(),
                p == (|g: Seq<ArtifactId>| g.len() > 1),
                lists(out@) == self.groups().take(i as int).filter(p),
            decreases self.by_key.len() - i,
        {
            proof {
                lemma_filter_take(self.groups(), p, i as int);
            }
            let ids = &self.by_key[i].1;
            if ids.len() > 1 {
                let ghost was = out@;
                out.push(copied(ids));
                proof {
                    assert(lists(out@) =~= lists(was).push(ids@));
                }
            }
            i += 1;
        }
        proof {
            assert(self.groups().take(i as int) =~= self.groups());
        }
        out
    }

    /// The other paths to the same bytes.
    pub fn aliases_of(&self, id: &str) -> (r: Vec<ArtifactId>)
        ensures
            r@ == aliases(self.groups(), id@),
    {
        let groups = self.alias_groups();
        let ghost q = |g: Seq<ArtifactId>| holds(g, id@);
        let ghost p = |x: ArtifactId| other(x, id@);
        let mut i: usize = 0;
        while i < groups.len()
            invariant
                i <= groups@.len(),
                q == (|g: Seq<ArtifactId>| holds(g, id@)),
                p == (|x: ArtifactId| other(x, id@)),
                lists(groups@) == shared(self.groups()),
                forall|j: int| 0 <= j < i ==> !q(#[trigger] lists(groups@)[j]),
            decreases groups.len() - i,
        {
            if holds_id(&groups[i], id) {
                proof {
                    lemma_first_index_is(lists(groups@), q, i as int);
                }
                let g = &groups[i];
                let mut out: Vec<ArtifactId> = Vec::new();
                let mut n: usize = 0;
                while n < g.len()
                    invariant
                        n <= g@.len(),
                        p == (|x: ArtifactId| other(x, id@)),
                        out@ == g@.take(n as int).filter(p),
                    decreases g.len() - n,
                {
                    proof {
                        lemma_filter_take(g@, p, n as int);
                    }
                    if !same(g[n].as_str(), id) {
                        out.push(g[n].clone());
                    }
                    n += 1;
                }
                proof {
                    assert(g@.take(n as int) =~= g@);
                }
                return out;
            }
            i += 1;
        }
        proof {
            lemma_first_index_is(lists(groups@), q, i as int);
        }
        Vec::new()
    }

    /// Notes that something requires an artifact.
    pub fn add_required_by(&mut self, artifact: ArtifactId, requirer: Requirer)
        ensures
            final(self).edges@ == old(self).edges@.push(Edge::RequiredBy { artifact, requirer }),
            final(self).groups() == old(self).groups(),
    {
        self.edges.push(Edge::RequiredBy { artifact, requirer });
    }

    /// Everything that requires an artifact, in the order it was noted.
    pub fn requirers_of(&self, id: &str) -> (r: Vec<&Requirer>)
        ensures
            r@.unref() == requirers(self.edges@, id@),
    {
        let ghost f = |e: Edge| requirer_in(e, id@);
        let mut out: Vec<&Requirer> = Vec::new();
        let mut i: usize = 0;
        proof {
            assert(self.edges@.take(0).filter_map(f) =~= Seq::<Requirer>::empty());
            assert(out@.unref() =~= Seq::<Requirer>::empty());
        }
        while i < self.edges.len()
            invariant
                i <= self.edges@.len(),
                f == (|e: Edge| requirer_in(e, id@)),
                out@.unref() == self.edges@.take(i as int).filter_map(f),
            decreases self.edges.len() - i,
        {
            proof {
                self.edges@.lemma_filter_map_take_succ(f, i as int);
            }
            let ghost was = out@;
            match &self.edges[i] {
                Edge::RequiredBy { artifact, requirer } => {
                    if same(artifact.as_str(), id) {
                        out.push(requirer);
                        proof {
                            assert(out@.unref() =~= was.unref().push(*requirer));
                        }
                    }
                },
                _ => {},
            }
            proof {
                assert(out@.unref() =~= self.edges@.take(i + 1).filter_map(f));
            }
            i += 1;
        }
        proof {
            assert(self.edges@.take(i as int) =~= self.edges@);
        }
        out
    }
}

/// Nothing reaches an allocation that is not in the list.
proof fn lemma_none_at(artifacts: Seq<Artifact>, k: FileKey)
    requires
        !keys_of(artifacts).contains(k),
    ensures
        ids_at(artifacts, k).len() == 0,
{
    let p = |a: Artifact| reaches(a, k);
    lemma_keys_of(artifacts);
    lemma_filter_members(artifacts, p);
    if artifacts.filter(p).len() > 0 {
        let a = artifacts.filter(p)[0];
        assert(p(a) && artifacts.contains(a));
        let i = artifacts.index_of(a);
        assert(artifacts[i].key == Some(k));
    }
}

/// Two artifacts that reach one allocation are in one group, and a group holds
/// only what reaches one allocation: sharing bytes is decided by the
/// allocation and by nothing else.
pub proof fn a_group_is_an_allocation(artifacts: Seq<Artifact>)
    ensures
        forall|i: int, j: int|
            #![trigger artifacts[i], artifacts[j]]
            0 <= i < artifacts.len() && 0 <= j < artifacts.len() && artifacts[i].key is Some
                && artifacts[i].key == artifacts[j].key ==> exists|g: int|
                0 <= g < groups_of(artifacts).len() && (#[trigger] groups_of(artifacts)[g]).contains(
                    artifacts[i].id,
                ) && groups_of(artifacts)[g].contains(artifacts[j].id),
        forall|g: int, x: int|
            #![trigger groups_of(artifacts)[g][x]]
            0 <= g < groups_of(artifacts).len() && 0 <= x < groups_of(artifacts)[g].len()
                ==> exists|i: int|
                0 <= i < artifacts.len() && (#[trigger] artifacts[i]).id == groups_of(
                    artifacts,
                )[g][x] && artifacts[i].key == Some(keys_of(artifacts)[g]),
{
    let groups = groups_of(artifacts);
    let keys = keys_of(artifacts);
    lemma_keys_of(artifacts);
    assert forall|i: int, j: int|
        #![trigger artifacts[i], artifacts[j]]
        0 <= i < artifacts.len() && 0 <= j < artifacts.len() && artifacts[i].key is Some
            && artifacts[i].key == artifacts[j].key implies exists|g: int|
        0 <= g < groups.len() && (#[trigger] groups[g]).contains(artifacts[i].id)
            && groups[g].contains(artifacts[j].id) by {
        let k = artifacts[i].key->0;
        assert(keys.contains(k));
        let g = keys.index_of(k);
        lemma_in_group(artifacts, i, k);
        lemma_in_group(artifacts, j, k);
        assert(groups[g] == ids_at(artifacts, k));
    }
    assert forall|g: int, x: int|
        #![trigger groups[g][x]]
        0 <= g < groups.len() && 0 <= x < groups[g].len() implies exists|i: int|
        0 <= i < artifacts.len() && (#[trigger] artifacts[i]).id == groups[g][x]
            && artifacts[i].key == Some(keys[g]) by {
        let k = keys[g];
        let p = |a: Artifact| reaches(a, k);
        lemma_filter_members(artifacts, p);
        let a = artifacts.filter(p)[x];
        assert(groups[g][x] == a.id);
        assert(artifacts.contains(a));
        let i = artifacts.index_of(a);
        assert(artifacts[i].id == groups[g][x]);
    }
}

proof fn lemma_in_group(artifacts: Seq<Artifact>, i: int, k: FileKey)
    requires
        0 <= i < artifacts.len(),
        artifacts[i].key == Some(k),
    ensures
        ids_at(artifacts, k).contains(artifacts[i].id),
{
    let p = |a: Artifact| reaches(a, k);
    lemma_filter_members(artifacts, p);
    assert(artifacts.contains(artifacts[i]));
    assert(artifacts.filter(p).contains(artifacts[i]));
    let x = artifacts.filter(p).index_of(artifacts[i]);
    assert(ids_at(artifacts, k)[x] == artifacts[i].id);
}

/// A group that holds an id is that of its allocation.
proof fn lemma_only_group(artifacts: Seq<Artifact>, i: int, g: int)
    requires
        ids_distinct(artifacts),
        0 <= i < artifacts.len(),
        artifacts[i].key is Some,
        0 <= g < groups_of(artifacts).len(),
        holds(groups_of(artifacts)[g], artifacts[i].id@),
    ensures
        keys_of(artifacts)[g] == artifacts[i].key->0,
        groups_of(artifacts)[g] == ids_at(artifacts, artifacts[i].key->0),
{
    let groups = groups_of(artifacts);
    a_group_is_an_allocation(artifacts);
    let x = choose|x: int| 0 <= x < groups[g].len() && (#[trigger] groups[g][x])@ == artifacts[i].id@;
    let id = groups[g][x];
    let a = choose|a: int|
        0 <= a < artifacts.len() && (#[trigger] artifacts[a]).id == id && artifacts[a].key == Some(
            keys_of(artifacts)[g],
        );
    assert(artifacts[a].id@ == artifacts[i].id@);
    assert(a == i);
}

/// The other paths to an artifact's bytes are its aliases.
pub proof fn sharing_an_allocation_is_being_an_alias(artifacts: Seq<Artifact>, i: int, j: int)
    requires
        ids_distinct(artifacts),
        0 <= i < artifacts.len(),
        0 <= j < artifacts.len(),
        i != j,
        artifacts[i].key is Some,
        artifacts[i].key == artifacts[j].key,
    ensures
        aliases(groups_of(artifacts), artifacts[i].id@).contains(artifacts[j].id),
{
    let groups = groups_of(artifacts);
    let keys = keys_of(artifacts);
    let one = artifacts[i];
    let two = artifacts[j];
    let id = one.id@;
    let k = one.key->0;
    let q = |g: Seq<ArtifactId>| holds(g, id);
    let more = |g: Seq<ArtifactId>| g.len() > 1;
    let sharing = shared(groups);
    let own = ids_at(artifacts, k);
    lemma_keys_of(artifacts);
    lemma_in_group(artifacts, i, k);
    lemma_in_group(artifacts, j, k);
    assert(keys.contains(k));
    assert(groups[keys.index_of(k)] == own);
    assert(groups.contains(own));
    let u = own.index_of(one.id);
    let v = own.index_of(two.id);
    assert(u != v);
    assert(holds(own, id)) by {
        assert(own[u]@ == id);
    }
    lemma_filter_members(groups, more);
    assert(more(own));
    assert(sharing.contains(own));
    let s = sharing.index_of(own);
    lemma_first_index(sharing, q);
    assert(q(sharing[s]));
    let f = first_index(sharing, q);
    assert(f < sharing.len()) by {
        assert(sharing.any(q));
    }
    let first = sharing[f];
    assert(q(first));
    assert(sharing.contains(first));
    assert(groups.contains(first));
    let g = groups.index_of(first);
    lemma_only_group(artifacts, i, g);
    assert(first == own);
    let p = |x: ArtifactId| other(x, id);
    lemma_filter_members(own, p);
    assert(p(two.id));
    assert(own.filter(p).contains(two.id));
}

/// Whether two artifacts reach one allocation.
pub open spec fn one_allocation(a: Artifact, b: Artifact) -> bool {
    a.key is Some && a.key == b.key
}

/// Whether two ids are those of artifacts that reach one allocation.
pub open spec fn same_bytes(artifacts: Seq<Artifact>, a: Seq<char>, b: Seq<char>) -> bool {
    exists|i: int, j: int|
        0 <= i < artifacts.len() && 0 <= j < artifacts.len() && #[trigger] one_allocation(
            artifacts[i],
            artifacts[j],
        ) && artifacts[i].id@ == a && artifacts[j].id@ == b
}

/// An id of a group is that of an artifact that reaches the group's allocation.
proof fn lemma_group_member(artifacts: Seq<Artifact>, g: int, x: int)
    requires
        0 <= g < groups_of(artifacts).len(),
        0 <= x < groups_of(artifacts)[g].len(),
    ensures
        exists|i: int|
            0 <= i < artifacts.len() && (#[trigger] artifacts[i]).id == groups_of(artifacts)[g][x]
                && artifacts[i].key == Some(keys_of(artifacts)[g]),
{
    a_group_is_an_allocation(artifacts);
    let id = groups_of(artifacts)[g][x];
}

/// What is listed as an alias reaches the allocation of the id asked for.
proof fn lemma_alias_shares(artifacts: Seq<Artifact>, a: Seq<char>, b: Seq<char>)
    requires
        holds(aliases(groups_of(artifacts), a), b),
    ensures
        a != b,
        same_bytes(artifacts, a, b),
{
    let groups = groups_of(artifacts);
    let sharing = shared(groups);
    let q = |g: Seq<ArtifactId>| holds(g, a);
    let p = |x: ArtifactId| other(x, a);
    let all = aliases(groups, a);
    let x = choose|x: int| 0 <= x < all.len() && (#[trigger] all[x])@ == b;
    lemma_first_index(sharing, q);
    let own = sharing[first_index(sharing, q)];
    assert(first_match(sharing, q) == Some(own));
    assert(q(own));
    assert(all == own.filter(p));
    assert(own.filter(p)[x] == all[x]);
    lemma_filter_members(groups, |g: Seq<ArtifactId>| g.len() > 1);
    assert(sharing.contains(own));
    assert(groups.contains(own));
    let g = groups.index_of(own);
    lemma_filter_members(own, p);
    assert(own.filter(p).contains(all[x]));
    assert(p(all[x]) && own.contains(all[x]));
    let v = own.index_of(all[x]);
    let u = choose|u: int| 0 <= u < own.len() && (#[trigger] own[u])@ == a;
    lemma_group_member(artifacts, g, u);
    lemma_group_member(artifacts, g, v);
    let i = choose|i: int|
        0 <= i < artifacts.len() && (#[trigger] artifacts[i]).id == groups[g][u] && artifacts[i].key
            == Some(keys_of(artifacts)[g]);
    let j = choose|j: int|
        0 <= j < artifacts.len() && (#[trigger] artifacts[j]).id == groups[g][v] && artifacts[j].key
            == Some(keys_of(artifacts)[g]);
    assert(one_allocation(artifacts[i], artifacts[j]));
}

/// The aliases of an id are exactly the other ids of its allocation, in a graph
/// of those artifacts and whatever requirements were noted since: an alias
/// shares the allocation, being one goes either way round, nothing is its own,
/// and an id that is unknown or reaches no known allocation has none.
pub proof fn an_alias_is_another_path_to_the_same_bytes(g: Graph, artifacts: Seq<Artifact>)
    requires
        ids_distinct(artifacts),
        g.groups() == groups_of(artifacts),
    ensures
        forall|a: Seq<char>, b: Seq<char>| #[trigger]
            holds(aliases(g.groups(), a), b) <==> a != b && same_bytes(artifacts, a, b),
        forall|a: Seq<char>, b: Seq<char>| #[trigger]
            holds(aliases(g.groups(), a), b) <==> holds(aliases(g.groups(), b), a),
        forall|a: Seq<char>| !#[trigger] holds(aliases(g.groups(), a), a),
        forall|a: Seq<char>|
            (forall|i: int|
                0 <= i < artifacts.len() && (#[trigger] artifacts[i]).id@ == a
                    ==> artifacts[i].key is None) ==> #[trigger] aliases(g.groups(), a).len() == 0,
{
    let groups = g.groups();
    assert forall|a: Seq<char>, b: Seq<char>| #[trigger]
        holds(aliases(groups, a), b) <==> a != b && same_bytes(artifacts, a, b) by {
        if holds(aliases(groups, a), b) {
            lemma_alias_shares(artifacts, a, b);
        }
        if a != b && same_bytes(artifacts, a, b) {
            let (i, j) = choose|i: int, j: int|
                0 <= i < artifacts.len() && 0 <= j < artifacts.len() && #[trigger] one_allocation(
                    artifacts[i],
                    artifacts[j],
                ) && artifacts[i].id@ == a && artifacts[j].id@ == b;
            sharing_an_allocation_is_being_an_alias(artifacts, i, j);
            let all = aliases(groups, a);
            assert(all[all.index_of(artifacts[j].id)]@ == b);
        }
    }
    assert forall|a: Seq<char>, b: Seq<char>| same_bytes(artifacts, a, b) implies #[trigger] same_bytes(
        artifacts,
        b,
        a,
    ) by {
        let (i, j) = choose|i: int, j: int|
            0 <= i < artifacts.len() && 0 <= j < artifacts.len() && #[trigger] one_allocation(
                artifacts[i],
                artifacts[j],
            ) && artifacts[i].id@ == a && artifacts[j].id@ == b;
        assert(one_allocation(artifacts[j], artifacts[i]));
    }
    assert forall|a: Seq<char>|
        (forall|i: int|
            0 <= i < artifacts.len() && (#[trigger] artifacts[i]).id@ == a
                ==> artifacts[i].key is None) implies #[trigger] aliases(groups, a).len() == 0 by {
        let all = aliases(groups, a);
        if all.len() > 0 {
            assert(all[0]@ == all[0]@);
            assert(holds(all, all[0]@));
            assert(same_bytes(artifacts, a, all[0]@));
        }
    }
}

} // verus!
