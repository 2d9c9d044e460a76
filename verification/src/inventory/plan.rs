//! What removing artifacts would free, and what stands in the way.
use vstd::prelude::*;

use crate::inventory::artifact::{Artifact, ArtifactId, FileKey};
use crate::inventory::graph::{need, requirers, Edge, Graph, Need, Requirer};
use crate::inventory::scan::{has_key, unique_bytes};
use crate::inventory::graph::keys_of;
use crate::provider::kind_text;
use crate::seqs::{lemma_filter_take, total};
use crate::text::{cat2, cat4, join, joined, texts};

verus! {

#[derive(Debug)]
pub struct RemovalStep {
    pub id: ArtifactId,
    pub path: String,
    pub is_link: bool,
    /// Bytes this step actually frees. Zero for an alias.
    pub frees_bytes: u64,
}

#[derive(Debug)]
pub struct Refusal {
    pub id: ArtifactId,
    pub reason: String,
}

/// A plan, never an execution: there is deliberately no way to apply one here.
#[derive(Debug)]
pub struct RemovalPlan {
    pub steps: Vec<RemovalStep>,
    pub reclaims_bytes: u64,
    pub refusals: Vec<Refusal>,
}

/// Why an artifact may not be removed, as it is said.
pub open spec fn need_text(n: Need) -> Seq<char> {
    match n {
        Need::ServedLive { provider, model_id } => "served live by "@ + kind_text(provider)
            + " as "@ + model_id,
        Need::Registry { store, name } => "named in the "@ + store + " registry as "@ + name,
        Need::Scanned { provider } => "inside a directory "@ + kind_text(provider)
            + " scans at runtime"@,
    }
}

/// All the reasons an artifact may not be removed.
pub open spec fn reasons(edges: Seq<Edge>, id: Seq<char>) -> Seq<Seq<char>> {
    requirers(edges, id).map_values(|r: Requirer| need_text(need(r)))
}

/// Whether anything requires an artifact.
pub open spec fn required(edges: Seq<Edge>, a: Artifact) -> bool {
    requirers(edges, a.id@).len() > 0
}

/// A plan, in texts: its steps, what it frees, and each refusal with its
/// reasons.
#[verifier::ext_equal]
pub struct Removal {
    pub steps: Seq<RemovalStep>,
    pub reclaims: nat,
    pub refusals: Seq<(ArtifactId, Seq<char>)>,
}

pub open spec fn removal(p: RemovalPlan) -> Removal {
    Removal {
        steps: p.steps@,
        reclaims: p.reclaims_bytes as nat,
        refusals: refused(p.refusals@),
    }
}

pub open spec fn refused(v: Seq<Refusal>) -> Seq<(ArtifactId, Seq<char>)> {
    v.map_values(|r: Refusal| (r.id, r.reason@))
}

/// The refusals of artifacts that something requires.
pub open spec fn refusals_of(artifacts: Seq<Artifact>, edges: Seq<Edge>) -> Seq<
    (ArtifactId, Seq<char>),
> {
    artifacts.filter(|a: Artifact| required(edges, a)).map_values(
        |a: Artifact| (a.id, joined(reasons(edges, a.id@), "; "@)),
    )
}

/// The paths that lead elsewhere.
pub open spec fn links_of(artifacts: Seq<Artifact>) -> Seq<Artifact> {
    artifacts.filter(|a: Artifact| a.is_link)
}

/// The paths that are the files.
pub open spec fn files_of(artifacts: Seq<Artifact>) -> Seq<Artifact> {
    artifacts.filter(|a: Artifact| !a.is_link)
}

/// One step, and what it frees.
pub open spec fn step_of(a: Artifact, frees: u64) -> RemovalStep {
    RemovalStep { id: a.id, path: a.path, is_link: a.is_link, frees_bytes: frees }
}

/// What removing the `i`th file frees: its bytes, unless an earlier file has
/// freed the same allocation or it reaches none.
pub open spec fn frees(files: Seq<Artifact>, i: int) -> u64 {
    match files[i].key {
        Some(k) => if keys_of(files.take(i)).contains(k) {
            0
        } else {
            files[i].bytes
        },
        None => 0,
    }
}

/// The steps of a removal: the links first, which free nothing, or the store
/// is briefly full of dangling links.
pub open spec fn steps_of(artifacts: Seq<Artifact>) -> Seq<RemovalStep> {
    let files = files_of(artifacts);
    links_of(artifacts).map_values(|a: Artifact| step_of(a, 0)) + Seq::new(
        files.len(),
        |i: int| step_of(files[i], frees(files, i)),
    )
}

/// The plan to remove artifacts. Any refusal poisons the whole of it: removing
/// half of an aliased pair leaves a dangling link, and removing a source while
/// a build is served is exactly the case this exists to prevent.
pub open spec fn removal_of(artifacts: Seq<Artifact>, edges: Seq<Edge>) -> Removal {
    let refusals = refusals_of(artifacts, edges);
    if refusals.len() > 0 {
        Removal { steps: Seq::empty(), reclaims: 0, refusals }
    } else {
        Removal {
            steps: steps_of(artifacts),
            reclaims: unique_bytes(files_of(artifacts)),
            refusals: Seq::empty(),
        }
    }
}

fn need_said(r: &Requirer) -> (s: String)
    ensures
        s@ == need_text(need(*r)),
{
    match r {
        Requirer::ServedLive { provider, model_id } => cat4(
            "served live by ",
            provider.as_str(),
            " as ",
            model_id.as_str(),
        ),
        Requirer::Registry { store, name } => cat4(
            "named in the ",
            store.as_str(),
            " registry as ",
            name.as_str(),
        ),
        Requirer::Scanned { provider } => cat2(
            cat2("inside a directory ", provider.as_str()).as_str(),
            " scans at runtime",
        ),
    }
}

/// Why an artifact may not be removed, where it may not.
fn refusal_for(id: &ArtifactId, graph: &Graph) -> (r: Option<Refusal>)
    ensures
        match r {
            Some(f) => requirers(graph.edges@, id@).len() > 0 && f.id == *id && f.reason@
                == joined(reasons(graph.edges@, id@), "; "@),
            None => requirers(graph.edges@, id@).len() == 0,
        },
{
    let reqs = graph.requirers_of(id.as_str());
    let ghost all = requirers(graph.edges@, id@);
    proof {
        assert(reqs@.len() == all.len());
    }
    if reqs.len() == 0 {
        return None;
    }
    let mut said: Vec<String> = Vec::new();
    let ghost want = reasons(graph.edges@, id@);
    let mut i: usize = 0;
    proof {
        assert(texts(said@) =~= want.take(0));
    }
    while i < reqs.len()
        invariant
            i <= reqs@.len(),
            reqs@.unref() == all,
            want == all.map_values(|r: Requirer| need_text(need(r))),
            texts(said@) == want.take(i as int),
        decreases reqs.len() - i,
    {
        let ghost was = said@;
        proof {
            assert(reqs@.unref()[i as int] == *reqs@[i as int]);
        }
        said.push(need_said(reqs[i]));
        proof {
            assert(texts(said@) =~= texts(was).push(want[i as int]));
            assert(want.take(i + 1) =~= want.take(i as int).push(want[i as int]));
        }
        i += 1;
    }
    proof {
        assert(want.take(i as int) =~= want);
    }
    Some(Refusal { id: id.clone(), reason: join(&said, "; ") })
}

proof fn lemma_unique_take(files: Seq<Artifact>, i: int)
    requires
        0 <= i < files.len(),
    ensures
        unique_bytes(files.take(i + 1)) == unique_bytes(files.take(i)) + frees(files, i),
        keys_of(files.take(i + 1)) == match files[i].key {
            Some(k) => if keys_of(files.take(i)).contains(k) {
                keys_of(files.take(i))
            } else {
                keys_of(files.take(i)).push(k)
            },
            None => keys_of(files.take(i)),
        },
{
    assert(files.take(i + 1).drop_last() =~= files.take(i));
}

proof fn lemma_unique_below(files: Seq<Artifact>, i: int)
    requires
        0 <= i <= files.len(),
    ensures
        unique_bytes(files.take(i)) <= unique_bytes(files),
    decreases files.len() - i,
{
    if i < files.len() {
        lemma_unique_below(files, i + 1);
        lemma_unique_take(files, i);
    } else {
        assert(files.take(i) =~= files);
    }
}

/// The plan to remove artifacts.
pub fn build_plan(artifacts: Vec<Artifact>, graph: &Graph) -> (r: RemovalPlan)
    requires
        removal_of(artifacts@, graph.edges@).reclaims <= u64::MAX,
    ensures
        removal(r) == removal_of(artifacts@, graph.edges@),
{
    let ghost edges = graph.edges@;
    let ghost p = |a: Artifact| required(edges, a);
    let ghost f = |a: Artifact| (a.id, joined(reasons(edges, a.id@), "; "@));
    let mut refusals: Vec<Refusal> = Vec::new();
    let mut i: usize = 0;
    proof {
        assert(artifacts@.take(0).filter(p).map_values(f) =~= Seq::empty());
        assert(refused(refusals@) =~= Seq::empty());
    }
    while i < artifacts.len()
        invariant
            i <= artifacts@.len(),
            edges == graph.edges@,
            p == (|a: Artifact| required(edges, a)),
            f == (|a: Artifact| (a.id, joined(reasons(edges, a.id@), "; "@))),
            refused(refusals@) == artifacts@.take(i as int).filter(p).map_values(f),
        decreases artifacts.len() - i,
    {
        proof {
            lemma_filter_take(artifacts@, p, i as int);
        }
        let ghost was = refusals@;
        if let Some(x) = refusal_for(&artifacts[i].id, graph) {
            refusals.push(x);
            proof {
                assert(refused(refusals@) =~= refused(was).push((x.id, x.reason@)));
            }
        }
        proof {
            assert(refused(refusals@) =~= artifacts@.take(i + 1).filter(p).map_values(f));
        }
        i += 1;
    }
    proof {
        assert(artifacts@.take(i as int) =~= artifacts@);
        assert(refused(refusals@) == refusals_of(artifacts@, edges));
        assert(refused(refusals@).len() == refusals@.len());
    }
    if refusals.len() > 0 {
        let r = RemovalPlan { steps: Vec::new(), reclaims_bytes: 0, refusals };
        proof {
            assert(removal(r) =~= removal_of(artifacts@, edges));
        }
        return r;
    }
    let ghost links = links_of(artifacts@);
    let ghost files = files_of(artifacts@);
    let ghost link = |a: Artifact| a.is_link;
    let ghost file = |a: Artifact| !a.is_link;
    let mut steps: Vec<RemovalStep> = Vec::new();
    let mut k: usize = 0;
    proof {
        assert(artifacts@.take(0).filter(link).map_values(|a: Artifact| step_of(a, 0))
            =~= Seq::empty());
    }
    while k < artifacts.len()
        invariant
            k <= artifacts@.len(),
            link == (|a: Artifact| a.is_link),
            steps@ == artifacts@.take(k as int).filter(link).map_values(
                |a: Artifact| step_of(a, 0),
            ),
        decreases artifacts.len() - k,
    {
        proof {
            lemma_filter_take(artifacts@, link, k as int);
        }
        let a = &artifacts[k];
        if a.is_link {
            steps.push(
                RemovalStep {
                    id: a.id.clone(),
                    path: a.path.clone(),
                    is_link: true,
                    frees_bytes: 0,
                },
            );
        }
        proof {
            assert(steps@ =~= artifacts@.take(k + 1).filter(link).map_values(
                |a: Artifact| step_of(a, 0),
            ));
        }
        k += 1;
    }
    proof {
        assert(artifacts@.take(k as int) =~= artifacts@);
    }
    let ghost ahead = steps@;
    let mut counted: Vec<FileKey> = Vec::new();
    let mut reclaims: u64 = 0;
    let ghost tail = Seq::new(files.len(), |i: int| step_of(files[i], frees(files, i)));
    let mut n: usize = 0;
    let ghost mut done: int = 0;
    proof {
        assert(artifacts@.take(0).filter(file) =~= Seq::empty());
        assert(ahead + tail.take(0) =~= ahead);
    }
    while n < artifacts.len()
        invariant
            n <= artifacts@.len(),
            file == (|a: Artifact| !a.is_link),
            files == artifacts@.filter(file),
            unique_bytes(files) <= u64::MAX,
            tail == Seq::new(files.len(), |i: int| step_of(files[i], frees(files, i))),
            0 <= done <= files.len(),
            artifacts@.take(n as int).filter(file) == files.take(done),
            counted@ == keys_of(files.take(done)),
            reclaims == unique_bytes(files.take(done)),
            steps@ == ahead + tail.take(done),
        decreases artifacts.len() - n,
    {
        proof {
            lemma_filter_take(artifacts@, file, n as int);
        }
        let a = &artifacts[n];
        if !a.is_link {
            proof {
                lemma_filter_prefix(artifacts@, file, n + 1);
                assert(files.take(done).push(*a) =~= files.take(done + 1));
                lemma_unique_take(files, done);
                lemma_unique_below(files, done + 1);
            }
            let mut freed: u64 = 0;
            if let Some(key) = a.key {
                if !has_key(&counted, key) {
                    counted.push(key);
                    freed = a.bytes;
                }
            }
            reclaims = reclaims + freed;
            steps.push(
                RemovalStep {
                    id: a.id.clone(),
                    path: a.path.clone(),
                    is_link: false,
                    frees_bytes: freed,
                },
            );
            proof {
                assert(tail.take(done + 1) =~= tail.take(done).push(tail[done]));
                assert(steps@ =~= ahead + tail.take(done + 1));
                done = done + 1;
            }
        }
        n += 1;
    }
    proof {
        assert(artifacts@.take(n as int) =~= artifacts@);
        assert(files.take(done) == files);
        assert(tail.take(done) =~= tail);
    }
    let r = RemovalPlan { steps, reclaims_bytes: reclaims, refusals: Vec::new() };
    proof {
        assert(refused(r.refusals@) =~= Seq::empty());
        assert(removal(r) =~= removal_of(artifacts@, edges));
    }
    r
}

/// What a filter keeps of a front is a front of what it keeps.
proof fn lemma_filter_prefix<T>(s: Seq<T>, p: spec_fn(T) -> bool, i: int)
    requires
        0 <= i <= s.len(),
    ensures
        s.take(i).filter(p).len() <= s.filter(p).len(),
        s.take(i).filter(p) == s.filter(p).take(s.take(i).filter(p).len() as int),
    decreases s.len() - i,
{
    if i < s.len() {
        lemma_filter_prefix(s, p, i + 1);
        lemma_filter_take(s, p, i);
        assert(s.take(i).filter(p) =~= s.filter(p).take(s.take(i).filter(p).len() as int));
    } else {
        assert(s.take(i) =~= s);
        assert(s.filter(p).take(s.filter(p).len() as int) =~= s.filter(p));
    }
}

/// Nothing that is required is ever part of a plan: a plan with steps is a
/// plan of artifacts that nothing requires.
pub proof fn a_refusal_poisons_the_whole_plan(artifacts: Seq<Artifact>, edges: Seq<Edge>, i: int)
    requires
        0 <= i < artifacts.len(),
        required(edges, artifacts[i]),
    ensures
        removal_of(artifacts, edges).steps.len() == 0,
        removal_of(artifacts, edges).reclaims == 0,
        removal_of(artifacts, edges).refusals.len() > 0,
{
    let p = |a: Artifact| required(edges, a);
    crate::seqs::lemma_filter_members(artifacts, p);
    assert(artifacts.contains(artifacts[i]));
    assert(p(artifacts[i]));
    assert(artifacts.filter(p).contains(artifacts[i]));
}

/// Aliases go before the files they lead to, and free nothing; the steps free
/// together what the plan says it reclaims, which counts each allocation once.
pub proof fn links_go_first_and_free_nothing(artifacts: Seq<Artifact>)
    ensures
        forall|i: int, j: int|
            #![trigger steps_of(artifacts)[i], steps_of(artifacts)[j]]
            0 <= i < j < steps_of(artifacts).len() && steps_of(artifacts)[j].is_link
                ==> steps_of(artifacts)[i].is_link,
        forall|i: int|
            0 <= i < steps_of(artifacts).len() && (#[trigger] steps_of(artifacts)[i]).is_link
                ==> steps_of(artifacts)[i].frees_bytes == 0,
        total(steps_of(artifacts), |s: RemovalStep| s.frees_bytes as nat) == unique_bytes(
            files_of(artifacts),
        ),
{
    let links = links_of(artifacts);
    let files = files_of(artifacts);
    let steps = steps_of(artifacts);
    let f = |s: RemovalStep| s.frees_bytes as nat;
    crate::seqs::lemma_filter_members(artifacts, |a: Artifact| a.is_link);
    crate::seqs::lemma_filter_members(artifacts, |a: Artifact| !a.is_link);
    assert forall|i: int| 0 <= i < links.len() implies (#[trigger] steps[i]).is_link
        && steps[i].frees_bytes == 0 by {
        assert(steps[i] == step_of(links[i], 0));
    }
    assert forall|i: int| links.len() <= i < steps.len() implies !(#[trigger] steps[i]).is_link by {
        assert(steps[i] == step_of(files[i - links.len()], frees(files, i - links.len())));
    }
    lemma_links_total(steps, links.len() as int);
    lemma_files_total(artifacts, files.len() as int);
    assert(steps.take((links.len() + files.len()) as int) =~= steps);
    assert(files.take(files.len() as int) =~= files);
}

proof fn lemma_links_total(steps: Seq<RemovalStep>, n: int)
    requires
        0 <= n <= steps.len(),
        forall|i: int| 0 <= i < n ==> (#[trigger] steps[i]).frees_bytes == 0,
    ensures
        total(steps.take(n), |s: RemovalStep| s.frees_bytes as nat) == 0,
    decreases n,
{
    if n > 0 {
        lemma_links_total(steps, n - 1);
        assert(steps.take(n).drop_last() =~= steps.take(n - 1));
        assert(steps[n - 1].frees_bytes == 0);
    }
}

proof fn lemma_files_total(artifacts: Seq<Artifact>, n: int)
    requires
        0 <= n <= files_of(artifacts).len(),
    ensures
        total(
            steps_of(artifacts).take(links_of(artifacts).len() + n),
            |s: RemovalStep| s.frees_bytes as nat,
        ) == unique_bytes(files_of(artifacts).take(n)),
    decreases n,
{
    let links = links_of(artifacts);
    let files = files_of(artifacts);
    let steps = steps_of(artifacts);
    let at = links.len() + n;
    if n > 0 {
        lemma_files_total(artifacts, n - 1);
        lemma_unique_take(files, n - 1);
        assert(steps.take(at).drop_last() =~= steps.take(at - 1));
        assert(steps[at - 1] == step_of(files[n - 1], frees(files, n - 1)));
    } else {
        assert forall|i: int| 0 <= i < at implies (#[trigger] steps[i]).frees_bytes == 0 by {
            assert(steps[i] == step_of(links[i], 0));
        }
        lemma_links_total(steps, at);
        assert(files.take(0) =~= Seq::empty());
    }
}

/// Every step is about one of the artifacts to remove.
pub(crate) proof fn lemma_step_source(artifacts: Seq<Artifact>, k: int) -> (i: int)
    requires
        0 <= k < steps_of(artifacts).len(),
    ensures
        0 <= i < artifacts.len(),
        steps_of(artifacts)[k].id == artifacts[i].id,
{
    let links = links_of(artifacts);
    let files = files_of(artifacts);
    crate::seqs::lemma_filter_members(artifacts, |a: Artifact| a.is_link);
    crate::seqs::lemma_filter_members(artifacts, |a: Artifact| !a.is_link);
    if k < links.len() {
        assert(steps_of(artifacts)[k] == step_of(links[k], 0));
        assert(links.contains(links[k]));
        artifacts.index_of(links[k])
    } else {
        let f = k - links.len();
        assert(steps_of(artifacts)[k] == step_of(files[f], frees(files, f)));
        assert(files.contains(files[f]));
        artifacts.index_of(files[f])
    }
}

} // verus!
