//! What an inventory, a removal and a clean promise, in terms of what is on
//! disk and of what the plans hold.
use vstd::prelude::*;

use crate::inventory::artifact::{Artifact, ArtifactId, Format, Store};
use crate::inventory::clean::{
    dangling, executable, going, has_artifact, is_refused, peers_of, reaches_any, reclaimed,
    refused_shares, share, share_of, shares, spared, stands, succession, whole, CleanPlan,
    ModelClean, Share,
};
use crate::inventory::graph::{
    aliases, holds, keys_of, lemma_keys_of, mark_in, marks, need, reaches, requirer_in, requirers,
    Edge, Mark, Need, Requirer,
};
use crate::inventory::identity::{canonical, known_as, Family};
use crate::inventory::plan::{
    files_of, frees, links_of, refusals_of, refused, removal, removal_of, required, step_of,
    steps_of, RemovalPlan,
};
use crate::inventory::safety::{classified, only_a_source_rebuilds, Risk};
use crate::inventory::scan::vllm::RegistryEntry;
use crate::inventory::{
    answers, artifact_at, beside, dependents, direct, entry_marks, has_id, heaviest, kindred,
    lemma_deduped, meet, names_artifact, registry_marks, router_up, scanned_marks, served_list,
    served_marks, served_rows, the_heaviest_outweighs_the_rest, weights_behind, weights_in,
};
use crate::ledger::ProviderRow;
use crate::paths::{directory, lies_under};
use crate::provider::{LoadedModel, ProviderKind, State};
use crate::seqs::{
    first_index, lemma_filter_map_members, lemma_filter_members, lemma_filter_places,
    lemma_first_index, lemma_stable_sort, lemma_stable_sort_contains, stable_sort, total,
    total_preorder,
};
use crate::text::{text_le, texts};

verus! {

/// Whether an edge says that an artifact is required.
pub open spec fn requires_it(e: Edge, id: Seq<char>) -> bool {
    e is RequiredBy && e->RequiredBy_artifact@ == id
}

/// Something requires an artifact exactly when an edge says so.
proof fn lemma_required(edges: Seq<Edge>, a: Artifact)
    ensures
        required(edges, a) <==> exists|e: int|
            0 <= e < edges.len() && requires_it(#[trigger] edges[e], a.id@),
{
    let id = a.id@;
    let f = |e: Edge| requirer_in(e, id);
    lemma_filter_map_members(edges, f);
    let all = requirers(edges, id);
    if all.len() > 0 {
        let e = choose|e: int| 0 <= e < edges.len() && f(#[trigger] edges[e]) == Some(all[0]);
        assert(requires_it(edges[e], id));
    }
    if exists|e: int| 0 <= e < edges.len() && requires_it(#[trigger] edges[e], id) {
        let e = choose|e: int| 0 <= e < edges.len() && requires_it(#[trigger] edges[e], id);
        assert(f(edges[e]) is Some);
        assert(all.contains(f(edges[e])->0));
    }
}

/// A removal is refused exactly when something requires any of what is to go,
/// and then whole: it has no step and frees nothing, and it names every artifact
/// that is required and no other.
#[verifier::rlimit(40)]
pub proof fn one_required_artifact_refuses_the_removal(
    artifacts: Seq<Artifact>,
    edges: Seq<Edge>,
    p: RemovalPlan,
)
    requires
        removal(p) == removal_of(artifacts, edges),
    ensures
        p.refusals@.len() > 0 <==> exists|i: int, e: int|
            0 <= i < artifacts.len() && 0 <= e < edges.len() && requires_it(
                #[trigger] edges[e],
                (#[trigger] artifacts[i]).id@,
            ),
        p.refusals@.len() > 0 ==> p.steps@.len() == 0 && p.reclaims_bytes == 0,
        forall|i: int, e: int|
            0 <= i < artifacts.len() && 0 <= e < edges.len() && requires_it(
                #[trigger] edges[e],
                (#[trigger] artifacts[i]).id@,
            ) ==> exists|k: int|
                0 <= k < p.refusals@.len() && (#[trigger] p.refusals@[k]).id == artifacts[i].id,
        forall|k: int|
            0 <= k < p.refusals@.len() ==> exists|i: int, e: int|
                0 <= i < artifacts.len() && 0 <= e < edges.len() && requires_it(
                    #[trigger] edges[e],
                    (#[trigger] artifacts[i]).id@,
                ) && (#[trigger] p.refusals@[k]).id == artifacts[i].id,
        p.refusals@.len() == 0 ==> p.steps@.len() == artifacts.len(),
{
    let q = |a: Artifact| required(edges, a);
    let kept = artifacts.filter(q);
    let all = refusals_of(artifacts, edges);
    let at = lemma_filter_places(artifacts, q);
    assert(refused(p.refusals@).len() == p.refusals@.len());
    assert(refused(p.refusals@) =~= all);
    assert forall|k: int| 0 <= k < p.refusals@.len() implies p.refusals@[k].id
        == #[trigger] kept[k].id by {
        assert(refused(p.refusals@)[k] == (p.refusals@[k].id, p.refusals@[k].reason@));
        assert(all[k].0 == kept[k].id);
    }
    assert forall|i: int, e: int|
        0 <= i < artifacts.len() && 0 <= e < edges.len() && requires_it(
            #[trigger] edges[e],
            (#[trigger] artifacts[i]).id@,
        ) implies exists|k: int|
        0 <= k < p.refusals@.len() && (#[trigger] p.refusals@[k]).id == artifacts[i].id by {
        lemma_required(edges, artifacts[i]);
        assert(q(artifacts[i]));
        assert(at.contains(i));
        let k = at.index_of(i);
        assert(kept[k] == artifacts[i]);
        assert(p.refusals@[k].id == kept[k].id);
    }
    assert forall|k: int| 0 <= k < p.refusals@.len() implies exists|i: int, e: int|
        0 <= i < artifacts.len() && 0 <= e < edges.len() && requires_it(
            #[trigger] edges[e],
            (#[trigger] artifacts[i]).id@,
        ) && (#[trigger] p.refusals@[k]).id == artifacts[i].id by {
        let i = at[k];
        lemma_required(edges, artifacts[i]);
        let e = choose|e: int|
            0 <= e < edges.len() && requires_it(#[trigger] edges[e], artifacts[i].id@);
        assert(p.refusals@[k].id == kept[k].id);
    }
    if p.refusals@.len() > 0 {
        let i = at[0];
        lemma_required(edges, artifacts[i]);
        let e = choose|e: int|
            0 <= e < edges.len() && requires_it(#[trigger] edges[e], artifacts[i].id@);
        assert(requires_it(edges[e], artifacts[i].id@));
    } else {
        lemma_split(artifacts);
    }
}

/// Links and files are everything.
proof fn lemma_split(artifacts: Seq<Artifact>)
    ensures
        links_of(artifacts).len() + files_of(artifacts).len() == artifacts.len(),
    decreases artifacts.len(),
{
    let l = |a: Artifact| a.is_link;
    let f = |a: Artifact| !a.is_link;
    if artifacts.len() == 0 {
        lemma_filter_members(artifacts, l);
        lemma_filter_members(artifacts, f);
    } else {
        let n = artifacts.len() - 1;
        lemma_split(artifacts.take(n));
        crate::seqs::lemma_filter_take(artifacts, l, n);
        crate::seqs::lemma_filter_take(artifacts, f, n);
        assert(artifacts.take(n + 1) =~= artifacts);
    }
}

/// A removal that is not refused takes every artifact once: its id, its path and
/// whether it is a link, the links before the files and otherwise in order. A
/// link frees nothing, nor does a file whose allocation is unknown or was freed
/// before; any other file frees its bytes.
#[verifier::rlimit(40)]
pub proof fn every_artifact_goes_once_and_links_go_first(artifacts: Seq<Artifact>) -> (at: Seq<int>)
    ensures
        at.len() == steps_of(artifacts).len(),
        at.len() == artifacts.len(),
        at.no_duplicates(),
        forall|k: int|
            0 <= k < at.len() ==> {
                &&& 0 <= #[trigger] at[k] < artifacts.len()
                &&& steps_of(artifacts)[k].id == artifacts[at[k]].id
                &&& steps_of(artifacts)[k].path == artifacts[at[k]].path
                &&& steps_of(artifacts)[k].is_link == artifacts[at[k]].is_link
                &&& artifacts[at[k]].is_link || artifacts[at[k]].key is None ==> steps_of(
                    artifacts,
                )[k].frees_bytes == 0
                &&& !artifacts[at[k]].is_link && artifacts[at[k]].key is Some ==> steps_of(
                    artifacts,
                )[k].frees_bytes == if exists|i: int|
                    0 <= i < at[k] && !(#[trigger] artifacts[i]).is_link && artifacts[i].key
                        == artifacts[at[k]].key {
                    0
                } else {
                    artifacts[at[k]].bytes
                }
            },
        forall|j: int, k: int|
            0 <= j < k < at.len() ==> artifacts[#[trigger] at[j]].is_link && !artifacts[#[trigger] at[k]].is_link
                || (artifacts[at[j]].is_link == artifacts[at[k]].is_link && at[j] < at[k]),
{
    let l = |a: Artifact| a.is_link;
    let f = |a: Artifact| !a.is_link;
    let links = links_of(artifacts);
    let files = files_of(artifacts);
    let to_links = lemma_filter_places(artifacts, l);
    let to_files = lemma_filter_places(artifacts, f);
    let steps = steps_of(artifacts);
    let at = to_links + to_files;
    lemma_split(artifacts);
    assert forall|k: int| 0 <= k < at.len() implies {
        &&& 0 <= #[trigger] at[k] < artifacts.len()
        &&& steps[k].id == artifacts[at[k]].id
        &&& steps[k].path == artifacts[at[k]].path
        &&& steps[k].is_link == artifacts[at[k]].is_link
        &&& artifacts[at[k]].is_link || artifacts[at[k]].key is None ==> steps[k].frees_bytes == 0
        &&& !artifacts[at[k]].is_link && artifacts[at[k]].key is Some ==> steps[k].frees_bytes
            == if exists|i: int|
            0 <= i < at[k] && !(#[trigger] artifacts[i]).is_link && artifacts[i].key
                == artifacts[at[k]].key {
            0
        } else {
            artifacts[at[k]].bytes
        }
    } by {
        if k < links.len() {
            assert(at[k] == to_links[k]);
            assert(l(artifacts[to_links[k]]));
            assert(steps[k] == step_of(links[k], 0));
        } else {
            let m = k - links.len();
            assert(at[k] == to_files[m]);
            assert(f(artifacts[to_files[m]]));
            assert(steps[k] == step_of(files[m], frees(files, m)));
            let before = files.take(m);
            lemma_keys_of(before);
            if files[m].key is Some {
                let key = files[m].key->0;
                if keys_of(before).contains(key) {
                    let j = choose|j: int|
                        0 <= j < before.len() && #[trigger] reaches(before[j], key);
                    let i = to_files[j];
                    assert(before[j] == files[j]);
                    assert(artifacts[i] == files[j]);
                    assert(to_files[j] < to_files[m]);
                    assert(f(artifacts[i]));
                    assert(!artifacts[i].is_link && artifacts[i].key == artifacts[at[k]].key);
                }
                if exists|i: int|
                    0 <= i < at[k] && !(#[trigger] artifacts[i]).is_link && artifacts[i].key
                        == artifacts[at[k]].key {
                    let i = choose|i: int|
                        0 <= i < at[k] && !(#[trigger] artifacts[i]).is_link && artifacts[i].key
                            == artifacts[at[k]].key;
                    assert(f(artifacts[i]));
                    assert(to_files.contains(i));
                    let j = to_files.index_of(i);
                    assert(j < m) by {
                        if m < j {
                            assert(to_files[m] < to_files[j]);
                        }
                    }
                    assert(before[j] == files[j]);
                    assert(before[j].key == Some(key));
                    assert(keys_of(before).contains(key));
                }
            }
        }
    }
    assert forall|j: int, k: int| 0 <= j < k < at.len() implies artifacts[#[trigger] at[j]].is_link
        && !artifacts[#[trigger] at[k]].is_link || (artifacts[at[j]].is_link
        == artifacts[at[k]].is_link && at[j] < at[k]) by {
        let n = to_links.len() as int;
        if j < n {
            assert(at[j] == to_links[j]);
            assert(l(artifacts[to_links[j]]));
        } else {
            assert(at[j] == to_files[j - n]);
            assert(f(artifacts[to_files[j - n]]));
        }
        if k < n {
            assert(at[k] == to_links[k]);
            assert(l(artifacts[to_links[k]]));
            assert(to_links[j] < to_links[k]);
        } else {
            assert(at[k] == to_files[k - n]);
            assert(f(artifacts[to_files[k - n]]));
            if j >= n {
                assert(to_files[j - n] < to_files[k - n]);
            }
        }
    }
    assert forall|j: int, k: int| 0 <= j < at.len() && 0 <= k < at.len() && j != k implies at[j]
        != at[k] by {
        if j < k {
            assert(artifacts[at[j]].is_link && !artifacts[at[k]].is_link || at[j] < at[k]);
        } else {
            assert(artifacts[at[k]].is_link && !artifacts[at[j]].is_link || at[k] < at[j]);
        }
    }
    at
}

/// Whether a build of a list has more bits than another of its own format, GGUF
/// or MLX.
pub open spec fn bettered(a: Artifact, peers: Seq<Artifact>) -> bool {
    &&& a.format == Format::Gguf || a.format == Format::Mlx
    &&& a.bits is Some
    &&& exists|i: int|
        0 <= i < peers.len() && (#[trigger] peers[i]).id@ != a.id@ && peers[i].format == a.format
            && peers[i].bits is Some && peers[i].bits->0 > a.bits->0
}

/// Whether the bytes of a build are also those of one that says its bits and
/// that nothing betters.
pub open spec fn holds_the_best(
    groups: Seq<Seq<ArtifactId>>,
    a: Artifact,
    peers: Seq<Artifact>,
) -> bool {
    exists|i: int|
        0 <= i < peers.len() && (#[trigger] peers[i]).bits is Some && !bettered(peers[i], peers) && (
        peers[i].id@ == a.id@ || holds(aliases(groups, a.id@), peers[i].id@))
}

proof fn lemma_bettered(a: Artifact, peers: Seq<Artifact>)
    ensures
        classified(a, peers) is Redundant <==> bettered(a, peers),
{
    only_a_source_rebuilds(a, peers);
}

proof fn lemma_succession(groups: Seq<Seq<ArtifactId>>, a: Artifact, peers: Seq<Artifact>)
    ensures
        succession(groups, a, peers) is Some <==> bettered(a, peers) && !holds_the_best(
            groups,
            a,
            peers,
        ),
{
    lemma_bettered(a, peers);
    assert forall|i: int| 0 <= i < peers.len() implies (stands(#[trigger] peers[i], peers) <==> (
    peers[i].bits is Some && !bettered(peers[i], peers))) by {
        lemma_bettered(peers[i], peers);
    }
    if spared(groups, a, peers) {
        let i = choose|i: int|
            0 <= i < peers.len() && stands(#[trigger] peers[i], peers) && (peers[i].id@ == a.id@
                || holds(aliases(groups, a.id@), peers[i].id@));
        assert(peers[i].bits is Some && !bettered(peers[i], peers));
    }
    if holds_the_best(groups, a, peers) {
        let i = choose|i: int|
            0 <= i < peers.len() && (#[trigger] peers[i]).bits is Some && !bettered(
                peers[i],
                peers,
            ) && (peers[i].id@ == a.id@ || holds(aliases(groups, a.id@), peers[i].id@));
        assert(stands(peers[i], peers));
    }
}

/// A build of a model is superseded exactly when one of the same format among
/// the model's builds has more bits and its bytes are not also the best there
/// is; what supersedes it is what makes it redundant. A model with nothing to
/// supersede has no share in a clean.
pub proof fn a_clean_supersedes_what_is_bettered(
    artifacts: Seq<Artifact>,
    groups: Seq<Seq<ArtifactId>>,
    edges: Seq<Edge>,
    m: Family,
    i: int,
)
    requires
        0 <= i < peers_of(artifacts, m.ids).len(),
    ensures
        ({
            let peers = peers_of(artifacts, m.ids);
            let s = share_of(artifacts, groups, edges, m);
            let goes = bettered(peers[i], peers) && !holds_the_best(groups, peers[i], peers);
            &&& goes ==> s is Some
            &&& goes ==> exists|k: int|
                0 <= k < s->0.superseded.len() && (#[trigger] s->0.superseded[k]).0 == peers[i].id
                    && classified(peers[i], peers) == (Risk::Redundant {
                    better: s->0.superseded[k].1,
                })
            &&& s is Some ==> s->0.model == m.canonical
            &&& s is Some ==> exists|j: int|
                0 <= j < peers.len() && bettered(#[trigger] peers[j], peers) && !holds_the_best(
                    groups,
                    peers[j],
                    peers,
                )
        }),
{
    let peers = peers_of(artifacts, m.ids);
    let f = |a: Artifact| succession(groups, a, peers);
    let gone = |a: Artifact| succession(groups, a, peers) is Some;
    let s = share_of(artifacts, groups, edges, m);
    lemma_filter_map_members(peers, f);
    lemma_filter_members(peers, gone);
    lemma_succession(groups, peers[i], peers);
    if f(peers[i]) is Some {
        assert(peers.contains(peers[i]) && gone(peers[i]));
        assert(going(groups, peers).contains(peers[i]));
        assert(s is Some);
        let all = s->0.superseded;
        assert(all.contains(f(peers[i])->0));
        let k = all.index_of(f(peers[i])->0);
        assert(all[k].0 == peers[i].id);
    }
    if s is Some {
        let a = going(groups, peers)[0];
        assert(going(groups, peers).contains(a));
        assert(peers.contains(a) && gone(a));
        let j = peers.index_of(a);
        lemma_succession(groups, peers[j], peers);
    }
}

/// What a model's share takes away are the builds of it that are superseded and
/// the other paths to their bytes among its builds, and nothing else; and the
/// plan is that of removing just those.
#[verifier::rlimit(40)]
pub proof fn a_clean_takes_what_is_superseded_and_its_aliases(
    artifacts: Seq<Artifact>,
    groups: Seq<Seq<ArtifactId>>,
    edges: Seq<Edge>,
    m: Family,
    i: int,
)
    requires
        0 <= i < peers_of(artifacts, m.ids).len(),
        share_of(artifacts, groups, edges, m) is Some,
    ensures
        ({
            let peers = peers_of(artifacts, m.ids);
            let gone = whole(groups, peers);
            &&& share_of(artifacts, groups, edges, m)->0.plan == removal_of(gone, edges)
            &&& (exists|k: int| 0 <= k < gone.len() && (#[trigger] gone[k]).id@ == peers[i].id@)
                <==> exists|j: int|
                0 <= j < peers.len() && bettered(#[trigger] peers[j], peers) && !holds_the_best(
                    groups,
                    peers[j],
                    peers,
                ) && (peers[j].id@ == peers[i].id@ || holds(
                    aliases(groups, peers[j].id@),
                    peers[i].id@,
                ))
            &&& forall|k: int| 0 <= k < gone.len() ==> peers.contains(#[trigger] gone[k])
        }),
{
    let peers = peers_of(artifacts, m.ids);
    let gone = whole(groups, peers);
    let goes = going(groups, peers);
    let p = |a: Artifact| succession(groups, a, peers) is Some;
    let q = |a: Artifact| dangling(groups, goes, a);
    lemma_filter_members(peers, p);
    lemma_filter_members(peers, q);
    let rest = peers.filter(q);
    let id = peers[i].id@;
    assert forall|k: int| 0 <= k < gone.len() implies peers.contains(#[trigger] gone[k]) by {
        if k < goes.len() {
            assert(gone[k] == goes[k]);
            assert(goes.contains(goes[k]));
        } else {
            assert(gone[k] == rest[k - goes.len()]);
            assert(rest.contains(gone[k]));
        }
    }
    if exists|k: int| 0 <= k < gone.len() && (#[trigger] gone[k]).id@ == id {
        let k = choose|k: int| 0 <= k < gone.len() && (#[trigger] gone[k]).id@ == id;
        if k < goes.len() {
            assert(goes.contains(goes[k]));
            assert(p(goes[k]) && peers.contains(goes[k]));
            let j = peers.index_of(goes[k]);
            lemma_succession(groups, peers[j], peers);
            assert(peers[j].id@ == id);
        } else {
            let x = rest[k - goes.len()];
            assert(rest.contains(x));
            assert(q(x));
            let g = choose|g: int|
                0 <= g < goes.len() && holds(aliases(groups, (#[trigger] goes[g]).id@), x.id@);
            assert(goes.contains(goes[g]));
            assert(p(goes[g]) && peers.contains(goes[g]));
            let j = peers.index_of(goes[g]);
            lemma_succession(groups, peers[j], peers);
        }
    }
    if exists|j: int|
        0 <= j < peers.len() && bettered(#[trigger] peers[j], peers) && !holds_the_best(
            groups,
            peers[j],
            peers,
        ) && (peers[j].id@ == id || holds(aliases(groups, peers[j].id@), id)) {
        let j = choose|j: int|
            0 <= j < peers.len() && bettered(#[trigger] peers[j], peers) && !holds_the_best(
                groups,
                peers[j],
                peers,
            ) && (peers[j].id@ == id || holds(aliases(groups, peers[j].id@), id));
        lemma_succession(groups, peers[j], peers);
        assert(peers.contains(peers[j]) && p(peers[j]));
        assert(goes.contains(peers[j]));
        let g = goes.index_of(peers[j]);
        assert(gone[g] == peers[j]);
        if peers[j].id@ != id {
            if has_artifact(goes, id) {
                let h = choose|h: int| 0 <= h < goes.len() && (#[trigger] goes[h]).id@ == id;
                assert(gone[h].id@ == id);
            } else {
                assert(holds(aliases(groups, goes[g].id@), id));
                assert(reaches_any(groups, goes, id));
                assert(peers.contains(peers[i]) && q(peers[i]));
                assert(rest.contains(peers[i]));
                let r = rest.index_of(peers[i]);
                assert(gone[goes.len() + r] == peers[i]);
            }
        }
    }
}

/// The weights behind an artifact are the artifact itself, where it holds
/// weights; otherwise a file of its own directory that holds weights and than
/// which none there is larger. Without such a file, or without the artifact,
/// there are none.
pub proof fn the_weights_are_the_largest_beside_it(artifacts: Seq<Artifact>, id: Seq<char>, i: int)
    requires
        0 <= i < artifacts.len(),
        artifacts[i].id@ == id,
        forall|j: int| 0 <= j < i ==> (#[trigger] artifacts[j]).id@ != id,
    ensures
        artifacts[i].format != Format::Other ==> weights_behind(artifacts, id) == Some(artifacts[i]),
        artifacts[i].format == Format::Other ==> match weights_behind(artifacts, id) {
            Some(w) => {
                &&& artifacts.contains(w)
                &&& w.format != Format::Other
                &&& directory(w.path@) is Some
                &&& directory(w.path@) == directory(artifacts[i].path@)
                &&& forall|j: int|
                    0 <= j < artifacts.len() && (#[trigger] artifacts[j]).format != Format::Other
                        && directory(artifacts[j].path@) == directory(artifacts[i].path@)
                        ==> artifacts[j].bytes <= w.bytes
            },
            None => forall|j: int|
                0 <= j < artifacts.len() && (#[trigger] artifacts[j]).format != Format::Other
                    && directory(artifacts[i].path@) is Some ==> directory(artifacts[j].path@)
                    != directory(artifacts[i].path@),
        },
{
    let p = |a: Artifact| has_id(a, id);
    lemma_first_index(artifacts, p);
    let f = first_index(artifacts, p);
    assert(p(artifacts[i]));
    assert(artifacts.any(p));
    assert(f == i) by {
        if f < i {
            assert(p(artifacts[f]));
            assert(artifacts[f].id@ != id);
        }
    }
    let given = artifacts[i];
    assert(artifact_at(artifacts, id) == Some(given));
    if given.format == Format::Other && directory(given.path@) is Some {
        let dir = directory(given.path@)->0;
        let q = |a: Artifact| weights_in(a, dir);
        let s = artifacts.filter(q);
        lemma_filter_members(artifacts, q);
        the_heaviest_outweighs_the_rest(s);
        assert(weights_behind(artifacts, id) == heaviest(s));
        assert forall|j: int| 0 <= j < artifacts.len() && (#[trigger] artifacts[j]).format
            != Format::Other && directory(artifacts[j].path@) == Some(dir) implies s.contains(
            artifacts[j],
        ) by {
            assert(artifacts.contains(artifacts[j]) && q(artifacts[j]));
        }
        if let Some(w) = heaviest(s) {
            assert(q(w) && artifacts.contains(w));
            assert forall|j: int| 0 <= j < artifacts.len() && (#[trigger] artifacts[j]).format
                != Format::Other && directory(artifacts[j].path@) == Some(dir) implies artifacts[j].bytes
                <= w.bytes by {
                let k = s.index_of(artifacts[j]);
                assert(s[k].bytes <= w.bytes);
            }
        }
    }
}

/// Whether an id is one of a concatenation.
proof fn lemma_holds_sum(a: Seq<ArtifactId>, b: Seq<ArtifactId>, id: Seq<char>)
    ensures
        holds(a + b, id) <==> holds(a, id) || holds(b, id),
{
    let all = a + b;
    if holds(all, id) {
        let k = choose|k: int| 0 <= k < all.len() && (#[trigger] all[k])@ == id;
        if k < a.len() {
            assert(a[k]@ == id);
        } else {
            assert(b[k - a.len()]@ == id);
        }
    }
    if holds(a, id) {
        let k = choose|k: int| 0 <= k < a.len() && (#[trigger] a[k])@ == id;
        assert(all[k]@ == id);
    }
    if holds(b, id) {
        let k = choose|k: int| 0 <= k < b.len() && (#[trigger] b[k])@ == id;
        assert(all[a.len() + k]@ == id);
    }
}

proof fn lemma_beside_iff(groups: Seq<Seq<ArtifactId>>, ids: Seq<ArtifactId>, id: Seq<char>)
    ensures
        holds(beside(groups, ids), id) <==> exists|i: int|
            0 <= i < ids.len() && holds(aliases(groups, (#[trigger] ids[i])@), id),
    decreases ids.len(),
{
    if ids.len() > 0 {
        let t = ids.drop_last();
        lemma_beside_iff(groups, t, id);
        lemma_holds_sum(beside(groups, t), aliases(groups, ids.last()@), id);
        assert(ids[ids.len() - 1] == ids.last());
        assert forall|i: int| 0 <= i < t.len() implies #[trigger] t[i] == ids[i] by {}
        if exists|i: int| 0 <= i < t.len() && holds(aliases(groups, (#[trigger] t[i])@), id) {
            let i = choose|i: int| 0 <= i < t.len() && holds(aliases(groups, (#[trigger] t[i])@), id);
            assert(holds(aliases(groups, ids[i]@), id));
        }
        if exists|i: int| 0 <= i < ids.len() && holds(aliases(groups, (#[trigger] ids[i])@), id) {
            let i = choose|i: int|
                0 <= i < ids.len() && holds(aliases(groups, (#[trigger] ids[i])@), id);
            if i < t.len() {
                assert(holds(aliases(groups, t[i]@), id));
            }
        }
    }
}

/// Whether a model has both of two ids among its builds.
pub open spec fn has_both(m: Family, a: Seq<char>, b: Seq<char>) -> bool {
    holds(m.ids, a) && holds(m.ids, b)
}

proof fn lemma_meet(a: Seq<ArtifactId>, b: Seq<ArtifactId>)
    ensures
        meet(a, b) <==> exists|i: int| 0 <= i < b.len() && holds(a, (#[trigger] b[i])@),
{
    if meet(a, b) {
        let i = choose|i: int| 0 <= i < a.len() && holds(b, (#[trigger] a[i])@);
        let k = choose|k: int| 0 <= k < b.len() && (#[trigger] b[k])@ == a[i]@;
        assert(holds(a, b[k]@));
    }
    if exists|i: int| 0 <= i < b.len() && holds(a, (#[trigger] b[i])@) {
        let i = choose|i: int| 0 <= i < b.len() && holds(a, (#[trigger] b[i])@);
        let k = choose|k: int| 0 <= k < a.len() && (#[trigger] a[k])@ == b[i]@;
        assert(holds(b, a[k]@));
    }
}

proof fn lemma_kindred_iff(models: Seq<Family>, ids: Seq<ArtifactId>, id: Seq<char>)
    ensures
        holds(kindred(models, ids), id) <==> exists|f: int, i: int|
            0 <= f < models.len() && 0 <= i < ids.len() && #[trigger] has_both(
                models[f],
                ids[i]@,
                id,
            ),
    decreases models.len(),
{
    if models.len() > 0 {
        let t = models.drop_last();
        let last = models.last();
        lemma_kindred_iff(t, ids, id);
        lemma_meet(last.ids, ids);
        lemma_holds_sum(kindred(t, ids), last.ids, id);
        assert(models[models.len() - 1] == last);
        assert forall|f: int| 0 <= f < t.len() implies #[trigger] t[f] == models[f] by {}
        if exists|f: int, i: int|
            0 <= f < t.len() && 0 <= i < ids.len() && #[trigger] has_both(t[f], ids[i]@, id) {
            let (f, i) = choose|f: int, i: int|
                0 <= f < t.len() && 0 <= i < ids.len() && #[trigger] has_both(t[f], ids[i]@, id);
            assert(has_both(models[f], ids[i]@, id));
        }
        if meet(last.ids, ids) && holds(last.ids, id) {
            let i = choose|i: int| 0 <= i < ids.len() && holds(last.ids, (#[trigger] ids[i])@);
            assert(has_both(models[models.len() - 1], ids[i]@, id));
        }
        if exists|f: int, i: int|
            0 <= f < models.len() && 0 <= i < ids.len() && #[trigger] has_both(
                models[f],
                ids[i]@,
                id,
            ) {
            let (f, i) = choose|f: int, i: int|
                0 <= f < models.len() && 0 <= i < ids.len() && #[trigger] has_both(
                    models[f],
                    ids[i]@,
                    id,
                );
            if f < t.len() {
                assert(has_both(t[f], ids[i]@, id));
            } else {
                assert(holds(last.ids, ids[i]@));
            }
        }
    }
}

/// Whether serving a model by its canonical name makes an id a dependency,
/// through an artifact: one that goes by the name and is the id's own, is
/// another path to its bytes or is a build of a model that it is a build of too.
pub open spec fn serves_through(
    a: Artifact,
    groups: Seq<Seq<ArtifactId>>,
    models: Seq<Family>,
    name: Seq<char>,
    id: Seq<char>,
) -> bool {
    &&& canonical(a.name_hint@) == name
    &&& a.id@ == id || holds(aliases(groups, a.id@), id) || exists|f: int|
        0 <= f < models.len() && has_both(#[trigger] models[f], a.id@, id)
}

/// Serving a model makes a dependency of every artifact that goes by its name,
/// of every other path to their bytes and of every build of the models they
/// belong to, and of nothing else.
pub proof fn serving_makes_dependencies_of_just_these(
    artifacts: Seq<Artifact>,
    groups: Seq<Seq<ArtifactId>>,
    models: Seq<Family>,
    name: Seq<char>,
    id: Seq<char>,
)
    ensures
        dependents(artifacts, groups, models, name).contains(id) <==> exists|i: int|
            0 <= i < artifacts.len() && serves_through(
                #[trigger] artifacts[i],
                groups,
                models,
                name,
                id,
            ),
{
    let ids = direct(artifacts, name);
    let near = beside(groups, ids);
    let kin = kindred(models, ids);
    let all = ids + near + kin;
    let le = |a: Seq<char>, b: Seq<char>| text_le(a, b);
    lemma_stable_sort_contains(texts(all), le, id);
    lemma_deduped(stable_sort(texts(all), le), id);
    lemma_holds_sum(ids + near, kin, id);
    lemma_holds_sum(ids, near, id);
    lemma_beside_iff(groups, ids, id);
    lemma_kindred_iff(models, ids, id);
    assert(texts(all).contains(id) <==> holds(all, id)) by {
        if texts(all).contains(id) {
            let k = texts(all).index_of(id);
            assert(all[k]@ == id);
        }
        if holds(all, id) {
            let k = choose|k: int| 0 <= k < all.len() && (#[trigger] all[k])@ == id;
            assert(texts(all)[k] == id);
        }
    }
    let p = |a: Artifact| known_as(a, name);
    let at = lemma_filter_places(artifacts, p);
    assert forall|k: int| 0 <= k < ids.len() implies (#[trigger] ids[k]) == artifacts[at[k]].id
        && canonical(artifacts[at[k]].name_hint@) == name by {
        assert(0 <= at[k] < artifacts.len());
        assert(p(artifacts[at[k]]));
    }
    if holds(all, id) {
        if holds(ids, id) {
            let k = choose|k: int| 0 <= k < ids.len() && (#[trigger] ids[k])@ == id;
            assert(serves_through(artifacts[at[k]], groups, models, name, id));
        } else if holds(near, id) {
            let k = choose|k: int|
                0 <= k < ids.len() && holds(aliases(groups, (#[trigger] ids[k])@), id);
            assert(serves_through(artifacts[at[k]], groups, models, name, id));
        } else {
            let (f, k) = choose|f: int, k: int|
                0 <= f < models.len() && 0 <= k < ids.len() && #[trigger] has_both(
                    models[f],
                    ids[k]@,
                    id,
                );
            assert(has_both(models[f], artifacts[at[k]].id@, id));
            assert(serves_through(artifacts[at[k]], groups, models, name, id));
        }
    }
    if exists|i: int|
        0 <= i < artifacts.len() && serves_through(
            #[trigger] artifacts[i],
            groups,
            models,
            name,
            id,
        ) {
        let i = choose|i: int|
            0 <= i < artifacts.len() && serves_through(
                #[trigger] artifacts[i],
                groups,
                models,
                name,
                id,
            );
        assert(p(artifacts[i]));
        assert(at.contains(i));
        let k = at.index_of(i);
        assert(ids[k] == artifacts[i].id);
        if artifacts[i].id@ == id {
            assert(holds(ids, id));
        } else if holds(aliases(groups, artifacts[i].id@), id) {
            assert(holds(aliases(groups, ids[k]@), id));
        } else {
            let f = choose|f: int|
                0 <= f < models.len() && has_both(#[trigger] models[f], artifacts[i].id@, id);
            assert(has_both(models[f], ids[k]@, id));
        }
    }
}

/// Whether a mark says that a resident model of a row is served from an
/// artifact.
pub open spec fn marks_served(
    x: Mark,
    row: ProviderRow,
    m: LoadedModel,
    artifacts: Seq<Artifact>,
    groups: Seq<Seq<ArtifactId>>,
    models: Seq<Family>,
) -> bool {
    &&& m.state == State::Loaded
    &&& x.need == (Need::ServedLive { provider: row.kind, model_id: m.id@ })
    &&& dependents(artifacts, groups, models, canonical(m.id@)).contains(x.artifact)
}

proof fn lemma_served_list_iff(
    artifacts: Seq<Artifact>,
    groups: Seq<Seq<ArtifactId>>,
    models: Seq<Family>,
    row: ProviderRow,
    served: Seq<LoadedModel>,
    x: Mark,
)
    ensures
        served_list(artifacts, groups, models, row.kind, served).contains(x) <==> exists|k: int|
            0 <= k < served.len() && marks_served(
                x,
                row,
                #[trigger] served[k],
                artifacts,
                groups,
                models,
            ),
    decreases served.len(),
{
    if served.len() > 0 {
        let t = served.drop_last();
        let m = served.last();
        lemma_served_list_iff(artifacts, groups, models, row, t, x);
        let before = served_list(artifacts, groups, models, row.kind, t);
        let own = served_marks(artifacts, groups, models, row.kind, m);
        let all = served_list(artifacts, groups, models, row.kind, served);
        let d = dependents(artifacts, groups, models, canonical(m.id@));
        assert(served[served.len() - 1] == m);
        assert forall|k: int| 0 <= k < t.len() implies #[trigger] t[k] == served[k] by {}
        assert(own.contains(x) && m.state == State::Loaded <==> marks_served(
            x,
            row,
            m,
            artifacts,
            groups,
            models,
        )) by {
            if own.contains(x) {
                let i = own.index_of(x);
                assert(d.contains(d[i]));
            }
            if marks_served(x, row, m, artifacts, groups, models) {
                let i = d.index_of(x.artifact);
                assert(own[i] =~= x);
            }
        }
        if before.contains(x) {
            let k = choose|k: int|
                0 <= k < t.len() && marks_served(
                    x,
                    row,
                    #[trigger] t[k],
                    artifacts,
                    groups,
                    models,
                );
            assert(marks_served(x, row, served[k], artifacts, groups, models));
            let i = before.index_of(x);
            assert(all[i] == x);
        }
        if m.state == State::Loaded && own.contains(x) {
            let i = own.index_of(x);
            assert(all[before.len() + i] == x);
        }
        if all.contains(x) {
            let i = all.index_of(x);
            if i < before.len() {
                assert(before[i] == x);
            } else {
                assert(own[i - before.len()] == x);
                assert(marks_served(x, row, served[served.len() - 1], artifacts, groups, models));
            }
        }
        if exists|k: int|
            0 <= k < served.len() && marks_served(
                x,
                row,
                #[trigger] served[k],
                artifacts,
                groups,
                models,
            ) {
            let k = choose|k: int|
                0 <= k < served.len() && marks_served(
                    x,
                    row,
                    #[trigger] served[k],
                    artifacts,
                    groups,
                    models,
                );
            if k < t.len() {
                assert(marks_served(x, row, t[k], artifacts, groups, models));
            }
        }
    }
}

/// Whether a mark is that of some resident model of a row.
pub open spec fn marked_by(
    x: Mark,
    row: ProviderRow,
    artifacts: Seq<Artifact>,
    groups: Seq<Seq<ArtifactId>>,
    models: Seq<Family>,
) -> bool {
    row.outcome is Answered && exists|k: int|
        0 <= k < row.outcome->Answered_0@.len() && marks_served(
            x,
            row,
            #[trigger] row.outcome->Answered_0@[k],
            artifacts,
            groups,
            models,
        )
}

proof fn lemma_served_rows_iff(
    artifacts: Seq<Artifact>,
    groups: Seq<Seq<ArtifactId>>,
    models: Seq<Family>,
    rows: Seq<ProviderRow>,
    x: Mark,
)
    ensures
        served_rows(artifacts, groups, models, rows).contains(x) <==> exists|r: int|
            0 <= r < rows.len() && marked_by(x, #[trigger] rows[r], artifacts, groups, models),
    decreases rows.len(),
{
    if rows.len() > 0 {
        let t = rows.drop_last();
        let row = rows.last();
        lemma_served_rows_iff(artifacts, groups, models, t, x);
        let before = served_rows(artifacts, groups, models, t);
        let all = served_rows(artifacts, groups, models, rows);
        assert(rows[rows.len() - 1] == row);
        assert forall|r: int| 0 <= r < t.len() implies #[trigger] t[r] == rows[r] by {}
        if row.outcome is Answered {
            let served = row.outcome->Answered_0@;
            lemma_served_list_iff(artifacts, groups, models, row, served, x);
            let own = served_list(artifacts, groups, models, row.kind, served);
            assert(all == before + own);
            if own.contains(x) {
                let i = own.index_of(x);
                assert(all[before.len() + i] == x);
            }
            if all.contains(x) {
                let i = all.index_of(x);
                if i < before.len() {
                    assert(before[i] == x);
                } else {
                    assert(own[i - before.len()] == x);
                }
            }
        }
        if before.contains(x) {
            let i = before.index_of(x);
            assert(all[i] == x);
            let r = choose|r: int|
                0 <= r < t.len() && marked_by(x, #[trigger] t[r], artifacts, groups, models);
            assert(marked_by(x, rows[r], artifacts, groups, models));
        }
        if exists|r: int|
            0 <= r < rows.len() && marked_by(x, #[trigger] rows[r], artifacts, groups, models) {
            let r = choose|r: int|
                0 <= r < rows.len() && marked_by(x, #[trigger] rows[r], artifacts, groups, models);
            if r < t.len() {
                assert(marked_by(x, t[r], artifacts, groups, models));
            }
        }
    }
}

proof fn lemma_registry_iff(artifacts: Seq<Artifact>, entries: Seq<RegistryEntry>, x: Mark)
    ensures
        registry_marks(artifacts, entries).contains(x) <==> exists|e: int, i: int|
            0 <= e < entries.len() && 0 <= i < artifacts.len() && #[trigger] listed_in(
                x,
                entries[e],
                artifacts[i],
            ),
    decreases entries.len(),
{
    if entries.len() > 0 {
        let t = entries.drop_last();
        let last = entries.last();
        lemma_registry_iff(artifacts, t, x);
        let before = registry_marks(artifacts, t);
        let own = entry_marks(artifacts, last);
        let all = registry_marks(artifacts, entries);
        assert(all == before + own);
        assert(entries[entries.len() - 1] == last);
        assert forall|e: int| 0 <= e < t.len() implies #[trigger] t[e] == entries[e] by {}
        let p = |a: Artifact| names_artifact(last, a);
        let at = lemma_filter_places(artifacts, p);
        assert(own.contains(x) <==> exists|i: int|
            0 <= i < artifacts.len() && #[trigger] listed_in(x, last, artifacts[i])) by {
            if own.contains(x) {
                let k = own.index_of(x);
                assert(0 <= at[k] < artifacts.len());
                assert(p(artifacts[at[k]]));
                assert(listed_in(x, last, artifacts[at[k]]));
            }
            if exists|i: int|
                0 <= i < artifacts.len() && #[trigger] listed_in(x, last, artifacts[i]) {
                let i = choose|i: int|
                    0 <= i < artifacts.len() && #[trigger] listed_in(x, last, artifacts[i]);
                assert(p(artifacts[i]));
                assert(at.contains(i));
                let k = at.index_of(i);
                assert(own[k] =~= x);
            }
        }
        if before.contains(x) {
            let k = before.index_of(x);
            assert(all[k] == x);
            let (e, i) = choose|e: int, i: int|
                0 <= e < t.len() && 0 <= i < artifacts.len() && #[trigger] listed_in(
                    x,
                    t[e],
                    artifacts[i],
                );
            assert(listed_in(x, entries[e], artifacts[i]));
        }
        if own.contains(x) {
            let k = own.index_of(x);
            assert(all[before.len() + k] == x);
            let i = choose|i: int|
                0 <= i < artifacts.len() && #[trigger] listed_in(x, last, artifacts[i]);
            assert(listed_in(x, entries[entries.len() - 1], artifacts[i]));
        }
        if all.contains(x) {
            let k = all.index_of(x);
            if k < before.len() {
                assert(before[k] == x);
            } else {
                assert(own[k - before.len()] == x);
            }
        }
        if exists|e: int, i: int|
            0 <= e < entries.len() && 0 <= i < artifacts.len() && #[trigger] listed_in(
                x,
                entries[e],
                artifacts[i],
            ) {
            let (e, i) = choose|e: int, i: int|
                0 <= e < entries.len() && 0 <= i < artifacts.len() && #[trigger] listed_in(
                    x,
                    entries[e],
                    artifacts[i],
                );
            if e < t.len() {
                assert(listed_in(x, t[e], artifacts[i]));
            }
        }
    }
}

/// Whether a mark says that a registry entry names an artifact of its store: by
/// a path the artifact lies under, or by its name.
pub open spec fn listed_in(x: Mark, e: RegistryEntry, a: Artifact) -> bool {
    &&& x.artifact == a.id@
    &&& x.need == (Need::Registry { store: "vllm"@, name: e.name@ })
    &&& a.store == Store::Vllm
    &&& lies_under(a.path@, e.path@) || a.name_hint@ == e.name@
}

/// Whether a mark says that the router scans an artifact.
pub open spec fn scanned_at(x: Mark, a: Artifact) -> bool {
    &&& x.artifact == a.id@
    &&& x.need == (Need::Scanned { provider: ProviderKind::LlamaCpp })
    &&& a.store == Store::HfCache
}

proof fn lemma_scanned_iff(artifacts: Seq<Artifact>, up: bool, x: Mark)
    ensures
        scanned_marks(artifacts, up).contains(x) <==> up && exists|i: int|
            0 <= i < artifacts.len() && scanned_at(x, #[trigger] artifacts[i]),
{
    let p = |a: Artifact| a.store == Store::HfCache;
    let at = lemma_filter_places(artifacts, p);
    let all = scanned_marks(artifacts, up);
    if up {
        if all.contains(x) {
            let k = all.index_of(x);
            assert(0 <= at[k] < artifacts.len());
            assert(p(artifacts[at[k]]));
            assert(scanned_at(x, artifacts[at[k]]));
        }
        if exists|i: int| 0 <= i < artifacts.len() && scanned_at(x, #[trigger] artifacts[i]) {
            let i = choose|i: int|
                0 <= i < artifacts.len() && scanned_at(x, #[trigger] artifacts[i]);
            assert(p(artifacts[i]));
            assert(at.contains(i));
            let k = at.index_of(i);
            assert(all[k] =~= x);
        }
    }
}

/// What an inventory marks as required: what the router scans, unless it is
/// known to be down, which is everything in the HF cache; what the registry
/// names; and what a resident model is served from. Nothing else.
#[verifier::rlimit(40)]
pub proof fn what_is_required_is_scanned_named_or_served(
    artifacts: Seq<Artifact>,
    groups: Seq<Seq<ArtifactId>>,
    models: Seq<Family>,
    registry: Seq<RegistryEntry>,
    rows: Seq<ProviderRow>,
    x: Mark,
)
    ensures
        (scanned_marks(artifacts, router_up(rows)) + registry_marks(artifacts, registry)
            + served_rows(artifacts, groups, models, rows)).contains(x) <==> {
            ||| (exists|r: int|
                0 <= r < rows.len() && (#[trigger] rows[r]).kind == ProviderKind::LlamaCpp
                    && rows[r].outcome is Answered) && exists|i: int|
                0 <= i < artifacts.len() && scanned_at(x, #[trigger] artifacts[i])
            ||| exists|e: int, i: int|
                0 <= e < registry.len() && 0 <= i < artifacts.len() && #[trigger] listed_in(
                    x,
                    registry[e],
                    artifacts[i],
                )
            ||| exists|r: int|
                0 <= r < rows.len() && marked_by(x, #[trigger] rows[r], artifacts, groups, models)
        },
        (scanned_marks(artifacts, true) + registry_marks(artifacts, registry)).contains(x) <==> {
            ||| exists|i: int| 0 <= i < artifacts.len() && scanned_at(x, #[trigger] artifacts[i])
            ||| exists|e: int, i: int|
                0 <= e < registry.len() && 0 <= i < artifacts.len() && #[trigger] listed_in(
                    x,
                    registry[e],
                    artifacts[i],
                )
        },
{
    let up = router_up(rows);
    assert(up <==> exists|r: int|
        0 <= r < rows.len() && (#[trigger] rows[r]).kind == ProviderKind::LlamaCpp
            && rows[r].outcome is Answered) by {
        if up {
            let r = choose|r: int|
                0 <= r < rows.len() && answers(#[trigger] rows[r], ProviderKind::LlamaCpp);
            assert(rows[r].kind == ProviderKind::LlamaCpp);
        }
        if exists|r: int|
            0 <= r < rows.len() && (#[trigger] rows[r]).kind == ProviderKind::LlamaCpp
                && rows[r].outcome is Answered {
            let r = choose|r: int|
                0 <= r < rows.len() && (#[trigger] rows[r]).kind == ProviderKind::LlamaCpp
                    && rows[r].outcome is Answered;
            assert(answers(rows[r], ProviderKind::LlamaCpp));
        }
    }
    lemma_scanned_iff(artifacts, up, x);
    lemma_scanned_iff(artifacts, true, x);
    lemma_registry_iff(artifacts, registry, x);
    lemma_served_rows_iff(artifacts, groups, models, rows, x);
    let b = registry_marks(artifacts, registry);
    lemma_in_sum(scanned_marks(artifacts, up), b, x);
    lemma_in_sum(scanned_marks(artifacts, true), b, x);
    lemma_in_sum(
        scanned_marks(artifacts, up) + b,
        served_rows(artifacts, groups, models, rows),
        x,
    );
}

proof fn lemma_in_sum(a: Seq<Mark>, b: Seq<Mark>, x: Mark)
    ensures
        (a + b).contains(x) <==> a.contains(x) || b.contains(x),
{
    let all = a + b;
    if all.contains(x) {
        let k = all.index_of(x);
        if k < a.len() {
            assert(a[k] == x);
        } else {
            assert(b[k - a.len()] == x);
        }
    }
    if a.contains(x) {
        let k = a.index_of(x);
        assert(all[k] == x);
    }
    if b.contains(x) {
        let k = b.index_of(x);
        assert(all[a.len() + k] == x);
    }
}

/// An edge of requirement is marked with its artifact and its reason, as they
/// stand, and no other edge is.
pub proof fn a_mark_is_an_edge_of_requirement(edges: Seq<Edge>, x: Mark)
    ensures
        marks(edges).contains(x) <==> exists|e: int|
            {
                &&& 0 <= e < edges.len()
                &&& (#[trigger] edges[e]) is RequiredBy
                &&& edges[e]->RequiredBy_artifact@ == x.artifact
                &&& match edges[e]->requirer {
                    Requirer::ServedLive { provider, model_id } => x.need == (Need::ServedLive {
                        provider,
                        model_id: model_id@,
                    }),
                    Requirer::Registry { store, name } => x.need == (Need::Registry {
                        store: store@,
                        name: name@,
                    }),
                    Requirer::Scanned { provider } => x.need == (Need::Scanned { provider }),
                }
            },
{
    let f = |e: Edge| mark_in(e);
    lemma_filter_map_members(edges, f);
    let all = marks(edges);
    if all.contains(x) {
        let k = all.index_of(x);
        let e = choose|e: int| 0 <= e < edges.len() && f(#[trigger] edges[e]) == Some(all[k]);
        assert(edges[e] is RequiredBy);
    }
    if exists|e: int|
        {
            &&& 0 <= e < edges.len()
            &&& (#[trigger] edges[e]) is RequiredBy
            &&& edges[e]->RequiredBy_artifact@ == x.artifact
            &&& need(edges[e]->requirer) == x.need
        } {
        let e = choose|e: int|
            {
                &&& 0 <= e < edges.len()
                &&& (#[trigger] edges[e]) is RequiredBy
                &&& edges[e]->RequiredBy_artifact@ == x.artifact
                &&& need(edges[e]->requirer) == x.need
            };
        assert(f(edges[e]) =~= Some(x));
        assert(all.contains(f(edges[e])->0));
    }
}

/// A clean reports every model's share once, among those that can be carried
/// out or among those that are skipped: skipped exactly when something refuses
/// it. What can be carried out comes with the most to reclaim first, and the
/// whole reclaims what these do together.
pub proof fn a_clean_reports_every_share(all: Seq<Share>, r: CleanPlan, s: Share)
    requires
        shares(r.models@) == executable(all),
        shares(r.skipped@) == refused_shares(all),
        r.reclaims_bytes == reclaimed(all),
    ensures
        r.models@.len() + r.skipped@.len() == all.len(),
        all.contains(s) && s.plan.refusals.len() == 0 <==> exists|k: int|
            0 <= k < r.models@.len() && share(#[trigger] r.models@[k]) == s,
        all.contains(s) && s.plan.refusals.len() > 0 <==> exists|k: int|
            0 <= k < r.skipped@.len() && share(#[trigger] r.skipped@[k]) == s,
        forall|j: int, k: int|
            0 <= j < k < r.models@.len() ==> (#[trigger] r.models@[j]).plan.reclaims_bytes >= (
            #[trigger] r.models@[k]).plan.reclaims_bytes,
        r.reclaims_bytes == total(r.models@, |m: ModelClean| m.plan.reclaims_bytes as nat),
{
    let good = |x: Share| !is_refused(x);
    let bad = |x: Share| is_refused(x);
    let by_size = |a: Share, b: Share| a.plan.reclaims >= b.plan.reclaims;
    let by_name = |a: Share, b: Share| text_le(a.model, b.model);
    lemma_filter_members(all, good);
    lemma_filter_members(all, bad);
    lemma_stable_sort(all.filter(good), by_size);
    lemma_stable_sort(all.filter(bad), by_name);
    lemma_stable_sort_contains(all.filter(good), by_size, s);
    lemma_stable_sort_contains(all.filter(bad), by_name, s);
    assert(total_preorder(by_size));
    let ms = shares(r.models@);
    let ks = shares(r.skipped@);
    assert(ms.len() == r.models@.len() && ks.len() == r.skipped@.len());
    lemma_parted(all);
    assert(all.filter(good).contains(s) <==> all.contains(s) && good(s));
    assert(all.filter(bad).contains(s) <==> all.contains(s) && bad(s));
    if ms.contains(s) {
        let k = ms.index_of(s);
        assert(share(r.models@[k]) == s);
    }
    if ks.contains(s) {
        let k = ks.index_of(s);
        assert(share(r.skipped@[k]) == s);
    }
    if exists|k: int| 0 <= k < r.models@.len() && share(#[trigger] r.models@[k]) == s {
        let k = choose|k: int| 0 <= k < r.models@.len() && share(#[trigger] r.models@[k]) == s;
        assert(ms[k] == s);
    }
    if exists|k: int| 0 <= k < r.skipped@.len() && share(#[trigger] r.skipped@[k]) == s {
        let k = choose|k: int| 0 <= k < r.skipped@.len() && share(#[trigger] r.skipped@[k]) == s;
        assert(ks[k] == s);
    }
    assert forall|j: int, k: int| 0 <= j < k < r.models@.len() implies (
    #[trigger] r.models@[j]).plan.reclaims_bytes >= (
    #[trigger] r.models@[k]).plan.reclaims_bytes by {
        assert(by_size(ms[j], ms[k]));
        assert(ms[j] == share(r.models@[j]) && ms[k] == share(r.models@[k]));
    }
    lemma_same_totals(r.models@);
}

proof fn lemma_same_totals(v: Seq<ModelClean>)
    ensures
        total(shares(v), |s: Share| s.plan.reclaims) == total(
            v,
            |m: ModelClean| m.plan.reclaims_bytes as nat,
        ),
    decreases v.len(),
{
    if v.len() > 0 {
        lemma_same_totals(v.drop_last());
        assert(shares(v).drop_last() =~= shares(v.drop_last()));
        assert(shares(v).last() == share(v.last()));
    }
}

proof fn lemma_parted(all: Seq<Share>)
    ensures
        all.filter(|x: Share| !is_refused(x)).len() + all.filter(|x: Share| is_refused(x)).len()
            == all.len(),
    decreases all.len(),
{
    let good = |x: Share| !is_refused(x);
    let bad = |x: Share| is_refused(x);
    if all.len() == 0 {
        lemma_filter_members(all, good);
        lemma_filter_members(all, bad);
    } else {
        let n = all.len() - 1;
        lemma_parted(all.take(n));
        crate::seqs::lemma_filter_take(all, good, n);
        crate::seqs::lemma_filter_take(all, bad, n);
        assert(all.take(n + 1) =~= all);
    }
}

} // verus!
