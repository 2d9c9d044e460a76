//! The removal question asked of every model at once.
//!
//! An artifact is selected only when a strictly better build of the *same
//! format* is among the builds of its own model. The unit of refusal is one
//! model, not the run: a served model must not block the other forty, so each
//! model gets its own plan and a poisoned one is reported as skipped.
use vstd::prelude::*;

use crate::inventory::artifact::{Artifact, ArtifactId};
use crate::inventory::graph::{aliases, holds, holds_id, Edge};
use crate::inventory::identity::{
    an_artifact_has_one_model, families, family, grouped, unified, Family, ModelIdentity,
};
use crate::inventory::plan::{
    build_plan, lemma_step_source, removal, removal_of, Removal, RemovalPlan,
};
use crate::inventory::safety::{
    betters, classified, classify, deepest, depth, lemma_deepest,
    redundant_means_bettered_in_its_own_format, Risk, Safety,
};
use crate::inventory::{ids_distinct, Inventory};
use crate::seqs::{
    lemma_filter_map_members, lemma_filter_members, lemma_filter_take, lemma_sort_map,
    lemma_stable_sort_contains, sort_with, stable_sort, total,
};
use crate::text::{is_before, same, text_le};

verus! {

/// One model's share of a clean.
#[derive(Debug)]
pub struct ModelClean {
    pub model: String,
    pub plan: RemovalPlan,
    /// What goes and the build that supersedes it, so the report can say what
    /// survives rather than only what goes.
    pub superseded: Vec<(ArtifactId, ArtifactId)>,
}

#[derive(Debug)]
pub struct CleanPlan {
    /// Models with an executable plan, largest reclaim first: the reason
    /// anyone runs this is to find space.
    pub models: Vec<ModelClean>,
    /// Models a requirer took off the table. Not an error, and not empty in
    /// normal use.
    pub skipped: Vec<ModelClean>,
    pub reclaims_bytes: u64,
}

/// The steps of every plan, counted.
pub open spec fn step_count(models: Seq<ModelClean>) -> nat {
    total(models, |m: ModelClean| m.plan.steps@.len())
}

impl CleanPlan {
    pub fn artifact_count(&self) -> (n: usize)
        requires
            step_count(self.models@) <= usize::MAX,
        ensures
            n == step_count(self.models@),
    {
        let ghost f = |m: ModelClean| m.plan.steps@.len();
        let mut n: usize = 0;
        let mut i: usize = 0;
        while i < self.models.len()
            invariant
                i <= self.models@.len(),
                f == (|m: ModelClean| m.plan.steps@.len()),
                total(self.models@, f) <= usize::MAX,
                n == total(self.models@.take(i as int), f),
            decreases self.models.len() - i,
        {
            proof {
                crate::seqs::lemma_total_take(self.models@, f, i as int);
            }
            n = n + self.models[i].plan.steps.len();
            i += 1;
        }
        proof {
            assert(self.models@.take(i as int) =~= self.models@);
        }
        n
    }
}

/// The builds of a model.
pub open spec fn peers_of(artifacts: Seq<Artifact>, ids: Seq<ArtifactId>) -> Seq<Artifact> {
    artifacts.filter(|a: Artifact| holds(ids, a.id@))
}

/// Whether a build says its depth and none of its peers betters it.
pub open spec fn stands(a: Artifact, peers: Seq<Artifact>) -> bool {
    a.bits is Some && !(classified(a, peers) is Redundant)
}

/// Whether a build that stands is reached by the same bytes: removing them
/// would remove it too.
pub open spec fn spared(groups: Seq<Seq<ArtifactId>>, a: Artifact, peers: Seq<Artifact>) -> bool {
    exists|i: int|
        0 <= i < peers.len() && stands(#[trigger] peers[i], peers) && (peers[i].id@ == a.id@
            || holds(aliases(groups, a.id@), peers[i].id@))
}

/// What goes, and what supersedes it.
pub open spec fn succession(
    groups: Seq<Seq<ArtifactId>>,
    a: Artifact,
    peers: Seq<Artifact>,
) -> Option<(ArtifactId, ArtifactId)> {
    match classified(a, peers) {
        Risk::Redundant { better } => if spared(groups, a, peers) {
            None
        } else {
            Some((a.id, better))
        },
        _ => None,
    }
}

/// The builds that a better one supersedes.
pub open spec fn going(groups: Seq<Seq<ArtifactId>>, peers: Seq<Artifact>) -> Seq<Artifact> {
    peers.filter(|a: Artifact| succession(groups, a, peers) is Some)
}

pub open spec fn has_artifact(s: Seq<Artifact>, id: Seq<char>) -> bool {
    exists|i: int| 0 <= i < s.len() && (#[trigger] s[i]).id@ == id
}

/// Whether an id is another path to the bytes of any of some artifacts.
pub open spec fn reaches_any(groups: Seq<Seq<ArtifactId>>, s: Seq<Artifact>, id: Seq<char>) -> bool {
    exists|i: int| 0 <= i < s.len() && holds(aliases(groups, (#[trigger] s[i]).id@), id)
}

/// Whether a build that is not superseded itself reaches bytes that go.
pub open spec fn dangling(
    groups: Seq<Seq<ArtifactId>>,
    goes: Seq<Artifact>,
    a: Artifact,
) -> bool {
    !has_artifact(goes, a.id@) && reaches_any(groups, goes, a.id@)
}

/// Everything that goes: what is superseded, and whatever else reaches those
/// bytes. A symlink left behind is a dangling entry in another provider's
/// pool.
pub open spec fn whole(groups: Seq<Seq<ArtifactId>>, peers: Seq<Artifact>) -> Seq<Artifact> {
    going(groups, peers) + peers.filter(
        |a: Artifact| dangling(groups, going(groups, peers), a),
    )
}

/// One model's share, in texts.
#[verifier::ext_equal]
pub struct Share {
    pub model: Seq<char>,
    pub plan: Removal,
    pub superseded: Seq<(ArtifactId, ArtifactId)>,
}

pub open spec fn share(m: ModelClean) -> Share {
    Share { model: m.model@, plan: removal(m.plan), superseded: m.superseded@ }
}

pub open spec fn shares(v: Seq<ModelClean>) -> Seq<Share> {
    v.map_values(|m: ModelClean| share(m))
}

/// The share of one model, where it has one.
pub open spec fn share_of(
    artifacts: Seq<Artifact>,
    groups: Seq<Seq<ArtifactId>>,
    edges: Seq<Edge>,
    m: Family,
) -> Option<Share> {
    let peers = peers_of(artifacts, m.ids);
    if going(groups, peers).len() == 0 {
        None
    } else {
        Some(
            Share {
                model: m.canonical,
                plan: removal_of(whole(groups, peers), edges),
                superseded: peers.filter_map(|a: Artifact| succession(groups, a, peers)),
            },
        )
    }
}

/// The shares of every model that has one.
pub open spec fn all_shares(inv: Inventory) -> Seq<Share> {
    families(inv.identities@).filter_map(
        |m: Family| share_of(inv.artifacts@, inv.graph.groups(), inv.graph.edges@, m),
    )
}

pub open spec fn is_refused(s: Share) -> bool {
    s.plan.refusals.len() > 0
}

/// The shares that can be carried out, the largest first.
pub open spec fn executable(all: Seq<Share>) -> Seq<Share> {
    stable_sort(
        all.filter(|s: Share| !is_refused(s)),
        |a: Share, b: Share| a.plan.reclaims >= b.plan.reclaims,
    )
}

/// The shares that something required stands in the way of, by name.
pub open spec fn refused_shares(all: Seq<Share>) -> Seq<Share> {
    stable_sort(
        all.filter(|s: Share| is_refused(s)),
        |a: Share, b: Share| text_le(a.model, b.model),
    )
}

fn has_id(s: &Vec<Artifact>, id: &str) -> (r: bool)
    ensures
        r == has_artifact(s@, id@),
{
    let mut i: usize = 0;
    while i < s.len()
        invariant
            i <= s@.len(),
            forall|k: int| 0 <= k < i ==> (#[trigger] s@[k]).id@ != id@,
        decreases s.len() - i,
    {
        if same(s[i].id.as_str(), id) {
            return true;
        }
        i += 1;
    }
    false
}

fn is_spared(inv: &Inventory, a: &Artifact, peers: &Vec<Artifact>) -> (r: bool)
    ensures
        r == spared(inv.graph.groups(), *a, peers@),
{
    let ghost groups = inv.graph.groups();
    let others = inv.graph.aliases_of(a.id.as_str());
    let mut i: usize = 0;
    while i < peers.len()
        invariant
            i <= peers@.len(),
            groups == inv.graph.groups(),
            others@ == aliases(groups, a.id@),
            forall|k: int|
                0 <= k < i ==> !(stands(#[trigger] peers@[k], peers@) && (peers@[k].id@ == a.id@
                    || holds(aliases(groups, a.id@), peers@[k].id@))),
        decreases peers.len() - i,
    {
        let x = &peers[i];
        if same(x.id.as_str(), a.id.as_str()) || holds_id(&others, x.id.as_str()) {
            let best = match classify(x, peers.as_slice()) {
                Safety::Redundant { .. } => false,
                _ => true,
            };
            if best && x.bits.is_some() {
                proof {
                    assert(stands(peers@[i as int], peers@));
                }
                return true;
            }
        }
        i += 1;
    }
    false
}

/// The builds of a model, what goes of them and why, and what goes with it.
fn select(inv: &Inventory, ident: &ModelIdentity) -> (r: (
    Vec<Artifact>,
    Vec<(ArtifactId, ArtifactId)>,
))
    ensures
        ({
            let peers = peers_of(inv.artifacts@, ident.artifacts@);
            &&& r.0@ == whole(inv.graph.groups(), peers)
            &&& r.1@ == peers.filter_map(
                |a: Artifact| succession(inv.graph.groups(), a, peers),
            )
            &&& r.1@.len() == going(inv.graph.groups(), peers).len()
        }),
{
    let ghost q = |a: Artifact| holds(ident.artifacts@, a.id@);
    let mut peers: Vec<Artifact> = Vec::new();
    let mut i: usize = 0;
    while i < inv.artifacts.len()
        invariant
            i <= inv.artifacts@.len(),
            q == (|a: Artifact| holds(ident.artifacts@, a.id@)),
            peers@ == inv.artifacts@.take(i as int).filter(q),
        decreases inv.artifacts.len() - i,
    {
        proof {
            lemma_filter_take(inv.artifacts@, q, i as int);
        }
        if holds_id(&ident.artifacts, inv.artifacts[i].id.as_str()) {
            peers.push(inv.artifacts[i].clone());
        }
        i += 1;
    }
    proof {
        assert(inv.artifacts@.take(i as int) =~= inv.artifacts@);
    }
    let ghost all = peers@;
    let ghost groups = inv.graph.groups();
    let ghost f = |a: Artifact| succession(groups, a, all);
    let ghost p = |a: Artifact| succession(groups, a, all) is Some;
    let mut superseded: Vec<(ArtifactId, ArtifactId)> = Vec::new();
    let mut goes: Vec<Artifact> = Vec::new();
    let mut k: usize = 0;
    proof {
        assert(all.take(0).filter_map(f) =~= Seq::empty());
    }
    while k < peers.len()
        invariant
            k <= peers@.len(),
            all == peers@,
            groups == inv.graph.groups(),
            f == (|a: Artifact| succession(groups, a, all)),
            p == (|a: Artifact| succession(groups, a, all) is Some),
            superseded@ == all.take(k as int).filter_map(f),
            goes@ == all.take(k as int).filter(p),
            superseded@.len() == goes@.len(),
        decreases peers.len() - k,
    {
        proof {
            lemma_filter_take(all, p, k as int);
            all.lemma_filter_map_take_succ(f, k as int);
        }
        let a = &peers[k];
        if let Safety::Redundant { better } = classify(a, peers.as_slice()) {
            if !is_spared(inv, a, &peers) {
                superseded.push((a.id.clone(), better));
                goes.push(a.clone());
            }
        }
        proof {
            assert(superseded@ =~= all.take(k + 1).filter_map(f));
        }
        k += 1;
    }
    proof {
        assert(all.take(k as int) =~= all);
    }
    let ghost leaving = goes@;
    let ghost d = |a: Artifact| dangling(groups, leaving, a);
    let mut also: Vec<Artifact> = Vec::new();
    let mut n: usize = 0;
    while n < peers.len()
        invariant
            n <= peers@.len(),
            all == peers@,
            leaving == goes@,
            groups == inv.graph.groups(),
            d == (|a: Artifact| dangling(groups, leaving, a)),
            also@ == all.take(n as int).filter(d),
        decreases peers.len() - n,
    {
        proof {
            lemma_filter_take(all, d, n as int);
        }
        let a = &peers[n];
        if !has_id(&goes, a.id.as_str()) {
            let mut linked = false;
            let mut j: usize = 0;
            while j < goes.len() && !linked
                invariant
                    j <= goes@.len(),
                    leaving == goes@,
                    groups == inv.graph.groups(),
                    linked ==> reaches_any(groups, leaving, a.id@),
                    !linked ==> forall|x: int|
                        0 <= x < j ==> !holds(aliases(groups, (#[trigger] leaving[x]).id@), a.id@),
                decreases goes@.len() - j + (if linked {
                    0int
                } else {
                    1
                }),
            {
                let others = inv.graph.aliases_of(goes[j].id.as_str());
                if holds_id(&others, a.id.as_str()) {
                    proof {
                        assert(holds(aliases(groups, leaving[j as int].id@), a.id@));
                    }
                    linked = true;
                } else {
                    j += 1;
                }
            }
            if linked {
                also.push(a.clone());
            }
        }
        n += 1;
    }
    proof {
        assert(all.take(n as int) =~= all);
    }
    goes.append(&mut also);
    (goes, superseded)
}

/// Every share is no more than the whole.
proof fn lemma_share_counts(all: Seq<Share>, i: int)
    requires
        0 <= i < all.len(),
    ensures
        all[i].plan.reclaims <= total(all, |s: Share| s.plan.reclaims),
    decreases all.len(),
{
    let f = |s: Share| s.plan.reclaims;
    crate::seqs::lemma_total_take(all, f, i);
}

/// What the models with a plan free together.
pub open spec fn reclaimed(all: Seq<Share>) -> nat {
    total(executable(all), |s: Share| s.plan.reclaims)
}

/// Plan the removal of every superseded build in the inventory.
pub fn redundant(inv: &Inventory) -> (r: CleanPlan)
    requires
        total(all_shares(*inv), |s: Share| s.plan.reclaims) <= u64::MAX,
    ensures
        shares(r.models@) == executable(all_shares(*inv)),
        shares(r.skipped@) == refused_shares(all_shares(*inv)),
        r.reclaims_bytes == reclaimed(all_shares(*inv)),
{
    let ghost models_of = families(inv.identities@);
    let ghost all = all_shares(*inv);
    let ghost f = |m: Family| share_of(inv.artifacts@, inv.graph.groups(), inv.graph.edges@, m);
    let ghost cost = |s: Share| s.plan.reclaims;
    let ghost bad = |s: Share| is_refused(s);
    let ghost good = |s: Share| !is_refused(s);
    let mut models: Vec<ModelClean> = Vec::new();
    let mut skipped: Vec<ModelClean> = Vec::new();
    let mut i: usize = 0;
    let ghost mut seen: Seq<Share> = Seq::empty();
    proof {
        assert(models_of.take(0).filter_map(f) =~= Seq::empty());
        assert(shares(models@) =~= seen.filter(good));
        assert(shares(skipped@) =~= seen.filter(bad));
    }
    while i < inv.identities.len()
        invariant
            i <= inv.identities@.len(),
            models_of == families(inv.identities@),
            f == (|m: Family|
                share_of(inv.artifacts@, inv.graph.groups(), inv.graph.edges@, m)),
            all == models_of.filter_map(f),
            cost == (|s: Share| s.plan.reclaims),
            bad == (|s: Share| is_refused(s)),
            good == (|s: Share| !is_refused(s)),
            total(all, cost) <= u64::MAX,
            seen == models_of.take(i as int).filter_map(f),
            shares(models@) == seen.filter(good),
            shares(skipped@) == seen.filter(bad),
        decreases inv.identities.len() - i,
    {
        let ident = &inv.identities[i];
        proof {
            models_of.lemma_filter_map_take_succ(f, i as int);
            assert(models_of[i as int] == family(*ident));
        }
        let (goes, superseded) = select(inv, ident);
        let ghost before = seen;
        if superseded.len() > 0 {
            let ghost s = f(models_of[i as int])->0;
            proof {
                lemma_filter_map_members(models_of, f);
                let at = all.index_of(s);
                lemma_share_counts(all, at);
                seen = before.push(s);
                assert(seen =~= models_of.take(i + 1).filter_map(f));
                lemma_filter_take(seen, good, before.len() as int);
                lemma_filter_take(seen, bad, before.len() as int);
                assert(seen.take(before.len() as int) =~= before);
                assert(seen.take(before.len() as int + 1) =~= seen);
            }
            let plan = build_plan(goes, &inv.graph);
            let refused = plan.refusals.len() > 0;
            let entry = ModelClean { model: ident.canonical.clone(), plan, superseded };
            proof {
                assert(share(entry) =~= s);
                assert(removal(entry.plan).refusals.len() == entry.plan.refusals@.len());
            }
            let ghost was_models = models@;
            let ghost was_skipped = skipped@;
            if refused {
                skipped.push(entry);
                proof {
                    assert(shares(skipped@) =~= shares(was_skipped).push(s));
                }
            } else {
                models.push(entry);
                proof {
                    assert(shares(models@) =~= shares(was_models).push(s));
                }
            }
        } else {
            proof {
                assert(seen =~= models_of.take(i + 1).filter_map(f));
            }
        }
        i += 1;
    }
    proof {
        assert(models_of.take(i as int) =~= models_of);
        assert(seen == all);
    }
    let by_size = |a: &ModelClean, b: &ModelClean| -> (r: bool)
        ensures
            r == (share(*a).plan.reclaims >= share(*b).plan.reclaims),
        {
            a.plan.reclaims_bytes >= b.plan.reclaims_bytes
        };
    let by_name = |a: &ModelClean, b: &ModelClean| -> (r: bool)
        ensures
            r == text_le(share(*a).model, share(*b).model),
        {
            !is_before(b.model.as_str(), a.model.as_str())
        };
    let ghost size = |a: ModelClean, b: ModelClean|
        share(a).plan.reclaims >= share(b).plan.reclaims;
    let ghost name = |a: ModelClean, b: ModelClean| text_le(share(a).model, share(b).model);
    let ghost view = |m: ModelClean| share(m);
    let ghost loose_models = models@;
    let ghost loose_skipped = skipped@;
    let models = sort_with(models, by_size, Ghost(size));
    let skipped = sort_with(skipped, by_name, Ghost(name));
    proof {
        lemma_sort_map(
            loose_models,
            view,
            size,
            |a: Share, b: Share| a.plan.reclaims >= b.plan.reclaims,
        );
        lemma_sort_map(
            loose_skipped,
            view,
            name,
            |a: Share, b: Share| text_le(a.model, b.model),
        );
        assert(loose_models.map_values(view) =~= shares(loose_models));
        assert(loose_skipped.map_values(view) =~= shares(loose_skipped));
        assert(models@.map_values(view) =~= shares(models@));
        assert(skipped@.map_values(view) =~= shares(skipped@));
        lemma_executable_total(all);
    }
    let ghost line = shares(models@);
    let mut reclaims: u64 = 0;
    let mut n: usize = 0;
    while n < models.len()
        invariant
            n <= models@.len(),
            line == shares(models@),
            cost == (|s: Share| s.plan.reclaims),
            total(line, cost) <= u64::MAX,
            reclaims == total(line.take(n as int), cost),
        decreases models.len() - n,
    {
        proof {
            crate::seqs::lemma_total_take(line, cost, n as int);
            assert(line[n as int] == share(models@[n as int]));
        }
        reclaims = reclaims + models[n].plan.reclaims_bytes;
        n += 1;
    }
    proof {
        assert(line.take(n as int) =~= line);
    }
    CleanPlan { models, skipped, reclaims_bytes: reclaims }
}

/// What can be carried out frees no more than everything would.
proof fn lemma_executable_total(all: Seq<Share>)
    ensures
        reclaimed(all) <= total(all, |s: Share| s.plan.reclaims),
{
    let f = |s: Share| s.plan.reclaims;
    let good = |s: Share| !is_refused(s);
    lemma_filter_total(all, good);
    lemma_sorted_total(all.filter(good));
}

proof fn lemma_filter_total(all: Seq<Share>, p: spec_fn(Share) -> bool)
    ensures
        total(all.filter(p), |s: Share| s.plan.reclaims) <= total(
            all,
            |s: Share| s.plan.reclaims,
        ),
    decreases all.len(),
{
    let f = |s: Share| s.plan.reclaims;
    if all.len() == 0 {
        assert(all.filter(p) =~= Seq::empty());
    } else {
        let n = all.len() - 1;
        lemma_filter_total(all.drop_last(), p);
        lemma_filter_take(all, p, n);
        assert(all.take(n) =~= all.drop_last());
        assert(all.take(n + 1) =~= all);
        let kept = all.drop_last().filter(p);
        assert(kept.push(all[n]).drop_last() =~= kept);
    }
}

proof fn lemma_sorted_total(s: Seq<Share>)
    ensures
        total(
            stable_sort(s, |a: Share, b: Share| a.plan.reclaims >= b.plan.reclaims),
            |s: Share| s.plan.reclaims,
        ) == total(s, |s: Share| s.plan.reclaims),
    decreases s.len(),
{
    let le = |a: Share, b: Share| a.plan.reclaims >= b.plan.reclaims;
    if s.len() > 0 {
        lemma_sorted_total(s.drop_last());
        lemma_inserted_total(stable_sort(s.drop_last(), le), s.last());
    }
}

proof fn lemma_inserted_total(s: Seq<Share>, x: Share)
    ensures
        total(
            crate::seqs::insert_by(s, x, |a: Share, b: Share| a.plan.reclaims >= b.plan.reclaims),
            |s: Share| s.plan.reclaims,
        ) == total(s, |s: Share| s.plan.reclaims) + x.plan.reclaims,
    decreases s.len(),
{
    let le = |a: Share, b: Share| a.plan.reclaims >= b.plan.reclaims;
    let f = |s: Share| s.plan.reclaims;
    if s.len() == 0 {
        assert(seq![x].drop_last() =~= s);
    } else if le(s.last(), x) {
        assert(s.push(x).drop_last() =~= s);
    } else {
        lemma_inserted_total(s.drop_last(), x);
        let u = crate::seqs::insert_by(s.drop_last(), x, le);
        assert(u.push(s.last()).drop_last() =~= u);
    }
}

/// The deepest build that betters one that goes stands itself.
proof fn lemma_the_better_stands(
    groups: Seq<Seq<ArtifactId>>,
    peers: Seq<Artifact>,
    i: int,
) -> (j: int)
    requires
        0 <= i < peers.len(),
        succession(groups, peers[i], peers) is Some,
    ensures
        0 <= j < peers.len(),
        succession(groups, peers[i], peers) == Some((peers[i].id, peers[j].id)),
        betters(peers[j], peers[i]),
        stands(peers[j], peers),
{
    let a = peers[i];
    let p = |x: Artifact| betters(x, a);
    let rivals = peers.filter(p);
    lemma_filter_members(peers, p);
    lemma_deepest(rivals);
    let b = deepest(rivals)->0;
    assert(rivals.contains(b));
    assert(peers.contains(b) && p(b));
    let j = peers.index_of(b);
    // The deepest build of the format, which nothing betters.
    let q = |x: Artifact| x.format == a.format && x.bits is Some;
    let kin = peers.filter(q);
    lemma_filter_members(peers, q);
    lemma_deepest(kin);
    assert forall|x: int| 0 <= x < peers.len() implies !betters(#[trigger] peers[x], b) by {
        if betters(peers[x], b) {
            assert(peers.contains(peers[x]) && q(peers[x]));
            assert(kin.contains(peers[x]));
            let t = deepest(kin)->0;
            let k = kin.index_of(peers[x]);
            assert(depth(kin[k]) <= depth(t));
            assert(kin.contains(t));
            let y = peers.index_of(t);
            assert(peers[y] == t && q(t));
            if t.id@ != a.id@ {
                assert(betters(t, a));
                assert(rivals.contains(t)) by {
                    assert(peers.contains(t) && p(t));
                }
                let z = rivals.index_of(t);
                assert(depth(rivals[z]) <= depth(b));
            } else {
                redundant_means_bettered_in_its_own_format(t, peers);
                assert forall|w: int| 0 <= w < peers.len() implies !betters(
                    #[trigger] peers[w],
                    t,
                ) by {
                    if betters(peers[w], t) {
                        assert(peers.contains(peers[w]) && q(peers[w]));
                        assert(kin.contains(peers[w]));
                        let v = kin.index_of(peers[w]);
                        assert(depth(kin[v]) <= depth(t));
                    }
                }
                assert(stands(peers[y], peers));
                assert(spared(groups, a, peers));
            }
        }
    }
    redundant_means_bettered_in_its_own_format(b, peers);
    assert(stands(peers[j], peers));
    j
}

/// The survivor guarantee: for every build that is superseded, the strictly
/// better build of the same format that it is superseded by stays.
pub proof fn a_better_build_always_survives(
    groups: Seq<Seq<ArtifactId>>,
    peers: Seq<Artifact>,
    i: int,
) -> (j: int)
    requires
        0 <= i < peers.len(),
        succession(groups, peers[i], peers) is Some,
    ensures
        0 <= j < peers.len(),
        succession(groups, peers[i], peers) == Some((peers[i].id, peers[j].id)),
        betters(peers[j], peers[i]),
        !has_artifact(whole(groups, peers), peers[j].id@),
{
    let j = lemma_the_better_stands(groups, peers, i);
    let b = peers[j];
    let goes = going(groups, peers);
    let gone = |x: Artifact| succession(groups, x, peers) is Some;
    let left = |x: Artifact| dangling(groups, goes, x);
    lemma_filter_members(peers, gone);
    lemma_filter_members(peers, left);
    if has_artifact(whole(groups, peers), b.id@) {
        let w = whole(groups, peers);
        let k = choose|k: int| 0 <= k < w.len() && (#[trigger] w[k]).id@ == b.id@;
        if k < goes.len() {
            assert(w[k] == goes[k]);
            assert(gone(goes[k]));
            assert(spared(groups, w[k], peers)) by {
                assert(stands(peers[j], peers) && peers[j].id@ == w[k].id@);
            }
        } else {
            assert(w[k] == peers.filter(left)[k - goes.len()]);
            assert(left(w[k]));
            let g = choose|g: int|
                0 <= g < goes.len() && holds(aliases(groups, (#[trigger] goes[g]).id@), w[k].id@);
            assert(gone(goes[g]));
            assert(spared(groups, goes[g], peers)) by {
                assert(stands(peers[j], peers) && holds(
                    aliases(groups, goes[g].id@),
                    peers[j].id@,
                ));
            }
        }
    }
    j
}

/// Whether removing an artifact is a step of a share.
pub open spec fn removes(s: Share, id: Seq<char>) -> bool {
    exists|k: int| 0 <= k < s.plan.steps.len() && (#[trigger] s.plan.steps[k]).id@ == id
}

/// The steps of a share are about what goes of its model.
proof fn lemma_steps_go(
    artifacts: Seq<Artifact>,
    groups: Seq<Seq<ArtifactId>>,
    edges: Seq<Edge>,
    m: Family,
    id: Seq<char>,
)
    requires
        share_of(artifacts, groups, edges, m) is Some,
        removes(share_of(artifacts, groups, edges, m)->0, id),
    ensures
        has_artifact(whole(groups, peers_of(artifacts, m.ids)), id),
        holds(m.ids, id),
{
    let peers = peers_of(artifacts, m.ids);
    let w = whole(groups, peers);
    let steps = share_of(artifacts, groups, edges, m)->0.plan.steps;
    let k = choose|k: int| 0 <= k < steps.len() && (#[trigger] steps[k]).id@ == id;
    let x = lemma_step_source(w, k);
    assert(w[x].id@ == id);
    let goes = going(groups, peers);
    let left = |a: Artifact| dangling(groups, goes, a);
    lemma_filter_members(peers, |a: Artifact| succession(groups, a, peers) is Some);
    lemma_filter_members(peers, left);
    lemma_filter_members(artifacts, |a: Artifact| holds(m.ids, a.id@));
    assert(peers.contains(w[x])) by {
        if x < goes.len() {
            assert(w[x] == goes[x]);
        } else {
            assert(w[x] == peers.filter(left)[x - goes.len()]);
        }
    }
    let y = peers.index_of(w[x]);
    assert(peers[y] == w[x]);
}

/// The survivor guarantee, over everything a clean would do: every pair it
/// reports is of a build and a strictly better one of the same format, and
/// removing the better one is a step of no model's plan.
pub proof fn a_clean_leaves_a_better_build(
    artifacts: Seq<Artifact>,
    groups: Seq<Seq<ArtifactId>>,
    edges: Seq<Edge>,
    m: int,
    k: int,
    n: int,
) -> (pair: (int, int))
    requires
        ids_distinct(artifacts),
        0 <= m < unified(grouped(artifacts), groups).len(),
        share_of(artifacts, groups, edges, unified(grouped(artifacts), groups)[m]) is Some,
        0 <= k < share_of(
            artifacts,
            groups,
            edges,
            unified(grouped(artifacts), groups)[m],
        )->0.superseded.len(),
        0 <= n < unified(grouped(artifacts), groups).len(),
    ensures
        0 <= pair.0 < artifacts.len(),
        0 <= pair.1 < artifacts.len(),
        share_of(
            artifacts,
            groups,
            edges,
            unified(grouped(artifacts), groups)[m],
        )->0.superseded[k] == (artifacts[pair.0].id, artifacts[pair.1].id),
        betters(artifacts[pair.1], artifacts[pair.0]),
        share_of(artifacts, groups, edges, unified(grouped(artifacts), groups)[n]) matches Some(s)
            ==> !removes(s, artifacts[pair.1].id@),
{
    let models = unified(grouped(artifacts), groups);
    let peers = peers_of(artifacts, models[m].ids);
    lemma_filter_members(artifacts, |a: Artifact| holds(models[m].ids, a.id@));
    let f = |a: Artifact| succession(groups, a, peers);
    lemma_filter_map_members(peers, f);
    let i = choose|i: int|
        0 <= i < peers.len() && f(#[trigger] peers[i]) == Some(#[trigger] peers.filter_map(f)[k]);
    let j = a_better_build_always_survives(groups, peers, i);
    let x = artifacts.index_of(peers[i]);
    let y = artifacts.index_of(peers[j]);
    assert(artifacts[x] == peers[i] && artifacts[y] == peers[j]);
    assert(holds(models[m].ids, artifacts[y].id@));
    let other = share_of(artifacts, groups, edges, models[n]);
    if other is Some && removes(other->0, artifacts[y].id@) {
        lemma_steps_go(artifacts, groups, edges, models[n], artifacts[y].id@);
        an_artifact_has_one_model(artifacts, groups, artifacts[y].id@, m, n);
    }
    (x, y)
}

/// The unit of refusal is one model: what a model would give up goes exactly
/// when nothing it holds is required, whatever stands in the way of others.
pub proof fn a_refusal_skips_one_model(all: Seq<Share>, s: Share)
    requires
        all.contains(s),
    ensures
        executable(all).contains(s) <==> !is_refused(s),
        refused_shares(all).contains(s) <==> is_refused(s),
{
    let good = |s: Share| !is_refused(s);
    let bad = |s: Share| is_refused(s);
    lemma_filter_members(all, good);
    lemma_filter_members(all, bad);
    lemma_stable_sort_contains(
        all.filter(good),
        |a: Share, b: Share| a.plan.reclaims >= b.plan.reclaims,
        s,
    );
    lemma_stable_sort_contains(
        all.filter(bad),
        |a: Share, b: Share| text_le(a.model, b.model),
        s,
    );
}

} // verus!
