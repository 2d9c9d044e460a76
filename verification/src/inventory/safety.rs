//! What deleting an artifact would cost.
use vstd::prelude::*;

use crate::inventory::artifact::{Artifact, ArtifactId, Format, Quant, Store};
use crate::seqs::{lemma_filter_members, lemma_filter_take};
use crate::text::same;

verus! {

/// Three kinds of "safe to delete", which are not the same risk.
#[derive(Debug, PartialEq, Eq)]
pub enum Safety {
    /// A better artifact of the same model, same format, exists locally.
    Redundant { better: ArtifactId },
    /// Deleting costs a re-download or a re-convert, and the recipe is known.
    Reproducible { how: String },
    /// The only local copy of something that cannot be rebuilt from what
    /// remains. Never auto-selected.
    Irreplaceable { why: String },
}

/// A kind of safety, in texts.
#[verifier::ext_equal]
pub enum Risk {
    Redundant { better: ArtifactId },
    Reproducible { how: Seq<char> },
    Irreplaceable { why: Seq<char> },
}

pub open spec fn risk(s: Safety) -> Risk {
    match s {
        Safety::Redundant { better } => Risk::Redundant { better },
        Safety::Reproducible { how } => Risk::Reproducible { how: how@ },
        Safety::Irreplaceable { why } => Risk::Irreplaceable { why: why@ },
    }
}

/// Whether `p` is a strictly better build of `a`'s own format.
pub open spec fn betters(p: Artifact, a: Artifact) -> bool {
    &&& p.id@ != a.id@
    &&& p.format == a.format
    &&& a.format == Format::Gguf || a.format == Format::Mlx
    &&& match (a.bits, p.bits) {
        (Some(x), Some(y)) => y > x,
        _ => false,
    }
}

/// The depth of a build, nothing when it says none.
pub open spec fn depth(a: Artifact) -> int {
    match a.bits {
        Some(b) => b as int,
        None => -1,
    }
}

/// The last of the deepest builds.
pub open spec fn deepest(s: Seq<Artifact>) -> Option<Artifact>
    decreases s.len(),
{
    if s.len() == 0 {
        None
    } else {
        match deepest(s.drop_last()) {
            Some(a) if depth(a) > depth(s.last()) => Some(a),
            _ => Some(s.last()),
        }
    }
}

/// The build that makes `a` redundant, where one does.
pub open spec fn superior(a: Artifact, peers: Seq<Artifact>) -> Option<Artifact> {
    deepest(peers.filter(|p: Artifact| betters(p, a)))
}

/// Whether an artifact can be downloaded again.
pub open spec fn is_source(a: Artifact) -> bool {
    a.store == Store::HfCache || a.format == Format::Safetensors(Quant::Bf16)
}

/// What deleting `a` would cost, given its peers.
pub open spec fn classified(a: Artifact, peers: Seq<Artifact>) -> Risk {
    match superior(a, peers) {
        Some(b) => Risk::Redundant { better: b.id },
        None => if is_source(a) {
            Risk::Reproducible { how: "re-download from Hugging Face"@ }
        } else if exists|i: int| 0 <= i < peers.len() && is_source(#[trigger] peers[i]) {
            Risk::Reproducible { how: "re-convert from the local source"@ }
        } else {
            Risk::Irreplaceable {
                why: "no local source to rebuild from, and no better build of this format"@,
            }
        },
    }
}

fn source(a: &Artifact) -> (r: bool)
    ensures
        r == is_source(*a),
{
    a.store == Store::HfCache || match a.format {
        Format::Safetensors(q) => q == Quant::Bf16,
        _ => false,
    }
}

/// Classify `a` against the artifacts sharing its canonical identity.
///
/// Two rules are encoded here and must not be relaxed: quantisation is one-way
/// (Q4 cannot become Q8), and there is no MLX <-> GGUF path: both descend from
/// the same source and neither derives from the other.
pub fn classify(a: &Artifact, peers: &[Artifact]) -> (r: Safety)
    ensures
        risk(r) == classified(*a, peers@),
{
    let ghost p = |x: Artifact| betters(x, *a);
    let mut best: Option<&Artifact> = None;
    let ghost mut found: Option<Artifact> = None;
    let mut source_present = false;
    let mut i: usize = 0;
    while i < peers.len()
        invariant
            i <= peers@.len(),
            p == (|x: Artifact| betters(x, *a)),
            found == deepest(peers@.take(i as int).filter(p)),
            match best {
                Some(b) => found == Some(*b) && b.bits is Some,
                None => found is None,
            },
            source_present == exists|k: int| 0 <= k < i && is_source(#[trigger] peers@[k]),
        decreases peers.len() - i,
    {
        let x = &peers[i];
        proof {
            lemma_filter_take(peers@, p, i as int);
            let kept = peers@.take(i as int).filter(p);
            assert(kept.push(*x).drop_last() =~= kept);
        }
        let fits = match a.format {
            Format::Gguf => true,
            Format::Mlx => true,
            _ => false,
        };
        if fits && x.format == a.format && !same(x.id.as_str(), a.id.as_str()) {
            if let (Some(have), Some(bits)) = (a.bits, x.bits) {
                if bits > have {
                    let deeper = match best {
                        Some(b) => match b.bits {
                            Some(y) => y > bits,
                            None => false,
                        },
                        None => false,
                    };
                    if !deeper {
                        best = Some(x);
                        proof {
                            found = Some(*x);
                        }
                    }
                }
            }
        }
        if source(x) {
            proof {
                assert(is_source(peers@[i as int]));
            }
            source_present = true;
        }
        i += 1;
    }
    proof {
        assert(peers@.take(i as int) =~= peers@);
    }
    match best {
        Some(b) => Safety::Redundant { better: b.id.clone() },
        None => if source(a) {
            Safety::Reproducible { how: "re-download from Hugging Face".to_owned() }
        } else if source_present {
            Safety::Reproducible { how: "re-convert from the local source".to_owned() }
        } else {
            Safety::Irreplaceable {
                why: "no local source to rebuild from, and no better build of this format".to_owned(),
            }
        },
    }
}

/// What is deepest is one of the builds, and none is deeper.
pub proof fn lemma_deepest(s: Seq<Artifact>)
    ensures
        match deepest(s) {
            Some(a) => s.contains(a) && forall|i: int|
                0 <= i < s.len() ==> depth(#[trigger] s[i]) <= depth(a),
            None => s.len() == 0,
        },
    decreases s.len(),
{
    if s.len() > 0 {
        let t = s.drop_last();
        lemma_deepest(t);
        assert(s[s.len() - 1] == s.last());
        if t.len() > 0 {
            let a = deepest(t)->0;
            let k = t.index_of(a);
            assert(s[k] == a);
            assert forall|i: int| 0 <= i < s.len() implies depth(#[trigger] s[i]) <= depth(
                deepest(s)->0,
            ) by {
                if i < t.len() {
                    assert(depth(t[i]) <= depth(a));
                }
            }
        }
    }
}

/// A build is redundant exactly when a strictly better one of its own format
/// is among its peers: one of another format never makes it so, and the best
/// of a format never is.
pub proof fn redundant_means_bettered_in_its_own_format(a: Artifact, peers: Seq<Artifact>)
    ensures
        classified(a, peers) is Redundant <==> exists|i: int|
            0 <= i < peers.len() && betters(#[trigger] peers[i], a),
        classified(a, peers) matches Risk::Redundant { better } ==> exists|i: int|
            0 <= i < peers.len() && betters(#[trigger] peers[i], a) && peers[i].id == better,
{
    let p = |x: Artifact| betters(x, a);
    let s = peers.filter(p);
    lemma_filter_members(peers, p);
    lemma_deepest(s);
    if let Some(b) = deepest(s) {
        assert(s.contains(b));
        assert(peers.contains(b) && p(b));
        let i = peers.index_of(b);
        assert(betters(peers[i], a));
    } else {
        assert forall|i: int| 0 <= i < peers.len() implies !betters(#[trigger] peers[i], a) by {
            if betters(peers[i], a) {
                assert(peers.contains(peers[i]));
                assert(p(peers[i]));
                assert(s.contains(peers[i]));
            }
        }
    }
}

/// What deleting a build costs follows from what is beside it. It is redundant
/// exactly when another build of its own format, GGUF or MLX, has more bits, and
/// what is named instead is one with the most. Otherwise it is reproducible
/// exactly when it, or a peer, lies in the HF cache or is in full precision, and
/// irreplaceable when neither does: another build is no source to rebuild from.
pub proof fn only_a_source_rebuilds(a: Artifact, peers: Seq<Artifact>)
    ensures
        classified(a, peers) is Redundant <==> (a.format == Format::Gguf || a.format == Format::Mlx)
            && a.bits is Some && exists|i: int|
            0 <= i < peers.len() && (#[trigger] peers[i]).id@ != a.id@ && peers[i].format == a.format
                && peers[i].bits is Some && peers[i].bits->0 > a.bits->0,
        classified(a, peers) matches Risk::Redundant { better } ==> exists|i: int|
            0 <= i < peers.len() && (#[trigger] peers[i]).id == better && better@ != a.id@
                && peers[i].format == a.format && peers[i].bits is Some && peers[i].bits->0
                > a.bits->0 && forall|j: int|
                0 <= j < peers.len() && (#[trigger] peers[j]).id@ != a.id@ && peers[j].format
                    == a.format && peers[j].bits is Some ==> peers[j].bits->0 <= peers[i].bits->0,
        !(classified(a, peers) is Redundant) ==> {
            let own = a.store == Store::HfCache || a.format == Format::Safetensors(Quant::Bf16);
            let near = exists|i: int|
                0 <= i < peers.len() && ((#[trigger] peers[i]).store == Store::HfCache
                    || peers[i].format == Format::Safetensors(Quant::Bf16));
            &&& classified(a, peers) is Reproducible <==> own || near
            &&& classified(a, peers) is Irreplaceable <==> !own && !near
            &&& classified(a, peers) matches Risk::Reproducible { how } ==> how == if own {
                "re-download from Hugging Face"@
            } else {
                "re-convert from the local source"@
            }
        },
{
    let p = |x: Artifact| betters(x, a);
    let s = peers.filter(p);
    redundant_means_bettered_in_its_own_format(a, peers);
    lemma_filter_members(peers, p);
    lemma_deepest(s);
    if classified(a, peers) is Redundant {
        let b = deepest(s)->0;
        assert(peers.contains(b) && p(b));
        let i = peers.index_of(b);
        assert(peers[i] == b);
        assert forall|j: int|
            0 <= j < peers.len() && (#[trigger] peers[j]).id@ != a.id@ && peers[j].format == a.format
                && peers[j].bits is Some implies peers[j].bits->0 <= peers[i].bits->0 by {
            if peers[j].bits->0 > a.bits->0 {
                assert(peers.contains(peers[j]) && p(peers[j]));
                assert(s.contains(peers[j]));
                let k = s.index_of(peers[j]);
                assert(depth(s[k]) <= depth(b));
            }
        }
    } else {
        assert forall|i: int| 0 <= i < peers.len() implies is_source(#[trigger] peers[i]) == (
        peers[i].store == Store::HfCache || peers[i].format == Format::Safetensors(Quant::Bf16)) by {}
    }
    if (a.format == Format::Gguf || a.format == Format::Mlx) && a.bits is Some && exists|i: int|
        0 <= i < peers.len() && (#[trigger] peers[i]).id@ != a.id@ && peers[i].format == a.format
            && peers[i].bits is Some && peers[i].bits->0 > a.bits->0 {
        let i = choose|i: int|
            0 <= i < peers.len() && (#[trigger] peers[i]).id@ != a.id@ && peers[i].format == a.format
                && peers[i].bits is Some && peers[i].bits->0 > a.bits->0;
        assert(betters(peers[i], a));
    }
}

} // verus!
