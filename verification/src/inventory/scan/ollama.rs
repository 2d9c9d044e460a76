//! Ollama's manifests and blobs.
use vstd::prelude::*;

use crate::inventory::artifact::{Artifact, FileKey, Format, Store};
use crate::json::{as_items, as_text, as_unsigned, document, field, tree, trees, Json, Tree};
use crate::paths::{below, join, strip_base, under};
use crate::seqs::{first_match, lemma_first_index_is};
use crate::text::{cat2, cat3, replace, replaced, same, texts};

verus! {

/// Ollama's models: manifests that name blobs.
#[derive(Debug, Clone, Copy, PartialEq, Eq, Structural)]
pub struct OllamaStore;

#[derive(Debug, PartialEq, Eq)]
pub struct Manifest {
    pub model_digest: String,
    pub bytes: u64,
}

pub const MODEL_MEDIA_TYPE: &'static str = "application/vnd.ollama.image.model";

/// Whether a layer holds weights.
pub open spec fn is_model_layer(layer: Tree) -> bool {
    as_text(field(layer, "mediaType"@)) == Some("application/vnd.ollama.image.model"@)
}

/// The weights a manifest points at: their digest and their size.
pub open spec fn weights_in(manifest: Tree) -> Option<(Seq<char>, u64)> {
    match as_items(field(manifest, "layers"@)) {
        Some(layers) => match first_match(layers, |l: Tree| is_model_layer(l)) {
            Some(l) => match as_text(field(l, "digest"@)) {
                Some(d) => Some(
                    (
                        d,
                        match as_unsigned(field(l, "size"@)) {
                            Some(n) => n,
                            None => 0,
                        },
                    ),
                ),
                None => None,
            },
            None => None,
        },
        None => None,
    }
}

pub open spec fn manifest_text(m: Option<Manifest>) -> Option<(Seq<char>, u64)> {
    match m {
        Some(x) => Some((x.model_digest@, x.bytes)),
        None => None,
    }
}

/// The weights a manifest points at.
///
/// Ollama uses an OCI-style manifest. Only the `image.model` layer is weights;
/// the `license` and `params` layers are metadata and must not be counted as
/// model bytes.
pub fn manifest_of(v: &Json) -> (r: Option<Manifest>)
    ensures
        manifest_text(r) == weights_in(tree(*v)),
{
    let layers = match crate::json::items_of(v.get("layers")) {
        Some(l) => l,
        None => {
            return None;
        },
    };
    let ghost p = |l: Tree| is_model_layer(l);
    let mut i: usize = 0;
    while i < layers.len()
        invariant
            i <= layers@.len(),
            p == (|l: Tree| is_model_layer(l)),
            as_items(field(tree(*v), "layers"@)) == Some(trees(layers@)),
            forall|k: int| 0 <= k < i ==> !p(#[trigger] trees(layers@)[k]),
        decreases layers.len() - i,
    {
        let layer = &layers[i];
        proof {
            assert(trees(layers@)[i as int] == tree(*layer));
        }
        let is_model = match crate::json::text_of(layer.get("mediaType")) {
            Some(t) => same(t.as_str(), "application/vnd.ollama.image.model"),
            None => false,
        };
        if is_model {
            proof {
                lemma_first_index_is(trees(layers@), p, i as int);
            }
            return match crate::json::text_of(layer.get("digest")) {
                Some(d) => Some(
                    Manifest {
                        model_digest: d.clone(),
                        bytes: match crate::json::unsigned_of(layer.get("size")) {
                            Some(n) => n,
                            None => 0,
                        },
                    },
                ),
                None => None,
            };
        }
        i += 1;
    }
    proof {
        lemma_first_index_is(trees(layers@), p, i as int);
    }
    None
}

/// The weights that the text of a manifest points at.
pub fn parse_manifest(json: &str) -> (r: Option<Manifest>)
    ensures
        manifest_text(r) == match document(json@) {
            Ok(t) => weights_in(t),
            Err(_) => None,
        },
{
    match Json::read(json) {
        Ok(v) => manifest_of(&v),
        Err(_) => None,
    }
}

/// Where a digest's bytes lie.
pub open spec fn blob(root: Seq<char>, digest: Seq<char>) -> Seq<char> {
    under(under(root, "blobs"@), replaced(digest, ":"@, "-"@))
}

/// `sha256:abcd` -> `<root>/blobs/sha256-abcd`
pub fn blob_path(root: &str, digest: &str) -> (r: String)
    ensures
        r@ == blob(root@, digest@),
{
    proof {
        reveal_strlit(":");
    }
    join(join(root, "blobs").as_str(), replace(digest, ":", "-").as_str())
}

/// The tag a manifest's path stands for: its last two components.
pub open spec fn tag_at(manifests: Seq<char>, path: Seq<char>) -> Option<Seq<char>> {
    match below(path, manifests) {
        Some(names) => if names.len() >= 2 {
            Some(names[names.len() - 2] + ":"@ + names.last())
        } else {
            None
        },
        None => None,
    }
}

/// `registry.ollama.ai/library/nomic-embed-text/latest` ->
/// `nomic-embed-text:latest`
pub fn tag_of(manifests: &str, path: &str) -> (r: Option<String>)
    ensures
        crate::text::opt_text(r) == tag_at(manifests@, path@),
{
    match strip_base(path, manifests) {
        Some(names) => {
            let n = names.len();
            if n >= 2 {
                proof {
                    assert(texts(names@)[n - 2] == names@[n - 2]@);
                    assert(texts(names@).last() == names@[n - 1]@);
                }
                Some(cat3(names[n - 2].as_str(), ":", names[n - 1].as_str()))
            } else {
                None
            }
        },
        None => None,
    }
}

/// What one manifest file gives: its tag, and the weights it points at.
pub open spec fn listed(manifests: Seq<char>, e: (String, String)) -> Option<
    (Seq<char>, (Seq<char>, u64)),
> {
    match document(e.1@) {
        Ok(t) => match (weights_in(t), tag_at(manifests, e.0@)) {
            (Some(w), Some(tag)) => Some((tag, w)),
            _ => None,
        },
        Err(_) => None,
    }
}

pub open spec fn entry_text(e: (String, Manifest)) -> (Seq<char>, (Seq<char>, u64)) {
    (e.0@, (e.1.model_digest@, e.1.bytes))
}

pub open spec fn entry_texts(v: Seq<(String, Manifest)>) -> Seq<(Seq<char>, (Seq<char>, u64))> {
    v.map_values(|e: (String, Manifest)| entry_text(e))
}

impl OllamaStore {
    /// Every tag that manifest files give, from each file's path and text, in
    /// the order of the files. A file that is no manifest gives none.
    pub fn entries(manifests: &str, read: &[(String, String)]) -> (r: Vec<(String, Manifest)>)
        ensures
            entry_texts(r@) == read@.filter_map(|e: (String, String)| listed(manifests@, e)),
    {
        let ghost f = |e: (String, String)| listed(manifests@, e);
        let mut out: Vec<(String, Manifest)> = Vec::new();
        let mut i: usize = 0;
        proof {
            assert(read@.take(0).filter_map(f) =~= Seq::empty());
            assert(entry_texts(out@) =~= Seq::empty());
        }
        while i < read.len()
            invariant
                i <= read@.len(),
                f == (|e: (String, String)| listed(manifests@, e)),
                entry_texts(out@) == read@.take(i as int).filter_map(f),
            decreases read.len() - i,
        {
            proof {
                read@.lemma_filter_map_take_succ(f, i as int);
            }
            let ghost was = out@;
            if let Some(m) = parse_manifest(read[i].1.as_str()) {
                if let Some(tag) = tag_of(manifests, read[i].0.as_str()) {
                    let ghost one = (tag, m);
                    out.push((tag, m));
                    proof {
                        assert(entry_texts(out@) =~= entry_texts(was).push(entry_text(one)));
                    }
                }
            }
            proof {
                assert(entry_texts(out@) =~= read@.take(i + 1).filter_map(f));
            }
            i += 1;
        }
        proof {
            assert(read@.take(i as int) =~= read@);
        }
        out
    }
}

/// The artifact of one tag: it points at the blob its manifest references. Two
/// tags that share a digest share an allocation, so counting each allocation
/// once needs nothing of its own here.
pub fn tagged(root: &str, tag: String, m: &Manifest, key: Option<FileKey>) -> (a: Artifact)
    ensures
        a.id@ == "ollama:"@ + tag@,
        a.path@ == blob(root@, m.model_digest@),
        a.store == Store::Ollama,
        a.format == Format::Gguf,
        a.bits is None,
        a.bytes == m.bytes,
        a.key == key,
        !a.is_link,
        a.name_hint == tag,
{
    Artifact {
        id: cat2("ollama:", tag.as_str()),
        path: blob_path(root, m.model_digest.as_str()),
        store: Store::Ollama,
        format: Format::Gguf,
        bits: None,
        bytes: m.bytes,
        key,
        is_link: false,
        name_hint: tag,
    }
}

} // verus!
