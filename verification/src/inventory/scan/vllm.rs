//! vLLM-MLX's model directory and its registry.
use vstd::prelude::*;

use super::{hinted, rehint};
use crate::inventory::artifact::Artifact;
use crate::paths::{below, strip_base};
use crate::text::{opt_text, texts};
use crate::yaml::{entry, items, shape, shapes, word, yaml_document, Shape, Yaml};

verus! {

/// vLLM-MLX's models, one directory each, and the registry beside them.
#[derive(Debug, Clone, Copy, PartialEq, Eq, Structural)]
pub struct VllmStore;

#[derive(Debug, PartialEq, Eq)]
pub struct RegistryEntry {
    pub name: String,
    pub path: String,
}

/// An entry, in texts: its name and its path.
pub open spec fn entry_text(e: RegistryEntry) -> (Seq<char>, Seq<char>) {
    (e.name@, e.path@)
}

/// The entries, in texts.
pub open spec fn entry_texts(v: Seq<RegistryEntry>) -> Seq<(Seq<char>, Seq<char>)> {
    v.map_values(|e: RegistryEntry| entry_text(e))
}

/// A listed model, where it has both a name and a path.
pub open spec fn listed(m: Shape) -> Option<(Seq<char>, Seq<char>)> {
    match (word(entry(m, "name"@)), word(entry(m, "path"@))) {
        (Some(name), Some(path)) => Some((name, path)),
        _ => None,
    }
}

/// The models a registry document lists.
pub open spec fn registered(document: Option<Shape>) -> Seq<(Seq<char>, Seq<char>)> {
    match document {
        Some(s) => match items(entry(s, "models"@)) {
            Some(v) => v.filter_map(|m: Shape| listed(m)),
            None => Seq::empty(),
        },
        None => Seq::empty(),
    }
}

fn read_entry(m: &Yaml) -> (r: Option<RegistryEntry>)
    ensures
        match r {
            Some(e) => listed(shape(*m)) == Some(entry_text(e)),
            None => listed(shape(*m)) is None,
        },
{
    let name = match m.get("name") {
        Some(y) => y.as_str(),
        None => None,
    };
    let path = match m.get("path") {
        Some(y) => y.as_str(),
        None => None,
    };
    match (name, path) {
        (Some(n), Some(p)) => Some(RegistryEntry { name: n.clone(), path: p.clone() }),
        _ => None,
    }
}

/// The models that a registry document lists.
pub fn entries_of(document: &Yaml) -> (r: Vec<RegistryEntry>)
    ensures
        entry_texts(r@) == registered(Some(shape(*document))),
{
    let mut out: Vec<RegistryEntry> = Vec::new();
    let models = match document.get("models") {
        Some(y) => match y.as_sequence() {
            Some(v) => v,
            None => {
                proof {
                    assert(entry_texts(out@) =~= Seq::empty());
                }
                return out;
            },
        },
        None => {
            proof {
                assert(entry_texts(out@) =~= Seq::empty());
            }
            return out;
        },
    };
    let ghost f = |m: Shape| listed(m);
    let mut i: usize = 0;
    proof {
        assert(shapes(models@).take(0).filter_map(f) =~= Seq::empty());
        assert(entry_texts(out@) =~= Seq::empty());
    }
    while i < models.len()
        invariant
            i <= models@.len(),
            f == (|m: Shape| listed(m)),
            entry_texts(out@) == shapes(models@).take(i as int).filter_map(f),
        decreases models.len() - i,
    {
        proof {
            shapes(models@).lemma_filter_map_take_succ(f, i as int);
            assert(shapes(models@)[i as int] == shape(models@[i as int]));
        }
        let ghost was = out@;
        if let Some(e) = read_entry(&models[i]) {
            out.push(e);
            proof {
                assert(entry_texts(out@) =~= entry_texts(was).push(entry_text(e)));
            }
        }
        proof {
            assert(entry_texts(out@) =~= shapes(models@).take(i + 1).filter_map(f));
        }
        i += 1;
    }
    proof {
        assert(shapes(models@).take(i as int) =~= shapes(models@));
    }
    out
}

/// `models.yaml` names what the pool will serve. A name here is a dependency:
/// a stale path is a startup failure.
///
/// Note `path:` is not tilde-expanded by vllm-mlx itself: a leading `~` is
/// read as part of a Hugging Face repo id. What is recorded is what is written.
pub fn parse_registry(yaml: &str) -> (r: Vec<RegistryEntry>)
    ensures
        entry_texts(r@) == registered(yaml_document(yaml@)),
{
    match Yaml::read(yaml) {
        Some(document) => entries_of(&document),
        None => {
            let out: Vec<RegistryEntry> = Vec::new();
            proof {
                assert(entry_texts(out@) =~= Seq::empty());
            }
            out
        },
    }
}

/// The model directory a path lies in: its first component below the models.
pub open spec fn model_at(models_root: Seq<char>, path: Seq<char>) -> Option<Seq<char>> {
    match below(path, models_root) {
        Some(names) => if names.len() > 0 {
            Some(names[0])
        } else {
            None
        },
        None => None,
    }
}

fn model_dir(models_root: &str, path: &str) -> (r: Option<String>)
    ensures
        opt_text(r) == model_at(models_root@, path@),
{
    match strip_base(path, models_root) {
        Some(names) => {
            if names.len() > 0 {
                proof {
                    assert(texts(names@)[0] == names@[0]@);
                }
                Some(names[0].clone())
            } else {
                None
            }
        },
        None => None,
    }
}

impl VllmStore {
    /// The artifacts of the store, from the files found under its models.
    ///
    /// Only the directory of models is looked at: the store's root also holds the
    /// programs that serve them, none of which are artifacts.
    pub fn scan(models_root: &str, found: &[Artifact]) -> (r: Vec<Artifact>)
        ensures
            r@.len() == found@.len(),
            forall|i: int|
                0 <= i < r@.len() ==> hinted(
                    found@[i],
                    #[trigger] r@[i],
                    model_at(models_root@, found@[i].path@),
                ),
    {
        let mut out: Vec<Artifact> = Vec::new();
        let mut i: usize = 0;
        while i < found.len()
            invariant
                i <= found@.len(),
                out@.len() == i,
                forall|k: int|
                    0 <= k < i ==> hinted(
                        found@[k],
                        #[trigger] out@[k],
                        model_at(models_root@, found@[k].path@),
                    ),
            decreases found.len() - i,
        {
            out.push(rehint(&found[i], model_dir(models_root, found[i].path.as_str())));
            i += 1;
        }
        out
    }
}

} // verus!
