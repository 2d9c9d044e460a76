//! The Hugging Face cache.
use vstd::prelude::*;

use super::{hinted, rehint};
use crate::inventory::artifact::Artifact;
use crate::paths::{below, components, file_name, name_of, parts, strip_base};
use crate::seqs::lemma_filter_take;
use crate::text::{
    after_prefix, cat3, contains, cut_first, has, opt_text, same, split_once, strip_prefix, texts,
};

verus! {

/// The Hugging Face cache.
#[derive(Debug, Clone, Copy, PartialEq, Eq, Structural)]
pub struct HfCache;

/// The repo a cache directory is for.
pub open spec fn repo_id(dir: Seq<char>) -> Option<Seq<char>> {
    match after_prefix(dir, "models--"@) {
        Some(rest) => match cut_first(rest, "--"@) {
            Some((org, name)) => Some(org + "/"@ + name),
            None => None,
        },
        None => None,
    }
}

/// `models--BAAI--bge-small-en-v1.5` -> `BAAI/bge-small-en-v1.5`.
///
/// Only `models--` prefixed directories; `datasets--` and `CACHEDIR.TAG` are
/// not model repos.
pub fn repo_id_from_dir(dir_name: &str) -> (r: Option<String>)
    ensures
        opt_text(r) == repo_id(dir_name@),
{
    match strip_prefix(dir_name, "models--") {
        Some(rest) => match split_once(rest.as_str(), "--") {
            Some((org, name)) => Some(cat3(org.as_str(), "/", name.as_str())),
            None => None,
        },
        None => None,
    }
}

/// The repo a path under the cache belongs to.
pub open spec fn repo_at(root: Seq<char>, path: Seq<char>) -> Option<Seq<char>> {
    match below(path, root) {
        Some(names) => if names.len() > 0 {
            repo_id(names[0])
        } else {
            None
        },
        None => None,
    }
}

fn repo_of(root: &str, path: &str) -> (r: Option<String>)
    ensures
        opt_text(r) == repo_at(root@, path@),
{
    match strip_base(path, root) {
        Some(names) => {
            if names.len() > 0 {
                proof {
                    assert(texts(names@)[0] == names@[0]@);
                }
                repo_id_from_dir(names[0].as_str())
            } else {
                None
            }
        },
        None => None,
    }
}

/// Whether a file is part of a model and not the cache's own bookkeeping.
pub open spec fn kept(root: Seq<char>, path: Seq<char>) -> bool {
    &&& repo_at(root, path) is Some
    &&& !parts(path).contains("refs"@)
    &&& !(has(path, ".lock"@))
    &&& name_of(path) != Some("CACHEDIR.TAG"@)
}

fn has_part(path: &str, name: &str) -> (r: bool)
    ensures
        r == parts(path@).contains(name@),
{
    let names = components(path);
    let mut i: usize = 0;
    while i < names.len()
        invariant
            i <= names@.len(),
            texts(names@) == parts(path@),
            forall|k: int| 0 <= k < i ==> #[trigger] parts(path@)[k] != name@,
        decreases names.len() - i,
    {
        proof {
            assert(parts(path@)[i as int] == names@[i as int]@);
        }
        if same(names[i].as_str(), name) {
            return true;
        }
        i += 1;
    }
    false
}

fn is_kept(root: &str, path: &str) -> (r: bool)
    ensures
        r == kept(root@, path@),
{
    let is_tag = match file_name(path) {
        Some(n) => same(n.as_str(), "CACHEDIR.TAG"),
        None => false,
    };
    repo_of(root, path).is_some() && !has_part(path, "refs") && !contains(path, ".lock") && !is_tag
}

/// The files of models that a walk of the cache found.
pub open spec fn model_files(root: Seq<char>, found: Seq<Artifact>) -> Seq<Artifact> {
    found.filter(|a: Artifact| kept(root, a.path@))
}

impl HfCache {
    /// The artifacts of the cache, from the files found under its root.
    ///
    /// `refs/<branch>` holds a commit sha, `CACHEDIR.TAG` marks the cache root,
    /// and locks are zero-byte files: none is a model artifact. Each one that is
    /// gets its repo id for a name, so identity has more than a blob hash to work
    /// with.
    pub fn scan(root: &str, found: &[Artifact]) -> (r: Vec<Artifact>)
        ensures
            r@.len() == model_files(root@, found@).len(),
            forall|i: int|
                0 <= i < r@.len() ==> hinted(
                    model_files(root@, found@)[i],
                    #[trigger] r@[i],
                    repo_at(root@, model_files(root@, found@)[i].path@),
                ),
    {
        let ghost p = |a: Artifact| kept(root@, a.path@);
        let mut out: Vec<Artifact> = Vec::new();
        let mut i: usize = 0;
        while i < found.len()
            invariant
                i <= found@.len(),
                p == (|a: Artifact| kept(root@, a.path@)),
                out@.len() == found@.take(i as int).filter(p).len(),
                forall|k: int|
                    0 <= k < out@.len() ==> hinted(
                        found@.take(i as int).filter(p)[k],
                        #[trigger] out@[k],
                        repo_at(root@, found@.take(i as int).filter(p)[k].path@),
                    ),
            decreases found.len() - i,
        {
            proof {
                lemma_filter_take(found@, p, i as int);
            }
            let path = found[i].path.as_str();
            if is_kept(root, path) {
                out.push(rehint(&found[i], repo_of(root, path)));
            }
            i += 1;
        }
        proof {
            assert(found@.take(i as int) =~= found@);
        }
        out
    }
}

} // verus!
