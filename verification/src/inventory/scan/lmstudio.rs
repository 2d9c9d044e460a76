//! LM Studio's model directory.
use vstd::prelude::*;

use super::{hinted, rehint};
use crate::inventory::artifact::Artifact;
use crate::paths::{below, strip_base};
use crate::text::{cat3, opt_text, texts};

verus! {

/// LM Studio's models, in `publisher/repo` directories.
#[derive(Debug, Clone, Copy, PartialEq, Eq, Structural)]
pub struct LmStudioStore;

/// The publisher and repo of a path: its first two components.
pub open spec fn repo_at(root: Seq<char>, path: Seq<char>) -> Option<Seq<char>> {
    match below(path, root) {
        Some(names) => if names.len() >= 2 {
            Some(names[0] + "/"@ + names[1])
        } else {
            None
        },
        None => None,
    }
}

fn publisher_repo(root: &str, path: &str) -> (r: Option<String>)
    ensures
        opt_text(r) == repo_at(root@, path@),
{
    match strip_base(path, root) {
        Some(names) => {
            if names.len() >= 2 {
                proof {
                    assert(texts(names@)[0] == names@[0]@);
                    assert(texts(names@)[1] == names@[1]@);
                }
                Some(cat3(names[0].as_str(), "/", names[1].as_str()))
            } else {
                None
            }
        },
        None => None,
    }
}

impl LmStudioStore {
    /// The artifacts of the store, from the files found under its root.
    ///
    /// Layout is `{publisher}/{repo}/...`, so the hint is the first two components
    /// rather than the filename: `model.q4_k_m.gguf` alone identifies nothing.
    pub fn scan(root: &str, found: &[Artifact]) -> (r: Vec<Artifact>)
        ensures
            r@.len() == found@.len(),
            forall|i: int|
                0 <= i < r@.len() ==> hinted(
                    found@[i],
                    #[trigger] r@[i],
                    repo_at(root@, found@[i].path@),
                ),
    {
        let mut out: Vec<Artifact> = Vec::new();
        let mut i: usize = 0;
        while i < found.len()
            invariant
                i <= found@.len(),
                out@.len() == i,
                forall|k: int|
                    0 <= k < i ==> hinted(
                        found@[k],
                        #[trigger] out@[k],
                        repo_at(root@, found@[k].path@),
                    ),
            decreases found.len() - i,
        {
            out.push(rehint(&found[i], publisher_repo(root, found[i].path.as_str())));
            i += 1;
        }
        out
    }
}

} // verus!
