//! llama.cpp's router: loads on first request and evicts at its own ceiling.
use vstd::prelude::*;

use crate::json::{
    as_items, as_text, dig, field, items_of, text_of, then_field, tree, trees, Json, Tree,
};
use crate::provider::{LoadedModel, ProbeError, ProviderKind, State};
use crate::seqs::{first_index, lemma_filter_take, lemma_first_index_is};
use crate::text::{opt_text, same};

verus! {

/// llama.cpp's router: a listing, and nothing to act with.
#[derive(Debug, Clone, Copy, PartialEq, Eq, Structural)]
pub struct LlamaCpp;

/// Whether an entry carries a `status`.
pub open spec fn has_status(t: Tree) -> bool {
    field(t, "status"@) is Some
}

/// Whether a document is this router's listing. Three servers answer the same
/// path, and only this one attaches a `status` to an entry.
pub open spec fn is_listing(t: Tree) -> bool {
    as_items(field(t, "data"@)) matches Some(items) && items.any(|x: Tree| has_status(x))
}

pub open spec fn state_of(t: Tree) -> State {
    let s = as_text(then_field(field(t, "status"@), "value"@));
    if s == Some("loaded"@) {
        State::Loaded
    } else if s == Some("loading"@) || s == Some("starting"@) {
        State::Loading
    } else {
        State::NotLoaded
    }
}

/// Whether an argument is the one a path follows.
pub open spec fn is_model_flag(t: Tree) -> bool {
    as_text(Some(t)) == Some("--model"@)
}

/// The path behind `--model` in a command line.
pub open spec fn path_in(args: Seq<Tree>) -> Option<Seq<char>> {
    let i = first_index(args, |t: Tree| is_model_flag(t));
    if i + 1 < args.len() {
        as_text(Some(args[i + 1]))
    } else {
        None
    }
}

/// The path the router will serve an entry from.
pub open spec fn path_of(t: Tree) -> Option<Seq<char>> {
    match as_items(then_field(field(t, "status"@), "args"@)) {
        Some(args) => path_in(args),
        None => None,
    }
}

/// The path the router will serve this entry from: `status.args` is the full
/// command line, and `--model <path>` is in it whether or not the model is
/// resident.
pub fn model_arg(m: &Json) -> (r: Option<String>)
    ensures
        opt_text(r) == path_of(tree(*m)),
{
    let args = match items_of(dig(m.get("status"), "args")) {
        Some(a) => a,
        None => {
            return None;
        },
    };
    let ghost all = trees(args@);
    let ghost p = |t: Tree| is_model_flag(t);
    let mut i: usize = 0;
    while i < args.len()
        invariant
            i <= args@.len(),
            all == trees(args@),
            p == (|t: Tree| is_model_flag(t)),
            forall|k: int| 0 <= k < i ==> !p(#[trigger] all[k]),
            as_items(then_field(field(tree(*m), "status"@), "args"@)) == Some(all),
        decreases args.len() - i,
    {
        proof {
            assert(all[i as int] == tree(args@[i as int]));
        }
        let flag = match text_of(Some(&args[i])) {
            Some(s) => same(s.as_str(), "--model"),
            None => false,
        };
        if flag {
            proof {
                lemma_first_index_is(all, p, i as int);
            }
            if i + 1 < args.len() {
                proof {
                    assert(all[i + 1] == tree(args@[i + 1]));
                }
                return text_of(Some(&args[i + 1]));
            }
            return None;
        }
        i += 1;
    }
    proof {
        lemma_first_index_is(all, p, all.len() as int);
    }
    None
}

/// Whether an entry names a model.
pub open spec fn names_model(t: Tree) -> bool {
    as_text(field(t, "id"@)) is Some
}

/// What an entry says. This server publishes neither a window nor a size.
pub open spec fn says(m: LoadedModel, t: Tree) -> bool {
    &&& as_text(field(t, "id"@)) == Some(m.id@)
    &&& m.state == state_of(t)
    &&& m.context_tokens is None
    &&& m.weights_bytes is None
    &&& m.expires_at_unix is None
    &&& m.model_type is None
    &&& opt_text(m.artifact_path) == path_of(t)
}

/// Whether a list of models is what the entries that name one say, in order.
pub open spec fn lists(models: Seq<LoadedModel>, items: Seq<Tree>) -> bool {
    let named = items.filter(|t: Tree| names_model(t));
    models.len() == named.len() && forall|i: int|
        0 <= i < models.len() ==> says(#[trigger] models[i], named[i])
}

impl LlamaCpp {
    /// The models a router's listing reports, or that it is not one.
    pub fn list(v: &Json) -> (r: Result<Vec<LoadedModel>, ProbeError>)
        ensures
            match r {
                Ok(models) => is_listing(tree(*v)) && lists(
                    models@,
                    as_items(field(tree(*v), "data"@))->0,
                ),
                Err(e) => !is_listing(tree(*v)) && e == (ProbeError::KindMismatch {
                    expected: ProviderKind::LlamaCpp,
                }),
            },
    {
        let entries = match items_of(v.get("data")) {
            Some(items) => items,
            None => {
                return Err(ProbeError::KindMismatch { expected: ProviderKind::LlamaCpp });
            },
        };
        let ghost items = trees(entries@);
        let ghost p = |t: Tree| names_model(t);
        let ghost q = |t: Tree| has_status(t);
        let mut ours: bool = false;
        let mut out: Vec<LoadedModel> = Vec::new();
        let mut i: usize = 0;
        while i < entries.len()
            invariant
                i <= entries@.len(),
                items == trees(entries@),
                p == (|t: Tree| names_model(t)),
                q == (|t: Tree| has_status(t)),
                ours == exists|k: int| 0 <= k < i && q(#[trigger] items[k]),
                out@.len() == items.take(i as int).filter(p).len(),
                forall|k: int|
                    0 <= k < out@.len() ==> says(
                        #[trigger] out@[k],
                        items.take(i as int).filter(p)[k],
                    ),
            decreases entries.len() - i,
        {
            let m = &entries[i];
            proof {
                lemma_filter_take(items, p, i as int);
                assert(items[i as int] == tree(*m));
            }
            if m.get("status").is_some() {
                proof {
                    assert(q(items[i as int]));
                }
                ours = true;
            }
            if let Some(id) = text_of(m.get("id")) {
                let state = match text_of(dig(m.get("status"), "value")) {
                    Some(s) => if same(s.as_str(), "loaded") {
                        State::Loaded
                    } else if same(s.as_str(), "loading") || same(s.as_str(), "starting") {
                        State::Loading
                    } else {
                        State::NotLoaded
                    },
                    None => State::NotLoaded,
                };
                out.push(
                    LoadedModel {
                        id,
                        state,
                        context_tokens: None,
                        weights_bytes: None,
                        expires_at_unix: None,
                        model_type: None,
                        artifact_path: model_arg(m),
                    },
                );
            }
            i += 1;
        }
        proof {
            assert(items.take(i as int) =~= items);
        }
        if ours {
            Ok(out)
        } else {
            Err(ProbeError::KindMismatch { expected: ProviderKind::LlamaCpp })
        }
    }
}

} // verus!
