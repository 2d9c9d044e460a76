//! vLLM-MLX: `/v1/status` is the only endpoint that reports real residency.
use vstd::prelude::*;

use crate::json::{
    as_double, as_flag, as_items, as_text, dig, double_of, field, flag_of, items_of, text_of,
    then_field, tree, trees, Json, Tree,
};
use crate::provider::{LoadedModel, ProbeError, ProviderKind, State};
use crate::rounding::{gibibytes, gibibytes_to_bytes};
use crate::seqs::lemma_filter_take;
use crate::text::opt_text;

verus! {

/// vLLM-MLX: a status document, and nothing to act with.
#[derive(Debug, Clone, Copy, PartialEq, Eq, Structural)]
pub struct Vllm;

/// The manager's list of models, where a document has one.
pub open spec fn managed(t: Tree) -> Option<Seq<Tree>> {
    as_items(then_field(field(t, "model_manager"@), "models"@))
}

/// Whether an entry names a model.
pub open spec fn names_model(t: Tree) -> bool {
    as_text(field(t, "id"@)) is Some
}

/// What an entry says: the explicit flag and not the presence of a row, and a
/// memory figure of its own that covers weights only.
pub open spec fn says(m: LoadedModel, t: Tree) -> bool {
    &&& as_text(field(t, "id"@)) == Some(m.id@)
    &&& m.state == if as_flag(field(t, "loaded"@)) == Some(true) {
        State::Loaded
    } else {
        State::NotLoaded
    }
    &&& m.context_tokens is None
    &&& m.weights_bytes == match as_double(field(t, "memory_gb"@)) {
        Some(bits) => Some(gibibytes(bits)),
        None => None,
    }
    &&& m.expires_at_unix is None
    &&& m.model_type is None
    &&& opt_text(m.artifact_path) == as_text(field(t, "source"@))
}

/// Whether a list of models is what the entries that name one say, in order.
pub open spec fn lists(models: Seq<LoadedModel>, items: Seq<Tree>) -> bool {
    let named = items.filter(|t: Tree| names_model(t));
    models.len() == named.len() && forall|i: int|
        0 <= i < models.len() ==> says(#[trigger] models[i], named[i])
}

impl Vllm {
    /// The models a status document reports, or that it is not one of this server's.
    pub fn list(v: &Json) -> (r: Result<Vec<LoadedModel>, ProbeError>)
        ensures
            match r {
                Ok(models) => managed(tree(*v)) matches Some(items) && lists(models@, items),
                Err(e) => managed(tree(*v)) is None && e == (ProbeError::KindMismatch {
                    expected: ProviderKind::Vllm,
                }),
            },
    {
        let entries = match items_of(dig(v.get("model_manager"), "models")) {
            Some(items) => items,
            None => {
                return Err(ProbeError::KindMismatch { expected: ProviderKind::Vllm });
            },
        };
        let ghost items = trees(entries@);
        let ghost p = |t: Tree| names_model(t);
        let mut out: Vec<LoadedModel> = Vec::new();
        let mut i: usize = 0;
        while i < entries.len()
            invariant
                i <= entries@.len(),
                items == trees(entries@),
                p == (|t: Tree| names_model(t)),
                out@.len() == items.take(i as int).filter(p).len(),
                forall|k: int|
                    0 <= k < out@.len() ==> says(
                        #[trigger] out@[k],
                        items.take(i as int).filter(p)[k],
                    ),
            decreases entries.len() - i,
        {
            let m = &entries[i];
            proof {
                lemma_filter_take(items, p, i as int);
                assert(items[i as int] == tree(*m));
            }
            if let Some(id) = text_of(m.get("id")) {
                let state = match flag_of(m.get("loaded")) {
                    Some(true) => State::Loaded,
                    _ => State::NotLoaded,
                };
                let weights_bytes = match double_of(m.get("memory_gb")) {
                    Some(bits) => Some(gibibytes_to_bytes(bits)),
                    None => None,
                };
                out.push(
                    LoadedModel {
                        id,
                        state,
                        context_tokens: None,
                        weights_bytes,
                        expires_at_unix: None,
                        model_type: None,
                        artifact_path: text_of(m.get("source")),
                    },
                );
            }
            i += 1;
        }
        proof {
            assert(items.take(i as int) =~= items);
        }
        Ok(out)
    }
}

} // verus!
