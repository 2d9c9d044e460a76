//! What each server answers, and what it is asked.
//!
//! One module for each of the four: how its listing is told from another
//! server's, what its entries say, and the requests that change residency.
pub mod laws;
pub mod llamacpp;
pub mod lmstudio;
pub mod ollama;
pub mod vllm;
pub mod when;

use vstd::prelude::*;

use crate::provider::{Actuation, LoadedModel, ProbeError, ProviderKind, State};
use crate::text::same;

verus! {

/// What may be done to a provider's resident models.
pub open spec fn actuation_of(kind: ProviderKind) -> Actuation {
    match kind {
        ProviderKind::LmStudio => Actuation::ModelLevel,
        ProviderKind::Ollama => Actuation::ModelLevel,
        ProviderKind::LlamaCpp => Actuation::SelfManaged { ceiling: "max_instances" },
        ProviderKind::Vllm => Actuation::SelfManaged { ceiling: "memory_budget_gb" },
    }
}

/// What may be done to a provider's resident models. LM Studio and Ollama load
/// and unload one model at a time; the other two manage themselves.
pub fn actuation(kind: ProviderKind) -> (a: Actuation)
    ensures
        a == actuation_of(kind),
{
    match kind {
        ProviderKind::LmStudio => Actuation::ModelLevel,
        ProviderKind::Ollama => Actuation::ModelLevel,
        ProviderKind::LlamaCpp => Actuation::SelfManaged { ceiling: "max_instances" },
        ProviderKind::Vllm => Actuation::SelfManaged { ceiling: "memory_budget_gb" },
    }
}

/// Whether a listing holds a model as loaded.
pub open spec fn holds_loaded(models: Seq<LoadedModel>, model: Seq<char>) -> bool {
    exists|i: int|
        0 <= i < models.len() && (#[trigger] models[i]).id@ == model && models[i].state
            == State::Loaded
}

/// Is this model loaded, by what the provider listed?
///
/// An unreadable provider answers `false`: a transient blip must not look like
/// a permanent refusal.
pub fn is_resident(listed: &Result<Vec<LoadedModel>, ProbeError>, model: &str) -> (r: bool)
    ensures
        r == match *listed {
            Ok(models) => holds_loaded(models@, model@),
            Err(_) => false,
        },
{
    match listed {
        Ok(models) => {
            let mut i: usize = 0;
            while i < models.len()
                invariant
                    i <= models@.len(),
                    *listed == Ok::<Vec<LoadedModel>, ProbeError>(*models),
                    forall|j: int|
                        0 <= j < i ==> !((#[trigger] models@[j]).id@ == model@ && models@[j].state
                            == State::Loaded),
                decreases models.len() - i,
            {
                if models[i].state == State::Loaded && same(models[i].id.as_str(), model) {
                    return true;
                }
                i += 1;
            }
            false
        },
        Err(_) => false,
    }
}

} // verus!
