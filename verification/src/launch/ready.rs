//! Waiting until a provider answers as itself.
use vstd::prelude::*;

use crate::provider::{kind_text, ProviderKind};
use crate::rounding::{as_double, to_double};
use crate::text::{cat6, decimal, number_wide};

verus! {

/// How long to wait between two questions.
pub const STEP_MS: u64 = 200;

/// Where a wait stands.
#[derive(Debug)]
pub enum Wait {
    /// It answered, after so long.
    Answered { elapsed_ms: u64 },
    /// The time is up.
    GaveUp { reason: String },
    /// Ask again after a step.
    Again,
}

/// Why a wait was given up.
pub open spec fn silent_text(kind: ProviderKind, base: Seq<char>, timeout_s: u64) -> Seq<char> {
    kind_text(kind) + " did not answer at "@ + base + " within "@ + decimal(
        as_double(timeout_s as nat),
    ) + "s"@
}

/// Where a wait stands after asking once more.
///
/// A start is only successful when the provider answers as itself: the command
/// exiting cleanly proves nothing, and a port that never opens is the common
/// failure.
pub fn wait_for(kind: ProviderKind, base: &str, answered: bool, elapsed_ms: u64, timeout_s: u64) -> (r:
    Wait)
    ensures
        if answered {
            r == (Wait::Answered { elapsed_ms })
        } else if elapsed_ms >= timeout_s * 1000 {
            r matches Wait::GaveUp { reason } && reason@ == silent_text(kind, base@, timeout_s)
        } else {
            r == Wait::Again
        },
{
    if answered {
        return Wait::Answered { elapsed_ms };
    }
    if elapsed_ms / 1000 >= timeout_s {
        return Wait::GaveUp {
            reason: cat6(
                kind.as_str(),
                " did not answer at ",
                base,
                " within ",
                number_wide(to_double(timeout_s)).as_str(),
                "s",
            ),
        };
    }
    Wait::Again
}

} // verus!
