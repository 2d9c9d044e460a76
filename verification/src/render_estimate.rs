//! What `estimate` assumes.
use vstd::prelude::*;

verus! {

/// What is held back for the machine itself unless the caller says otherwise:
/// eight gibibytes.
pub const DEFAULT_RESERVE_BYTES: u64 = 8 * 1024 * 1024 * 1024;

} // verus!
