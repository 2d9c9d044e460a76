//! What a call that failed says of the provider it was made to.
//!
//! Every failure becomes a [`ProbeError`], because no provider may make
//! `status` fail.
use vstd::prelude::*;

use crate::provider::ProbeError;
use crate::text::cat2;

verus! {

/// How the connection under a call broke.
#[derive(Debug, Clone, Copy, PartialEq, Eq, Structural)]
pub enum Breakage {
    ConnectionRefused,
    AddrNotAvailable,
    ConnectionReset,
    TimedOut,
    Other,
}

/// How a call failed.
#[derive(Debug)]
pub enum Failure {
    /// It was answered, with a status that is no success.
    Status { code: u16 },
    /// The time for it was up.
    Timeout,
    /// The connection broke, with what was said of it.
    Io { how: Breakage, said: String },
    /// The answer was no JSON.
    Unreadable { said: String },
    Other { said: String },
}

/// What a failed call says of a provider: a port that nothing listens on is
/// told apart from one that does not answer in time, and anything else is
/// passed on in its own words.
pub fn map_err(f: Failure) -> (e: ProbeError)
    ensures
        match f {
            Failure::Status { code } => e == (ProbeError::Status { code }),
            Failure::Timeout => e == ProbeError::Timeout,
            Failure::Io { how, said } => match how {
                Breakage::ConnectionRefused
                | Breakage::AddrNotAvailable
                | Breakage::ConnectionReset => e == ProbeError::NotListening,
                Breakage::TimedOut => e == ProbeError::Timeout,
                Breakage::Other => e == (ProbeError::Malformed { reason: said }),
            },
            Failure::Unreadable { said } => e matches ProbeError::Malformed { reason } && reason@
                == "not JSON: "@ + said@,
            Failure::Other { said } => e == (ProbeError::Malformed { reason: said }),
        },
{
    match f {
        Failure::Status { code } => ProbeError::Status { code },
        Failure::Timeout => ProbeError::Timeout,
        Failure::Io { how, said } => match how {
            Breakage::ConnectionRefused
            | Breakage::AddrNotAvailable
            | Breakage::ConnectionReset => ProbeError::NotListening,
            Breakage::TimedOut => ProbeError::Timeout,
            Breakage::Other => ProbeError::Malformed { reason: said },
        },
        Failure::Unreadable { said } => ProbeError::Malformed {
            reason: cat2("not JSON: ", said.as_str()),
        },
        Failure::Other { said } => ProbeError::Malformed { reason: said },
    }
}

} // verus!
