//! The actuation lock: one at a time, per machine.
use vstd::prelude::*;

use crate::text::{cat3, cat7, decimal, number};

verus! {

/// Who is holding the lock, written into the file by the holder so a waiter
/// can say something better than "busy".
#[derive(Debug)]
pub struct LockHolder {
    pub pid: u32,
    pub verb: String,
    pub started_at: u64,
}

#[derive(Debug)]
pub enum LockError {
    /// Someone else is mid-actuation. `holder` is absent when the record could
    /// not be read; the lock is still held, which is the part that matters.
    Busy { holder: Option<LockHolder>, waited_s: u64 },
    Io(String),
}

/// What a lock that could not be had is reported as.
pub open spec fn lock_text(e: LockError) -> Seq<char> {
    match e {
        LockError::Busy { holder: Some(h), waited_s } => "another actuation is in progress: "@
            + h.verb@ + " (pid "@ + decimal(h.pid as nat) + "), waited "@ + decimal(
            waited_s as nat,
        ) + "s"@,
        LockError::Busy { holder: None, waited_s } => "another actuation is in progress, waited "@
            + decimal(waited_s as nat) + "s"@,
        LockError::Io(e) => e@,
    }
}

impl LockError {
    pub fn message(&self) -> (s: String)
        ensures
            s@ == lock_text(*self),
    {
        match self {
            LockError::Busy { holder: Some(h), waited_s } => cat7(
                "another actuation is in progress: ",
                h.verb.as_str(),
                " (pid ",
                number(h.pid as u64).as_str(),
                "), waited ",
                number(*waited_s).as_str(),
                "s",
            ),
            LockError::Busy { holder: None, waited_s } => cat3(
                "another actuation is in progress, waited ",
                number(*waited_s).as_str(),
                "s",
            ),
            LockError::Io(e) => e.clone(),
        }
    }
}

/// What to do about a lock that was tried.
#[derive(Debug, Clone, Copy, PartialEq, Eq, Structural)]
pub enum Turn {
    Held,
    GiveUp,
    /// Wait this many milliseconds and try again.
    Wait { ms: u64 },
}

/// What to do after one try: a lock that was got is held, a wait that has
/// lasted as long as it may is given up, and otherwise it is tried again after
/// twenty milliseconds, or the whole term where that is shorter.
pub fn turn(got: bool, waited_ms: u64, timeout_ms: u64) -> (t: Turn)
    ensures
        t == if got {
            Turn::Held
        } else if waited_ms >= timeout_ms {
            Turn::GiveUp
        } else {
            Turn::Wait {
                ms: if timeout_ms < 20 {
                    timeout_ms
                } else {
                    20
                },
            }
        },
{
    if got {
        Turn::Held
    } else if waited_ms >= timeout_ms {
        Turn::GiveUp
    } else if timeout_ms < 20 {
        Turn::Wait { ms: timeout_ms }
    } else {
        Turn::Wait { ms: 20 }
    }
}

} // verus!
