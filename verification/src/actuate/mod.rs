//! Changing what is resident rather than describing it.
//!
//! Three things make that safe to grant: one lock ([`lock`]), held across
//! admission and the load it authorises; a plan ([`plan`]), computed before
//! anything is touched, which pins veto and busy models are exempt from; and a
//! watchdog ([`watchdog`]), which decides an in-flight load has gone wrong on
//! evidence rather than on the estimate that authorised it.
pub mod laws;
pub mod lock;
pub mod plan;
pub mod room;
pub mod run;
pub mod run_laws;
pub mod watchdog;
