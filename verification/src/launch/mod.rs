//! Running a provider under launchd.
pub mod launchctl;
pub mod plist;
pub mod ready;
