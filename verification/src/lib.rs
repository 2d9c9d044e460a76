//! Arithmetic and decisions for sharing one machine between local model servers.
//!
//! Four servers, one pool of memory and one disk. This crate holds what decides:
//! what a model will cost, what may be unloaded to make room, what may be
//! removed to make space, and where a download may go. It performs none of it.
pub mod actuate;
pub mod adapters;
pub mod budget;
pub mod config;
pub mod decimals;
pub mod document;
pub mod estimate;
pub mod fit;
pub mod http;
pub mod intake;
pub mod inventory;
pub mod json;
pub mod launch;
pub mod ledger;
pub mod memory;
pub mod paths;
pub mod pins;
pub mod provider;
pub mod record;
pub mod render;
pub mod render_actuate;
pub mod render_budget;
pub mod render_compare;
pub mod render_estimate;
pub mod resolve;
pub mod rounding;
pub mod seqs;
pub mod text;
pub mod verbs;
pub mod yaml;

pub use provider::{LoadedModel, ProbeError, ProviderKind, State};
