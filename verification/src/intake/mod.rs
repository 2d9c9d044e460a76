//! Finding a model, deciding whether it fits, and where it goes.
pub mod hf;
pub mod laws;
pub mod place;
pub mod provenance;
pub mod fit;
pub mod ollama;
pub mod run;
pub mod convert;
pub mod siblings;
pub mod destinations;
pub mod download;
