//! Which provider can serve a model.
pub mod decide;
pub mod identity;
pub mod laws;
