//! What a model will cost: measured, computed from its shape, or declared.
pub mod attribute;
pub mod baseline;
pub mod computed;
pub mod corpus;
pub mod estimator;
pub mod laws;
pub mod price;
pub mod shape;
