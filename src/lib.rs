//! Anonymous emoji reactions: identity anonymization, request validation, and
//! a reaction table with toggle and per-emoji aggregation.

pub mod text;
pub mod identity;
pub mod validate;
pub mod store;
pub mod engine;
