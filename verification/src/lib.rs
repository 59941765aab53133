//! Schema normalization and scoped tree traversal.
//!
//! The crate models a JSON-like document tree, resolves `allOf`
//! composition by deep merging, and addresses nodes through
//! `type:key` path patterns with wildcard capture.

pub mod error;
pub mod laws;
pub mod merge;
pub mod scope;
pub mod templates;
pub mod text;
pub mod tools;
pub mod value;
