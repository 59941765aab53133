//! Typed failures surfaced by traversal and parameter filling.

use vstd::prelude::*;

verus! {

/// The failures this crate can surface to a caller.
///
/// `NotImplemented` reports a wildcard pattern segment applied to a
/// node that is not an object. `IncorrectPath` reports a pattern
/// segment that does not have the two-part `type:key` shape.
/// `CannotFillParameters` reports a `%...%` placeholder whose path is
/// missing from the data or names a non-scalar node; it carries the
/// pointer path that failed.
#[derive(Debug, PartialEq, Eq)]
pub enum Error {
    NotImplemented,
    IncorrectPath(String),
    CannotFillParameters(String),
}

} // verus!
