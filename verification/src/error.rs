//! The error kinds surfaced by the store.

use vstd::prelude::*;

verus! {

/// Why an operation was refused.
#[derive(Clone, Copy, PartialEq, Eq, Debug, Structural)]
pub enum Error {
    /// A root or backend key that is not registered.
    NotFound,
    /// A key or child identifier that is already registered.
    AlreadyExists,
    /// An input whose shape does not match what was asked for.
    ShapeMismatch,
    /// A collapse was asked of a node whose write cache still holds entries.
    DirtyCache,
}

} // verus!
