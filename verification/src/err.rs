//! The error taxonomy of the bookmark store.

use vstd::prelude::*;

verus! {

/// Why a store operation failed.
#[derive(Debug, Clone, PartialEq, Eq)]
pub enum BMarkError {
    /// The store path is missing or unusable.
    Config(String),
    /// Schema creation failed, or the schema was already present.
    Schema(String),
    /// A key or uniqueness constraint rejected a write; the transaction was
    /// rolled back and no partial write survives.
    Constraint(String),
    /// A required input was missing or empty; the store was not touched.
    Validation(String),
    /// The store schema is not present: setup has to run first.
    NotSetup,
    /// Any other store-level failure, carrying the failing operation's text.
    Backend(String),
}

} // verus!
