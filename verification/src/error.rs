//! The failures that the engine reports to its caller.

use vstd::prelude::*;

verus! {

/// Why an operation was refused.
#[derive(Clone, Copy, Debug, PartialEq, Eq, Structural)]
pub enum StoreError {
    /// The configuration leaves the path, the separator or the terminator empty.
    MissingField,
    /// The store was given its configuration before.
    AlreadyInitialized,
    /// The store has no configuration yet.
    NotInitialized,
    /// The key holds the separator, so the record could not be read back.
    KeyContainsSeparator,
    /// The bytes asked for do not all lie inside the log.
    RangeExceedsLog,
}

impl StoreError {
    /// A sentence for the person who reads the failure.
    pub fn message(&self) -> (text: &'static str)
        ensures
            text@ == match *self {
                StoreError::MissingField => "configuration field is missing"@,
                StoreError::AlreadyInitialized => "store is already initialized"@,
                StoreError::NotInitialized => "store is not initialized"@,
                StoreError::KeyContainsSeparator => "key contains the separator"@,
                StoreError::RangeExceedsLog => "range exceeds the log"@,
            },
    {
        match self {
            StoreError::MissingField => "configuration field is missing",
            StoreError::AlreadyInitialized => "store is already initialized",
            StoreError::NotInitialized => "store is not initialized",
            StoreError::KeyContainsSeparator => "key contains the separator",
            StoreError::RangeExceedsLog => "range exceeds the log",
        }
    }
}

} // verus!
