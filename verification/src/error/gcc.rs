//! Errors from the GCC C++ standard library types.

use vstd::prelude::*;

verus! {

/// Validation errors for GCC `std::string`.
#[derive(Debug, Clone, PartialEq, Eq, Structural)]
pub enum StringError {
    Short(ShortStringError),
    Long(LongStringError),
}

/// Validation errors for a GCC short string.
#[derive(Debug, Clone, PartialEq, Eq, Structural)]
pub enum ShortStringError {
    /// The length is outside `1..=15`.
    InvalidLength { length: usize },
}

/// Validation errors for a GCC long string.
#[derive(Debug, Clone, PartialEq, Eq, Structural)]
pub enum LongStringError {
    /// The pointer to the characters is null.
    NullPtr,
    /// The capacity is smaller than the length.
    CapacityTooSmall { capacity: usize, length: usize },
}

/// Top-level error for the GCC C++ standard library types.
#[derive(Debug, Clone, PartialEq, Eq, Structural)]
pub enum Error {
    String(StringError),
}

} // verus!
