//! Errors from the MSVC C++ standard library types.

use vstd::prelude::*;

use super::MemError;

verus! {

/// Validation errors for MSVC `std::string`.
#[derive(Debug, Clone, PartialEq, Eq, Structural)]
pub enum StringError {
    Short(ShortStringError),
    Long(LongStringError),
}

/// Validation errors for an MSVC short string.
#[derive(Debug, Clone, PartialEq, Eq, Structural)]
pub enum ShortStringError {
    /// The length is zero.
    ZeroLength,
    /// The allocation size is not 15.
    BadAllocSize { got: usize },
}

/// Validation errors for an MSVC long string.
#[derive(Debug, Clone, PartialEq, Eq, Structural)]
pub enum LongStringError {
    /// The length is below 16.
    TooShort { length: usize },
    /// The allocation size is below 15.
    AllocTooSmall { alloc_size: usize },
    /// The allocation size is not one of the steps MSVC allocates.
    InvalidAllocSize { alloc_size: usize },
    /// The pointer to the characters is null.
    NullPtr,
}

/// Validation and I/O errors for MSVC `std::vector`.
#[derive(Debug, Clone)]
pub enum VectorError {
    /// The first address is not below the last.
    InvalidRange { first_addr: u32, last_addr: u32 },
    /// The byte span is not a whole number of elements.
    Misaligned { diff: u32, element_size: u32 },
    /// Reading the elements failed.
    Io(MemError),
}

/// Top-level error for the MSVC C++ standard library types.
#[derive(Debug, Clone)]
pub enum Error {
    String(StringError),
    Vector(VectorError),
}

} // verus!
