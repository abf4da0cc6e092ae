//! All error types, collected in one place.
//!
//! All types implement [`Clone`]. OS errors are stored as raw codes or
//! [`std::io::ErrorKind`] values.

pub mod gcc;
pub mod vcpp;

use vstd::prelude::*;

use crate::mem::MemAddress;

verus! {

#[verifier::external_type_specification]
#[verifier::external_body]
pub struct ExIoErrorKind(std::io::ErrorKind);

#[verifier::external_type_specification]
#[verifier::external_body]
pub struct ExFromUtf8Error(std::string::FromUtf8Error);

/// `ErrorKind::clone` (std): `ErrorKind` is a `Copy` enum, and its clone is the same
/// value.
pub assume_specification[ <std::io::ErrorKind as Clone>::clone ](k: &std::io::ErrorKind) -> (r:
    std::io::ErrorKind)
    ensures
        r == *k,
;

/// `FromUtf8Error::clone` (std, derived): the clone holds the same bytes and the same
/// error; stated here as the same value.
pub assume_specification[ <std::string::FromUtf8Error as Clone>::clone ](
    e: &std::string::FromUtf8Error,
) -> (r: std::string::FromUtf8Error)
    ensures
        r == *e,
;

/// Errors originating from Windows API calls.
///
/// Variants that can be built from a raw `GetLastError()` code use
/// [`WinMemError::from_code`]; the others are built where the context is known.
#[derive(Debug, Clone, PartialEq, Eq)]
pub enum WinMemError {
    ReadFailed { addr: MemAddress, size: usize, code: u32 },
    WriteFailed { addr: MemAddress, size: usize, code: u32 },
    ProcessAccessDenied { pid: usize, access_mask: u32 },
    ProcessCloseFailed { pid: usize, code: u32 },
    ProcessAlreadyClosed { pid: usize },
    AccessDenied,
    MemoryAccessDenied { addr: MemAddress },
    InvalidHandle,
    PartialCopy { copied: usize, expected: usize },
    NullPointer,
    VirtualQueryFailed { addr: MemAddress, code: u32 },
    ModuleEnumerationFailed { code: u32 },
    Misc { code: u32 },
}

/// What a raw `GetLastError()` code stands for.
pub open spec fn spec_win_error_from_code(code: u32) -> WinMemError {
    if code == 0x05 {
        WinMemError::AccessDenied
    } else if code == 0x06 {
        WinMemError::InvalidHandle
    } else {
        WinMemError::Misc { code }
    }
}

impl WinMemError {
    /// Converts a raw `GetLastError()` code into the appropriate variant.
    pub fn from_code(code: u32) -> (r: WinMemError)
        ensures
            r == spec_win_error_from_code(code),
    {
        if code == 0x05 {
            WinMemError::AccessDenied
        } else if code == 0x06 {
            WinMemError::InvalidHandle
        } else {
            WinMemError::Misc { code }
        }
    }
}

/// Errors originating from Unix `/proc` filesystem operations.
#[derive(Debug, Clone)]
pub enum UnixMemError {
    ProcMemReadFailed { addr: usize, size: usize, kind: std::io::ErrorKind },
    ProcMemWriteFailed { addr: usize, size: usize, kind: std::io::ErrorKind },
    ProcMapsOpenFailed { pid: i32, kind: std::io::ErrorKind },
    ProcMapsRowParseError { field_count: usize, row: String },
    ProcMapsAddrRangeParseFailed { input: String },
    ProcMapsPermsParseFailed { input: String },
    ProcessOpenFailed { pid: i32, kind: std::io::ErrorKind },
}

/// Platform-discriminated memory I/O error.
#[derive(Debug, Clone)]
pub enum MemError {
    Windows(WinMemError),
    Unix(UnixMemError),
}

/// Errors common to the string types of every C++ standard library.
#[derive(Debug, Clone)]
pub enum CommonStringError {
    /// The buffer is not one byte longer than the declared string length.
    BufferLengthMismatch { buf_len: usize, str_len: usize },
    /// The byte after the declared length is not a null terminator.
    NoNullTerminator { str_len: usize },
    /// The string holds a null byte before its terminator.
    EmbeddedNullBytes,
    /// Reading the string failed.
    Io(MemError),
    /// The string is not valid UTF-8.
    InvalidUtf8 { source: std::string::FromUtf8Error },
}

/// Errors from the C++ standard library types, across compilers.
#[derive(Debug, Clone)]
pub enum StdError {
    Vcpp(vcpp::Error),
    Gcc(gcc::Error),
    CommonString(CommonStringError),
}

/// Top-level error for all operations of the library.
#[derive(Debug, Clone)]
pub enum KrebsError {
    Mem(MemError),
    CppStd(StdError),
}

/// Errors of address validation against a memory layout.
#[derive(Debug, Clone)]
pub enum ScannerError {
    NotInHeap { addr: MemAddress, desc: String },
    NotInModule { addr: MemAddress, desc: String },
}

} // verus!
