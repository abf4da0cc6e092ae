//! Types decoded from raw memory that can check whether their state is plausible.

use vstd::prelude::*;

use crate::util::{le_u32_at, le_u64_at, read_u32_le, read_u64_le, read_usize_le};

verus! {

/// A type with valid and invalid states, decoded from the bytes it occupies in memory.
pub trait Verifiable: Sized {
    /// The error type produced by validation.
    type Error;

    /// The number of bytes the type occupies in memory.
    spec fn layout_size() -> nat;

    /// The value that `bytes` decode to.
    spec fn spec_decode(bytes: Seq<u8>) -> Self;

    /// The outcome of validating the value.
    spec fn spec_verify(&self) -> Result<(), Self::Error>;

    /// The number of bytes the type occupies in memory.
    fn byte_size() -> (r: usize)
        ensures
            r == Self::layout_size(),
    ;

    /// Decodes a value from its bytes, without validating it.
    fn decode(bytes: &[u8]) -> (r: Self)
        requires
            bytes@.len() == Self::layout_size(),
        ensures
            r == Self::spec_decode(bytes@),
    ;

    /// All the verification that can be done on the data itself.
    fn verify_shallow(&self) -> (r: Result<(), Self::Error>)
        ensures
            r == self.spec_verify(),
    ;

    /// Decodes a value from its bytes and validates it with
    /// [`verify_shallow`](Verifiable::verify_shallow).
    fn from_bytes(bytes: &[u8]) -> (r: Result<Self, Self::Error>)
        requires
            bytes@.len() == Self::layout_size(),
        ensures
            r == match Self::spec_decode(bytes@).spec_verify() {
                Ok(_) => Ok(Self::spec_decode(bytes@)),
                Err(e) => Err(e),
            },
    {
        let inst = Self::decode(bytes);
        match inst.verify_shallow() {
            Ok(_) => Ok(inst),
            Err(e) => Err(e),
        }
    }
}

impl Verifiable for u8 {
    type Error = core::convert::Infallible;

    open spec fn layout_size() -> nat {
        1
    }

    open spec fn spec_decode(bytes: Seq<u8>) -> u8 {
        bytes[0]
    }

    open spec fn spec_verify(&self) -> Result<(), core::convert::Infallible> {
        Ok(())
    }

    fn byte_size() -> (r: usize) {
        1
    }

    fn decode(bytes: &[u8]) -> (r: u8) {
        bytes[0]
    }

    fn verify_shallow(&self) -> (r: Result<(), core::convert::Infallible>) {
        Ok(())
    }
}

impl Verifiable for u32 {
    type Error = core::convert::Infallible;

    open spec fn layout_size() -> nat {
        4
    }

    open spec fn spec_decode(bytes: Seq<u8>) -> u32 {
        le_u32_at(bytes, 0)
    }

    open spec fn spec_verify(&self) -> Result<(), core::convert::Infallible> {
        Ok(())
    }

    fn byte_size() -> (r: usize) {
        4
    }

    fn decode(bytes: &[u8]) -> (r: u32) {
        read_u32_le(bytes, 0)
    }

    fn verify_shallow(&self) -> (r: Result<(), core::convert::Infallible>) {
        Ok(())
    }
}

impl Verifiable for u64 {
    type Error = core::convert::Infallible;

    open spec fn layout_size() -> nat {
        8
    }

    open spec fn spec_decode(bytes: Seq<u8>) -> u64 {
        le_u64_at(bytes, 0)
    }

    open spec fn spec_verify(&self) -> Result<(), core::convert::Infallible> {
        Ok(())
    }

    fn byte_size() -> (r: usize) {
        8
    }

    fn decode(bytes: &[u8]) -> (r: u64) {
        read_u64_le(bytes, 0)
    }

    fn verify_shallow(&self) -> (r: Result<(), core::convert::Infallible>) {
        Ok(())
    }
}

impl Verifiable for usize {
    type Error = core::convert::Infallible;

    open spec fn layout_size() -> nat {
        crate::word_size()
    }

    open spec fn spec_decode(bytes: Seq<u8>) -> usize {
        crate::word_value(bytes, 0)
    }

    open spec fn spec_verify(&self) -> Result<(), core::convert::Infallible> {
        Ok(())
    }

    fn byte_size() -> (r: usize) {
        crate::pattern_scan::word_size_bytes()
    }

    fn decode(bytes: &[u8]) -> (r: usize) {
        read_usize_le(bytes, 0)
    }

    fn verify_shallow(&self) -> (r: Result<(), core::convert::Infallible>) {
        Ok(())
    }
}

} // verus!
