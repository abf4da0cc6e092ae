//! Windows page protection flags.

use vstd::prelude::*;

verus! {

/// Windows page protection flags (`PAGE_*`).
#[derive(Copy, Clone, Debug, PartialEq, Eq, Structural)]
pub struct PagePerms {
    pub bits: u32,
}

impl PagePerms {
    /// `PAGE_NOACCESS`.
    pub fn page_noaccess() -> (r: PagePerms)
        ensures
            r.bits == 0x01,
    {
        PagePerms { bits: 0x01 }
    }

    /// `PAGE_READONLY`.
    pub fn page_readonly() -> (r: PagePerms)
        ensures
            r.bits == 0x02,
    {
        PagePerms { bits: 0x02 }
    }

    /// `PAGE_READWRITE`.
    pub fn page_readwrite() -> (r: PagePerms)
        ensures
            r.bits == 0x04,
    {
        PagePerms { bits: 0x04 }
    }

    /// `PAGE_WRITECOPY`.
    pub fn page_writecopy() -> (r: PagePerms)
        ensures
            r.bits == 0x08,
    {
        PagePerms { bits: 0x08 }
    }

    /// `PAGE_EXECUTE`.
    pub fn page_execute() -> (r: PagePerms)
        ensures
            r.bits == 0x10,
    {
        PagePerms { bits: 0x10 }
    }

    /// `PAGE_EXECUTE_READ`.
    pub fn page_execute_read() -> (r: PagePerms)
        ensures
            r.bits == 0x20,
    {
        PagePerms { bits: 0x20 }
    }

    /// `PAGE_EXECUTE_READWRITE`.
    pub fn page_execute_readwrite() -> (r: PagePerms)
        ensures
            r.bits == 0x40,
    {
        PagePerms { bits: 0x40 }
    }

    /// `PAGE_EXECUTE_WRITECOPY`.
    pub fn page_execute_writecopy() -> (r: PagePerms)
        ensures
            r.bits == 0x80,
    {
        PagePerms { bits: 0x80 }
    }

    /// `PAGE_TARGETS_INVALID` (the same bit as `PAGE_TARGETS_NO_UPDATE`).
    pub fn page_targets_invalid() -> (r: PagePerms)
        ensures
            r.bits == 0x40000000,
    {
        PagePerms { bits: 0x40000000 }
    }

    /// `PAGE_GUARD`.
    pub fn page_guard() -> (r: PagePerms)
        ensures
            r.bits == 0x100,
    {
        PagePerms { bits: 0x100 }
    }

    /// `PAGE_NOCACHE`.
    pub fn page_nocache() -> (r: PagePerms)
        ensures
            r.bits == 0x200,
    {
        PagePerms { bits: 0x200 }
    }

    /// `PAGE_WRITECOMBINE`.
    pub fn page_writecombine() -> (r: PagePerms)
        ensures
            r.bits == 0x400,
    {
        PagePerms { bits: 0x400 }
    }

    /// The flags as they are stored, unknown bits included.
    pub fn from_bits_retain(bits: u32) -> (r: PagePerms)
        ensures
            r.bits == bits,
    {
        PagePerms { bits }
    }

    /// The raw flag bits.
    pub fn bits(&self) -> (r: u32)
        ensures
            r == self.bits,
    {
        self.bits
    }

    /// The flags of both.
    pub fn union(self, other: PagePerms) -> (r: PagePerms)
        ensures
            r.bits == self.bits | other.bits,
    {
        PagePerms { bits: self.bits | other.bits }
    }

    /// Whether every flag of `other` is set here.
    pub fn contains(&self, other: PagePerms) -> (r: bool)
        ensures
            r == (self.bits & other.bits == other.bits),
    {
        self.bits & other.bits == other.bits
    }

    /// Clears the flags of `other`.
    pub fn remove(&mut self, other: PagePerms)
        ensures
            final(self).bits == old(self).bits & !other.bits,
    {
        self.bits = self.bits & !other.bits;
    }
}

} // verus!
