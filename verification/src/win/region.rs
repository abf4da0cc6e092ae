//! Memory blocks as `VirtualQueryEx` describes them, and their conversion into regions.

use vstd::prelude::*;

use super::perms::PagePerms;
use crate::mem::region::{MemType, Perms, State};
use crate::mem::{AddressRange, MemAddress, Region};

verus! {

/// The state of a memory block.
#[derive(Copy, Clone, Debug, PartialEq, Eq, Structural)]
pub enum WinMemState {
    /// Committed memory.
    Commit,
    /// Unused memory.
    Free,
    /// Memory set aside but not in use.
    Reserve,
}

/// The type of memory a block holds.
#[derive(Copy, Clone, Debug, PartialEq, Eq, Structural)]
pub enum WinMemType {
    /// Part of a mapped executable file.
    Image,
    /// Part of a mapped non-executable file.
    Mapped,
    /// Exclusive to the process: stack, heap and static memory.
    Private,
    /// Not in use.
    Unused,
}

/// `MEM_IMAGE`.
pub const MEM_IMAGE: u32 = 0x1000000;
/// `MEM_MAPPED`.
pub const MEM_MAPPED: u32 = 0x40000;
/// `MEM_PRIVATE`.
pub const MEM_PRIVATE: u32 = 0x20000;
/// `MEM_COMMIT`.
pub const MEM_COMMIT: u32 = 0x1000;
/// `MEM_FREE`.
pub const MEM_FREE: u32 = 0x10000;
/// `MEM_RESERVE`.
pub const MEM_RESERVE: u32 = 0x2000;

/// A block of another process's memory, as `MEMORY_BASIC_INFORMATION` describes it.
#[derive(Copy, Clone, Debug)]
pub struct MemBlock {
    /// The location of the memory block.
    pub range: AddressRange,
    /// The base address of the allocation; heap blocks with the same base are part of
    /// the same heap.
    pub alloc_base: MemAddress,
    /// The protection of the allocation.
    pub alloc_protection: PagePerms,
    /// Whether the block is committed, free, or reserved.
    pub mem_state: WinMemState,
    /// The protection of the block.
    pub protection: PagePerms,
    /// Whether the block holds a mapped file, private data, or nothing.
    pub mem_type: WinMemType,
}

/// The permissions a Windows page protection stands for: a guard page is guarded and
/// inaccessible; otherwise the caching flags are ignored and each of the eight basic
/// protections maps to its permissions, any other value to none.
pub open spec fn spec_convert_perms(p: u32) -> u8 {
    if p & 0x100 == 0x100 {
        0x10u8 | 0x20u8
    } else {
        let c = p & !(0x100u32 | 0x200u32 | 0x400u32);
        if c == 0x01 {
            0x20u8
        } else if c == 0x02 {
            0x01u8
        } else if c == 0x04 {
            0x01u8 | 0x02u8
        } else if c == 0x08 {
            0x01u8 | 0x08u8
        } else if c == 0x10 {
            0x04u8
        } else if c == 0x20 {
            0x01u8 | 0x04u8
        } else if c == 0x40 {
            0x01u8 | 0x02u8 | 0x04u8
        } else if c == 0x80 {
            0x01u8 | 0x04u8 | 0x08u8
        } else {
            0
        }
    }
}

/// Converts a Windows page protection into the library's permissions.
pub fn convert_perms(protection: PagePerms) -> (r: Perms)
    ensures
        r.bits == spec_convert_perms(protection.bits),
{
    if protection.contains(PagePerms::page_guard()) {
        Perms::guard().union(Perms::nope())
    } else {
        let mut cleaned = protection;
        cleaned.remove(
            PagePerms::page_guard().union(PagePerms::page_nocache()).union(
                PagePerms::page_writecombine(),
            ),
        );
        let c = cleaned.bits();
        if c == PagePerms::page_noaccess().bits() {
            Perms::nope()
        } else if c == PagePerms::page_readonly().bits() {
            Perms::read()
        } else if c == PagePerms::page_readwrite().bits() {
            Perms::read().union(Perms::write())
        } else if c == PagePerms::page_writecopy().bits() {
            Perms::read().union(Perms::cow())
        } else if c == PagePerms::page_execute().bits() {
            Perms::execute()
        } else if c == PagePerms::page_execute_read().bits() {
            Perms::read().union(Perms::execute())
        } else if c == PagePerms::page_execute_readwrite().bits() {
            Perms::read().union(Perms::write()).union(Perms::execute())
        } else if c == PagePerms::page_execute_writecopy().bits() {
            Perms::read().union(Perms::execute()).union(Perms::cow())
        } else {
            Perms::none()
        }
    }
}

/// Whether `state` is one of the three states a block can be in.
pub open spec fn known_state(state: u32) -> bool {
    state == MEM_COMMIT || state == MEM_FREE || state == MEM_RESERVE
}

/// The block that `VirtualQueryEx` describes with these fields: the range runs from the
/// base for the region's size, clamped at the top of the address space.
pub open spec fn spec_mem_block(
    base: MemAddress,
    region_size: usize,
    alloc_base: MemAddress,
    alloc_protect: u32,
    protect: u32,
    mem_type: u32,
    state: u32,
) -> MemBlock {
    MemBlock {
        range: AddressRange {
            start_addr: base,
            end_addr: if base + region_size > usize::MAX {
                usize::MAX
            } else {
                (base + region_size) as usize
            },
        },
        alloc_base,
        alloc_protection: PagePerms { bits: alloc_protect },
        protection: PagePerms { bits: protect },
        mem_type: if mem_type == MEM_IMAGE {
            WinMemType::Image
        } else if mem_type == MEM_MAPPED {
            WinMemType::Mapped
        } else if mem_type == MEM_PRIVATE {
            WinMemType::Private
        } else {
            WinMemType::Unused
        },
        mem_state: if state == MEM_COMMIT {
            WinMemState::Commit
        } else if state == MEM_FREE {
            WinMemState::Free
        } else {
            WinMemState::Reserve
        },
    }
}

/// What a region of a block is: based at the allocation base, with the block's range,
/// its type and state mapped, and its protection converted.
pub open spec fn spec_block_region(b: MemBlock) -> Region {
    Region {
        base: b.alloc_base,
        range: b.range,
        mem_type: MemType {
            bits: match b.mem_type {
                WinMemType::Unused => 0,
                WinMemType::Private => 1,
                WinMemType::Image => 4,
                WinMemType::Mapped => 2,
            },
        },
        state: match b.mem_state {
            WinMemState::Free => State::FREE,
            WinMemState::Commit => State::COMMITTED,
            WinMemState::Reserve => State::RESERVED,
        },
        perms: Perms { bits: spec_convert_perms(b.protection.bits) },
    }
}

impl MemBlock {
    /// Builds a block from the fields of a `MEMORY_BASIC_INFORMATION`.
    pub fn from_info(
        base: MemAddress,
        region_size: usize,
        alloc_base: MemAddress,
        alloc_protect: u32,
        protect: u32,
        mem_type: u32,
        state: u32,
    ) -> (r: MemBlock)
        requires
            known_state(state),
        ensures
            r == spec_mem_block(base, region_size, alloc_base, alloc_protect, protect, mem_type, state),
    {
        let end = match base.checked_add(region_size) {
            Some(e) => e,
            None => usize::MAX,
        };
        let range = AddressRange { start_addr: base, end_addr: end };
        MemBlock {
            range,
            alloc_base,
            alloc_protection: PagePerms::from_bits_retain(alloc_protect),
            protection: PagePerms::from_bits_retain(protect),
            mem_type: if mem_type == MEM_IMAGE {
                WinMemType::Image
            } else if mem_type == MEM_MAPPED {
                WinMemType::Mapped
            } else if mem_type == MEM_PRIVATE {
                WinMemType::Private
            } else {
                WinMemType::Unused
            },
            mem_state: if state == MEM_COMMIT {
                WinMemState::Commit
            } else if state == MEM_FREE {
                WinMemState::Free
            } else {
                WinMemState::Reserve
            },
        }
    }

    /// The region this block is.
    pub fn into_region(self) -> (r: Region)
        ensures
            r == spec_block_region(self),
    {
        let mem_type = match self.mem_type {
            WinMemType::Unused => MemType::none(),
            WinMemType::Private => MemType::private(),
            WinMemType::Image => MemType::image(),
            WinMemType::Mapped => MemType::mapped(),
        };
        let perms = convert_perms(self.protection);
        let state = match self.mem_state {
            WinMemState::Free => State::FREE,
            WinMemState::Commit => State::COMMITTED,
            WinMemState::Reserve => State::RESERVED,
        };
        Region { base: self.alloc_base, range: self.range, mem_type, state, perms }
    }
}

} // verus!
