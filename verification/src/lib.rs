//! Scanning and decoding the memory of another process: byte patterns with masks,
//! chunked scans over address ranges, and layouts of common C++ containers.

use vstd::prelude::*;

pub mod bindings;
pub mod boros;
pub mod cpp_std;
pub mod error;
pub mod mem;
pub mod pattern_scan;
pub mod scanner;
pub mod verifiable;
pub mod unix;
pub mod util;
pub mod win;

pub use boros::Boros;
pub use verifiable::Verifiable;

verus! {

/// The size in bytes of a machine word (`usize`) on the target.
pub open spec fn word_size() -> nat {
    (usize::BITS / 8) as nat
}

/// The bytes of a machine word in little-endian order.
pub open spec fn word_bytes(x: usize) -> Seq<u8> {
    if usize::BITS == 64 {
        crate::util::le_bytes_u64(x as u64)
    } else {
        crate::util::le_bytes_u32(x as u32)
    }
}

/// The machine word stored little-endian at `b[i..]`.
pub open spec fn word_value(b: Seq<u8>, i: int) -> usize {
    if usize::BITS == 64 {
        crate::util::le_u64_at(b, i) as usize
    } else {
        crate::util::le_u32_at(b, i) as usize
    }
}

/// A word size that values can be decoded with here: 4 bytes, or 8 where a machine word
/// holds 8 bytes.
pub open spec fn valid_word(w: nat) -> bool {
    w == 4 || (w == 8 && word_size() == 8)
}

/// The little-endian word of `w` bytes stored at `b[i..]`.
pub open spec fn word_value_w(b: Seq<u8>, i: int, w: nat) -> usize {
    if w == 8 {
        crate::util::le_u64_at(b, i) as usize
    } else {
        crate::util::le_u32_at(b, i) as usize
    }
}

/// The `w` little-endian bytes of a word.
pub open spec fn word_bytes_w(x: usize, w: nat) -> Seq<u8> {
    if w == 8 {
        crate::util::le_bytes_u64(x as u64)
    } else {
        crate::util::le_bytes_u32(x as u32)
    }
}

} // verus!
