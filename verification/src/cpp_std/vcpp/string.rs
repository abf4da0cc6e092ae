//! MSVC `std::string` as it sits in memory.
//!
//! The object is a 16-byte union followed by the length and the allocation size (both
//! machine words). A string of up to 15 characters is kept in the union itself (short);
//! a longer one lives elsewhere and the union begins with its address (long).
//!
//! The `_with_word` functions decode and look for strings of a process whose machine
//! word is `word` bytes wide (4 for a 32-bit process), whatever the width here.

use vstd::prelude::*;
use vstd::string::StringSliceAdditionalSpecFns;

use crate::cpp_std::{
    c_str_answer, c_str_from_read, c_str_utf8, check_buffer, one_more_read, spec_check_buffer, string_answer,
    string_from_c_str,
};
use crate::error::vcpp::{Error, LongStringError, ShortStringError, StringError};
use crate::error::{CommonStringError, StdError};
use crate::mem::{MemAddress, Reader};
use crate::pattern_scan::{mask_at, masked_match, BytePattern, FromBytes, ScanPattern};
use crate::util::{array16, array16_at, concat_vecs, fill_bytes, lemma_array16, lemma_word_bytes_match, read_word_le, word_to_bytes};
use crate::verifiable::Verifiable;
use crate::{valid_word, word_bytes_w, word_size, word_value_w};

verus! {

/// The allocation sizes MSVC gives a long string, in increasing order. Each is one less
/// than the bytes allocated (the null terminator is not counted); they grow by about
/// 1.5 times, with uneven rounding.
pub open spec fn alloc_size_table() -> Seq<usize> {
    seq![
        0x7, 0x1F, 0x2F, 0x46, 0x69, 0x9D, 0xEB, 0x160, 0x210, 0x318, 0x4A4, 0x6F6, 0xA71,
        0xFA9, 0x17A4, 0x2362, 0x34FF, 0x4F6B, 0x770D, 0xB280, 0x10BAC, 0x1916E, 0x25A11,
        0x38706, 0x54A75, 0x7EF9C, 0xBE756, 0x11DAED,
    ]
}

/// The largest allocation size in the table; a string can be no longer.
pub open spec fn max_alloc_size() -> usize {
    0x11DAED
}

/// The first entry of `t` above `len` (0 where there is none).
pub open spec fn first_above(t: Seq<usize>, len: usize) -> usize
    decreases t.len(),
{
    if t.len() == 0 {
        0
    } else if t[0] > len {
        t[0]
    } else {
        first_above(t.drop_first(), len)
    }
}

/// The allocation size of a string of the given length.
pub open spec fn spec_alloc_size(len: usize) -> usize {
    if len < 16 {
        15
    } else if len == max_alloc_size() {
        max_alloc_size()
    } else {
        first_above(alloc_size_table(), len)
    }
}

fn alloc_sizes() -> (r: [usize; 28])
    ensures
        r@ == alloc_size_table(),
{
    let r: [usize; 28] = [
        0x7, 0x1F, 0x2F, 0x46, 0x69, 0x9D, 0xEB, 0x160, 0x210, 0x318, 0x4A4, 0x6F6, 0xA71,
        0xFA9, 0x17A4, 0x2362, 0x34FF, 0x4F6B, 0x770D, 0xB280, 0x10BAC, 0x1916E, 0x25A11,
        0x38706, 0x54A75, 0x7EF9C, 0xBE756, 0x11DAED,
    ];
    assert(r@ =~= alloc_size_table());
    r
}

/// Gets the `alloc_size` value of an std::string of the given length.
///
/// The field does not count the null terminator, so the space allocated is one more.
/// Short strings always have 15; a long string has the first size in the table above
/// its length, and a string as long as the largest size has that size.
pub fn get_alloc_size(len: MemAddress) -> (r: MemAddress)
    requires
        len <= max_alloc_size(),
    ensures
        r == spec_alloc_size(len),
        len < 16 ==> r == 15,
        len >= 16 ==> alloc_size_table().contains(r) && r >= len,
        16 <= len < max_alloc_size() ==> r > len,
        len >= 16 ==> forall|i: int|
            0 <= i < alloc_size_table().len() && #[trigger] alloc_size_table()[i] < r
                ==> alloc_size_table()[i] <= len,
{
    if len < 16 {
        return 15;
    }
    let table = alloc_sizes();
    if len == 0x11DAED {
        proof {
            assert(alloc_size_table()[27] == len);
            assert forall|k: int|
                0 <= k < alloc_size_table().len() && #[trigger] alloc_size_table()[k] < len
                    implies alloc_size_table()[k] <= len by {}
        }
        return 0x11DAED;
    }
    let mut i: usize = 0;
    assert(table@.subrange(0, 28) =~= table@);
    while i < 28
        invariant
            i <= 28,
            table@ == alloc_size_table(),
            len < max_alloc_size(),
            len >= 16,
            first_above(table@.subrange(i as int, 28), len) == first_above(table@, len),
            forall|j: int| 0 <= j < i ==> table@[j] <= len,
        decreases 28 - i,
    {
        assert(table@.subrange(i as int + 1, 28) =~= table@.subrange(i as int, 28).drop_first());
        if table[i] > len {
            let r = table[i];
            proof {
                assert(table@.subrange(i as int, 28)[0] == r);
                assert(alloc_size_table()[i as int] == r);
                assert forall|k: int|
                    0 <= k < alloc_size_table().len() && #[trigger] alloc_size_table()[k] < r
                        implies alloc_size_table()[k] <= len by {
                    if k >= i {
                        assert(table@[k] >= table@[i as int]);
                    }
                }
            }
            return r;
        }
        i = i + 1;
    }
    assert(table@[27] <= len);
    0
}

/// Whether `a` is one of the allocation sizes of the table.
fn is_alloc_size(a: usize) -> (r: bool)
    ensures
        r == alloc_size_table().contains(a),
{
    let table = alloc_sizes();
    let mut i: usize = 0;
    while i < 28
        invariant
            i <= 28,
            table@ == alloc_size_table(),
            forall|j: int| 0 <= j < i ==> table@[j] != a,
        decreases 28 - i,
    {
        if table[i] == a {
            assert(alloc_size_table()[i as int] == a);
            return true;
        }
        i = i + 1;
    }
    false
}

/// An std::string (MSVC) of unknown kind: the 16-byte union, the length and the
/// allocation size.
#[derive(Copy, Clone, Debug)]
pub struct CppUnknownString {
    /// The union: the short buffer, or the long string's address.
    pub _unk: [u8; 16],
    /// The string length.
    pub length: MemAddress,
    /// The string allocation size.
    pub alloc_size: MemAddress,
}

/// An std::string (MSVC) with up to 16 bytes, null terminator included.
///
/// The bytes of the buffer after the null terminator are 0xCC (debug builds) or
/// garbage (release builds).
#[derive(Copy, Clone, Debug)]
pub struct CppShortString {
    /// A buffer containing the null-terminated string.
    pub string: [u8; 16],
    /// The length of the string.
    pub length: MemAddress,
    /// The space allocated for the string; always 15.
    pub alloc_size: MemAddress,
}

/// An std::string (MSVC) with more than 16 bytes, null terminator included.
///
/// The 16-byte union begins with the address of the characters; the rest of it is
/// garbage. The length and allocation size follow at offset 16 whatever the width of an
/// address.
#[derive(Copy, Clone, Debug)]
pub struct CppLongString {
    /// The address of the C string.
    pub c_str_addr: MemAddress,
    /// The 16 bytes of the union, the address's own bytes included.
    pub _junk2: [u8; 16],
    /// The length of the string.
    pub length: MemAddress,
    /// The space allocated for the string: 31 at least, then growing by about 1.5 times
    /// (see [`get_alloc_size`]).
    pub alloc_size: MemAddress,
}

/// The number of bytes a string object occupies for a word of `w` bytes.
pub open spec fn string_layout_size(w: nat) -> nat {
    16 + 2 * w
}

/// The unknown string that `bytes` hold, for a word of `w` bytes.
pub open spec fn decode_unknown(bytes: Seq<u8>, w: nat) -> CppUnknownString {
    CppUnknownString {
        _unk: array16(bytes.subrange(0, 16)),
        length: word_value_w(bytes, 16, w),
        alloc_size: word_value_w(bytes, 16 + w as int, w),
    }
}

/// The short string that `bytes` hold, for a word of `w` bytes.
pub open spec fn decode_short(bytes: Seq<u8>, w: nat) -> CppShortString {
    CppShortString {
        string: array16(bytes.subrange(0, 16)),
        length: word_value_w(bytes, 16, w),
        alloc_size: word_value_w(bytes, 16 + w as int, w),
    }
}

/// The long string that `bytes` hold, for a word of `w` bytes.
pub open spec fn decode_long(bytes: Seq<u8>, w: nat) -> CppLongString {
    CppLongString {
        c_str_addr: word_value_w(bytes, 0, w),
        _junk2: array16(bytes.subrange(0, 16)),
        length: word_value_w(bytes, 16, w),
        alloc_size: word_value_w(bytes, 16 + w as int, w),
    }
}

/// The outcome of a short string's checks: the length is not zero, the allocation size
/// is 15, and the buffer holds a C string of the length. A length above 15 cannot fit the
/// buffer: the check of the buffer then reports the mismatch.
pub open spec fn short_check(s: CppShortString) -> Result<(), StdError> {
    if s.length == 0 {
        Err(StdError::Vcpp(Error::String(StringError::Short(ShortStringError::ZeroLength))))
    } else if s.alloc_size != 15 {
        Err(
            StdError::Vcpp(
                Error::String(StringError::Short(ShortStringError::BadAllocSize { got: s.alloc_size })),
            ),
        )
    } else {
        let buf = if s.length <= 15 {
            s.string@.subrange(0, s.length + 1)
        } else {
            s.string@
        };
        match spec_check_buffer(buf, s.length as nat) {
            Err(e) => Err(StdError::CommonString(e)),
            Ok(_) => Ok(()),
        }
    }
}

/// The outcome of a long string's checks: the length is at least 16, the allocation size
/// is one of the table's, and the address is not null.
pub open spec fn long_check(s: CppLongString) -> Result<(), StdError> {
    if s.length < 16 {
        Err(
            StdError::Vcpp(
                Error::String(StringError::Long(LongStringError::TooShort { length: s.length })),
            ),
        )
    } else if s.alloc_size < 15 {
        Err(
            StdError::Vcpp(
                Error::String(
                    StringError::Long(LongStringError::AllocTooSmall { alloc_size: s.alloc_size }),
                ),
            ),
        )
    } else if !alloc_size_table().contains(s.alloc_size) {
        Err(
            StdError::Vcpp(
                Error::String(
                    StringError::Long(LongStringError::InvalidAllocSize { alloc_size: s.alloc_size }),
                ),
            ),
        )
    } else if s.c_str_addr == 0 {
        Err(StdError::Vcpp(Error::String(StringError::Long(LongStringError::NullPtr))))
    } else {
        Ok(())
    }
}

impl CppUnknownString {
    /// Decodes the string object held in `bytes`, for a word of `word` bytes.
    pub fn decode_with_word(bytes: &[u8], word: usize) -> (r: CppUnknownString)
        requires
            valid_word(word as nat),
            bytes@.len() == string_layout_size(word as nat),
        ensures
            r == decode_unknown(bytes@, word as nat),
    {
        CppUnknownString {
            _unk: array16_at(bytes, 0),
            length: read_word_le(bytes, 16, word),
            alloc_size: read_word_le(bytes, 16 + word, word),
        }
    }
}

impl Verifiable for CppUnknownString {
    type Error = core::convert::Infallible;

    open spec fn layout_size() -> nat {
        string_layout_size(word_size())
    }

    open spec fn spec_decode(bytes: Seq<u8>) -> CppUnknownString {
        decode_unknown(bytes, word_size())
    }

    open spec fn spec_verify(&self) -> Result<(), core::convert::Infallible> {
        Ok(())
    }

    fn byte_size() -> (r: usize) {
        16 + 2 * crate::pattern_scan::word_size_bytes()
    }

    fn decode(bytes: &[u8]) -> (r: CppUnknownString) {
        CppUnknownString::decode_with_word(bytes, crate::pattern_scan::word_size_bytes())
    }

    fn verify_shallow(&self) -> (r: Result<(), core::convert::Infallible>) {
        Ok(())
    }
}

impl CppShortString {
    /// Converts the internal buffer into a Rust `String`.
    ///
    /// Fails if the buffer does not hold a C string of the length, or if the characters
    /// are not valid UTF-8.
    pub fn to_string(&self) -> (r: Result<String, CommonStringError>)
        requires
            self.length <= 15,
        ensures
            match spec_check_buffer(self.string@.subrange(0, self.length + 1), self.length as nat) {
                Err(e) => r == Err::<String, CommonStringError>(e),
                Ok(_) => {
                    &&& r is Ok <==> vstd::utf8::valid_utf8(self.string@.subrange(0, self.length as int))
                    &&& r matches Ok(s) ==> s@ == vstd::utf8::decode_utf8(self.string@.subrange(0, self.length as int))
                    &&& r matches Err(e) ==> e is InvalidUtf8
                },
            },
    {
        let buf = self.string.as_slice().split_at(self.length + 1).0;
        match check_buffer(buf, self.length) {
            Err(e) => Err(e),
            Ok(()) => {
                assert(buf@.subrange(0, self.length as int) =~= self.string@.subrange(0, self.length as int));
                c_str_utf8(buf, self.length)
            },
        }
    }

    /// Decodes the string object held in `bytes`, for a word of `word` bytes.
    pub fn decode_with_word(bytes: &[u8], word: usize) -> (r: CppShortString)
        requires
            valid_word(word as nat),
            bytes@.len() == string_layout_size(word as nat),
        ensures
            r == decode_short(bytes@, word as nat),
    {
        CppShortString {
            string: array16_at(bytes, 0),
            length: read_word_le(bytes, 16, word),
            alloc_size: read_word_le(bytes, 16 + word, word),
        }
    }

    /// Decodes the string object held in `bytes`, for a word of `word` bytes, and checks
    /// it.
    pub fn from_bytes_with_word(bytes: &[u8], word: usize) -> (r: Result<CppShortString, StdError>)
        requires
            valid_word(word as nat),
            bytes@.len() == string_layout_size(word as nat),
        ensures
            r == match short_check(decode_short(bytes@, word as nat)) {
                Ok(_) => Ok(decode_short(bytes@, word as nat)),
                Err(e) => Err(e),
            },
    {
        let s = CppShortString::decode_with_word(bytes, word);
        match s.verify_shallow() {
            Ok(()) => Ok(s),
            Err(e) => Err(e),
        }
    }
}

impl Verifiable for CppShortString {
    type Error = StdError;

    open spec fn layout_size() -> nat {
        string_layout_size(word_size())
    }

    open spec fn spec_decode(bytes: Seq<u8>) -> CppShortString {
        decode_short(bytes, word_size())
    }

    open spec fn spec_verify(&self) -> Result<(), StdError> {
        short_check(*self)
    }

    fn byte_size() -> (r: usize) {
        16 + 2 * crate::pattern_scan::word_size_bytes()
    }

    fn decode(bytes: &[u8]) -> (r: CppShortString) {
        CppShortString::decode_with_word(bytes, crate::pattern_scan::word_size_bytes())
    }

    fn verify_shallow(&self) -> (r: Result<(), StdError>) {
        if self.length == 0 {
            Err(StdError::Vcpp(Error::String(StringError::Short(ShortStringError::ZeroLength))))
        } else if self.alloc_size != 15 {
            Err(
                StdError::Vcpp(
                    Error::String(
                        StringError::Short(ShortStringError::BadAllocSize { got: self.alloc_size }),
                    ),
                ),
            )
        } else if self.length > 15 {
            Err(
                StdError::CommonString(
                    CommonStringError::BufferLengthMismatch { buf_len: 16, str_len: self.length },
                ),
            )
        } else {
            let buf = self.string.as_slice().split_at(self.length + 1).0;
            match check_buffer(buf, self.length) {
                Err(e) => Err(StdError::CommonString(e)),
                Ok(()) => Ok(()),
            }
        }
    }
}

impl CppLongString {
    /// Returns the referenced C string, null terminator included.
    ///
    /// Fails if the read fails, or if what was read is not a C string of the string's
    /// length.
    pub fn get_c_str<T: Reader>(&self, reader: &mut T) -> (r: Result<Vec<u8>, CommonStringError>)
        requires
            self.length < usize::MAX,
        ensures
            one_more_read(old(reader).read_log(), final(reader).read_log()),
            final(reader).read_log().last().addr == self.c_str_addr,
            final(reader).read_log().last().size == self.length + 1,
            c_str_answer(final(reader).read_log().last(), self.length as nat, r),
            r matches Ok(v) ==> v@.len() == self.length + 1 && spec_check_buffer(v@, self.length as nat) is Ok,
            r matches Err(e) ==> e is Io || e is NoNullTerminator || e is EmbeddedNullBytes,
    {
        let mut str_buf = fill_bytes(0, self.length + 1);
        let read = reader.read_to_buffer(self.c_str_addr, str_buf.as_mut_slice());
        proof {
            assert(reader.read_log().subrange(0, old(reader).read_log().len() as int) =~= old(reader).read_log());
        }
        c_str_from_read(read, str_buf, self.length)
    }

    /// Returns the referenced C string as a Rust `String`.
    ///
    /// Fails if the read fails, or if the C string or its encoding are invalid.
    pub fn to_string<T: Reader>(&self, reader: &mut T) -> (r: Result<String, CommonStringError>)
        requires
            self.length < usize::MAX,
        ensures
            r matches Ok(s) ==> exists|b: Seq<u8>|
                b.len() == self.length && (forall|i: int| 0 <= i < b.len() ==> b[i] != 0u8)
                    && vstd::utf8::valid_utf8(b) && s@ == vstd::utf8::decode_utf8(#[trigger] b.push(0u8).subrange(0, self.length as int)),
            r matches Err(e) ==> e is Io || e is NoNullTerminator || e is EmbeddedNullBytes || e is InvalidUtf8,
            one_more_read(old(reader).read_log(), final(reader).read_log()),
            final(reader).read_log().last().addr == self.c_str_addr,
            final(reader).read_log().last().size == self.length + 1,
            string_answer(final(reader).read_log().last(), self.length as nat, r),
    {
        let c_str = self.get_c_str(reader);
        let ghost read = c_str;
        let r = string_from_c_str(c_str, self.length);
        proof {
            if read is Ok {
                let v = read->Ok_0@;
                let b = v.subrange(0, self.length as int);
                assert(b.push(0u8) =~= v);
            }
        }
        r
    }

    /// Decodes the string object held in `bytes`, for a word of `word` bytes.
    pub fn decode_with_word(bytes: &[u8], word: usize) -> (r: CppLongString)
        requires
            valid_word(word as nat),
            bytes@.len() == string_layout_size(word as nat),
        ensures
            r == decode_long(bytes@, word as nat),
    {
        CppLongString {
            c_str_addr: read_word_le(bytes, 0, word),
            _junk2: array16_at(bytes, 0),
            length: read_word_le(bytes, 16, word),
            alloc_size: read_word_le(bytes, 16 + word, word),
        }
    }

    /// Decodes the string object held in `bytes`, for a word of `word` bytes, and checks
    /// it.
    pub fn from_bytes_with_word(bytes: &[u8], word: usize) -> (r: Result<CppLongString, StdError>)
        requires
            valid_word(word as nat),
            bytes@.len() == string_layout_size(word as nat),
        ensures
            r == match long_check(decode_long(bytes@, word as nat)) {
                Ok(_) => Ok(decode_long(bytes@, word as nat)),
                Err(e) => Err(e),
            },
    {
        let s = CppLongString::decode_with_word(bytes, word);
        match s.verify_shallow() {
            Ok(()) => Ok(s),
            Err(e) => Err(e),
        }
    }
}

impl Verifiable for CppLongString {
    type Error = StdError;

    open spec fn layout_size() -> nat {
        string_layout_size(word_size())
    }

    open spec fn spec_decode(bytes: Seq<u8>) -> CppLongString {
        decode_long(bytes, word_size())
    }

    open spec fn spec_verify(&self) -> Result<(), StdError> {
        long_check(*self)
    }

    fn byte_size() -> (r: usize) {
        16 + 2 * crate::pattern_scan::word_size_bytes()
    }

    fn decode(bytes: &[u8]) -> (r: CppLongString) {
        CppLongString::decode_with_word(bytes, crate::pattern_scan::word_size_bytes())
    }

    fn verify_shallow(&self) -> (r: Result<(), StdError>) {
        if self.length < 16 {
            Err(
                StdError::Vcpp(
                    Error::String(StringError::Long(LongStringError::TooShort { length: self.length })),
                ),
            )
        } else if self.alloc_size < 15 {
            Err(
                StdError::Vcpp(
                    Error::String(
                        StringError::Long(
                            LongStringError::AllocTooSmall { alloc_size: self.alloc_size },
                        ),
                    ),
                ),
            )
        } else if !is_alloc_size(self.alloc_size) {
            Err(
                StdError::Vcpp(
                    Error::String(
                        StringError::Long(
                            LongStringError::InvalidAllocSize { alloc_size: self.alloc_size },
                        ),
                    ),
                ),
            )
        } else if self.c_str_addr == 0 {
            Err(StdError::Vcpp(Error::String(StringError::Long(LongStringError::NullPtr))))
        } else {
            Ok(())
        }
    }
}

/// A string of either kind.
#[derive(Copy, Clone, Debug)]
pub enum CppStringValue {
    Short(CppShortString),
    Long(CppLongString),
}

/// The short string an unknown string is, read as one.
pub open spec fn as_short(unk: CppUnknownString) -> CppShortString {
    CppShortString { string: unk._unk, length: unk.length, alloc_size: unk.alloc_size }
}

/// The long string an unknown string is, read as one: the address is the first word of
/// the union.
pub open spec fn as_long(unk: CppUnknownString) -> CppLongString {
    CppLongString {
        c_str_addr: word_value_w(unk._unk@, 0, word_size()),
        _junk2: unk._unk,
        length: unk.length,
        alloc_size: unk.alloc_size,
    }
}

impl CppStringValue {
    /// Reads an unknown string as a short string if its length is below 16, as a long
    /// one otherwise, and checks it.
    pub fn from_unk(unk: CppUnknownString) -> (r: Result<CppStringValue, StdError>)
        ensures
            unk.length < 16 ==> r == match short_check(as_short(unk)) {
                Ok(_) => Ok(CppStringValue::Short(as_short(unk))),
                Err(e) => Err(e),
            },
            unk.length >= 16 ==> r == match long_check(as_long(unk)) {
                Ok(_) => Ok(CppStringValue::Long(as_long(unk))),
                Err(e) => Err(e),
            },
    {
        if unk.length < 16 {
            let shorty = CppShortString {
                string: unk._unk,
                length: unk.length,
                alloc_size: unk.alloc_size,
            };
            match shorty.verify_shallow() {
                Ok(()) => Ok(CppStringValue::Short(shorty)),
                Err(e) => Err(e),
            }
        } else {
            let w = crate::pattern_scan::word_size_bytes();
            let long_boy = CppLongString {
                c_str_addr: read_word_le(unk._unk.as_slice(), 0, w),
                _junk2: unk._unk,
                length: unk.length,
                alloc_size: unk.alloc_size,
            };
            match long_boy.verify_shallow() {
                Ok(()) => Ok(CppStringValue::Long(long_boy)),
                Err(e) => Err(e),
            }
        }
    }
}

/// The bytes an MSVC string pattern looks for, for a word of `w` bytes: (for a short
/// string) the characters and the null terminator, then the length and the allocation
/// size.
pub open spec fn vcpp_pattern_value(s: Seq<u8>, w: nat) -> Seq<u8> {
    let tail = word_bytes_w(s.len() as usize, w) + word_bytes_w(spec_alloc_size(s.len() as usize), w);
    if s.len() < 16 {
        s.push(0u8) + Seq::new((15 - s.len()) as nat, |i: int| 0u8) + tail
    } else {
        Seq::new(16, |i: int| 0u8) + tail
    }
}

/// Which bytes an MSVC string pattern compares, for a word of `w` bytes: (for a short
/// string) the characters and the null terminator, and the length and allocation size.
pub open spec fn vcpp_pattern_mask(s: Seq<u8>, w: nat) -> Seq<bool> {
    if s.len() < 16 {
        Seq::new((s.len() + 1) as nat, |i: int| true) + Seq::new((15 - s.len()) as nat, |i: int| false)
            + Seq::new(2 * w, |i: int| true)
    } else {
        Seq::new(16, |i: int| false) + Seq::new(2 * w, |i: int| true)
    }
}

/// Creates a scan pattern for an MSVC `std::string` holding `s`, in a process whose
/// machine word is `word` bytes wide.
pub fn str_to_pattern_with_word(s: &str, word: usize) -> (r: BytePattern)
    requires
        valid_word(word as nat),
        s.spec_bytes().len() <= max_alloc_size(),
    ensures
        r.wf(),
        r@.0 == vcpp_pattern_value(s.spec_bytes(), word as nat),
        r@.1 == Some(vcpp_pattern_mask(s.spec_bytes(), word as nat)),
{
    let bytes = s.as_bytes();
    let len = bytes.len();
    let alloc_size = get_alloc_size(len);
    let len_and_alloc = concat_vecs(word_to_bytes(len, word), word_to_bytes(alloc_size, word));
    if len < 16 {
        let mut with_null = crate::util::slice_to_vec(bytes);
        with_null.push(0);
        let str_field = BytePattern::new(with_null, None).concat(BytePattern::ignore(15 - len));
        let p = str_field.concat(BytePattern::new(len_and_alloc, None));
        assert(p@.0 =~= vcpp_pattern_value(s.spec_bytes(), word as nat));
        assert(p@.1.unwrap() =~= vcpp_pattern_mask(s.spec_bytes(), word as nat));
        p
    } else {
        let p = BytePattern::ignore(16).concat(BytePattern::new(len_and_alloc, None));
        assert(p@.0 =~= vcpp_pattern_value(s.spec_bytes(), word as nat));
        assert(p@.1.unwrap() =~= vcpp_pattern_mask(s.spec_bytes(), word as nat));
        p
    }
}

/// Creates a scan pattern for an MSVC `std::string` holding `s`.
pub fn str_to_pattern(s: &str) -> (r: BytePattern)
    requires
        s.spec_bytes().len() <= max_alloc_size(),
    ensures
        r.wf(),
        r@.0 == vcpp_pattern_value(s.spec_bytes(), word_size()),
        r@.1 == Some(vcpp_pattern_mask(s.spec_bytes(), word_size())),
{
    str_to_pattern_with_word(s, crate::pattern_scan::word_size_bytes())
}

/// `first_above` gives 0 or an entry of the table, so it is bounded by any bound of the
/// entries.
proof fn lemma_first_above_bounded(t: Seq<usize>, len: usize, b: int)
    requires
        forall|i: int| 0 <= i < t.len() ==> t[i] <= b,
        0 <= b,
    ensures
        first_above(t, len) <= b,
    decreases t.len(),
{
    if t.len() > 0 && t[0] <= len {
        assert forall|i: int| 0 <= i < t.drop_first().len() implies t.drop_first()[i] <= b by {
            assert(t.drop_first()[i] == t[i + 1]);
        }
        lemma_first_above_bounded(t.drop_first(), len, b);
    }
}

/// The allocation size of a string is never above the largest size of the table.
proof fn lemma_alloc_size_bounded(len: usize)
    ensures
        spec_alloc_size(len) <= max_alloc_size(),
{
    let t = alloc_size_table();
    assert forall|i: int| 0 <= i < t.len() implies t[i] <= 0x11DAED by {
        assert(t[i] <= 0x11DAED);
    }
    lemma_first_above_bounded(t, len, 0x11DAED);
}

/// An MSVC string pattern finds exactly the string objects that hold its string: those
/// whose length is the string's, whose allocation size is the one a string of that
/// length gets and, for a string of fewer than 16 bytes, whose buffer begins with its
/// bytes and a null terminator.
pub proof fn lemma_vcpp_pattern_finds(s: Seq<u8>, obj: Seq<u8>, w: nat)
    requires
        valid_word(w),
        s.len() <= max_alloc_size(),
        obj.len() == string_layout_size(w),
    ensures
        masked_match(vcpp_pattern_value(s, w), Some(vcpp_pattern_mask(s, w)), obj) <==> {
            let u = decode_unknown(obj, w);
            &&& u.length == s.len()
            &&& u.alloc_size == spec_alloc_size(s.len() as usize)
            &&& s.len() < 16 ==> u._unk@.subrange(0, s.len() + 1int) == s.push(0u8)
        },
{
    let n = s.len();
    let a = spec_alloc_size(n as usize);
    let v = vcpp_pattern_value(s, w);
    let m = vcpp_pattern_mask(s, w);
    let u = decode_unknown(obj, w);
    lemma_alloc_size_bounded(n as usize);
    lemma_array16(obj.subrange(0, 16));
    assert(u._unk@ == obj.subrange(0, 16));
    lemma_word_bytes_match(obj, 16, w, n as usize);
    lemma_word_bytes_match(obj, 16 + w as int, w, a);
    assert(v.len() == 16 + 2 * w && m.len() == v.len());
    if masked_match(v, Some(m), obj) {
        assert forall|i: int| 0 <= i < w implies #[trigger] obj.subrange(16, 16 + w as int)[i]
            == word_bytes_w(n as usize, w)[i] by {
            assert(m[16 + i] && v[16 + i] == word_bytes_w(n as usize, w)[i]);
            assert(obj[16 + i] == v[16 + i]);
        }
        assert(obj.subrange(16, 16 + w as int) =~= word_bytes_w(n as usize, w));
        assert forall|i: int| 0 <= i < w implies #[trigger] obj.subrange(16 + w as int, 16 + 2 * w as int)[i]
            == word_bytes_w(a, w)[i] by {
            assert(m[16 + w + i] && v[16 + w + i] == word_bytes_w(a, w)[i]);
            assert(obj[16 + w + i] == v[16 + w + i]);
        }
        assert(obj.subrange(16 + w as int, 16 + 2 * w as int) =~= word_bytes_w(a, w));
        if n < 16 {
            assert forall|i: int| 0 <= i < n + 1 implies #[trigger] u._unk@.subrange(0, n + 1int)[i]
                == s.push(0u8)[i] by {
                assert(m[i] && v[i] == s.push(0u8)[i]);
                assert(obj[i] == v[i]);
            }
            assert(u._unk@.subrange(0, n + 1int) =~= s.push(0u8));
        }
    }
    if u.length == n && u.alloc_size == a && (n < 16 ==> u._unk@.subrange(0, n + 1int) == s.push(0u8)) {
        assert(obj.subrange(16, 16 + w as int) == word_bytes_w(n as usize, w));
        assert(obj.subrange(16 + w as int, 16 + 2 * w as int) == word_bytes_w(a, w));
        assert forall|i: int| 0 <= i < v.len() && mask_at(Some(m), i) implies #[trigger] obj[i] == v[i] by {
            if 16 <= i < 16 + w {
                assert(obj[i] == obj.subrange(16, 16 + w as int)[i - 16]);
            } else if 16 + w <= i {
                assert(obj[i] == obj.subrange(16 + w as int, 16 + 2 * w as int)[i - 16 - w]);
            } else {
                assert(n < 16 && i < n + 1);
                assert(obj[i] == u._unk@.subrange(0, n + 1int)[i]);
            }
        }
    }
}

/// The union and the words that follow sit where a short and a long string have them: an
/// unknown string read as either kind is that kind decoded from the same bytes.
pub proof fn lemma_unknown_reads_as_known(bytes: Seq<u8>)
    requires
        bytes.len() == string_layout_size(word_size()),
    ensures
        as_short(CppUnknownString::spec_decode(bytes)) == CppShortString::spec_decode(bytes),
        as_long(CppUnknownString::spec_decode(bytes)) == CppLongString::spec_decode(bytes),
{
    let u = CppUnknownString::spec_decode(bytes);
    lemma_array16(bytes.subrange(0, 16));
    assert(u._unk@ == bytes.subrange(0, 16));
    assert forall|k: int| 0 <= k < 8 implies #[trigger] u._unk@[k] == bytes[k] by {}
    assert(word_value_w(u._unk@, 0, word_size()) == word_value_w(bytes, 0, word_size()));
}


/// A short string validates exactly when its length is 1 to 15, its allocation size is
/// 15, the byte at its length is zero and none before it is (a 15-character string with
/// its terminator fills the buffer); a buffer length mismatch is reported only for a
/// length above 15, which cannot fit.
pub proof fn lemma_short_string_checks(s: CppShortString)
    ensures
        s.spec_verify() is Ok <==> {
            &&& 1 <= s.length <= 15
            &&& s.alloc_size == 15
            &&& s.string@[s.length as int] == 0u8
            &&& forall|i: int| 0 <= i < s.length ==> s.string@[i] != 0u8
        },
        (s.spec_verify() matches Err(StdError::CommonString(e)) && e is BufferLengthMismatch) <==> (s.length > 15
            && s.alloc_size == 15),
{
    assert(s.string@.len() == 16);
    if 1 <= s.length <= 15 && s.alloc_size == 15 {
        let buf = s.string@.subrange(0, s.length + 1);
        assert(buf.len() == s.length + 1);
        assert(buf[s.length as int] == s.string@[s.length as int]);
        assert((exists|i: int| 0 <= i < s.length && buf[i] == 0u8) <==> (exists|i: int|
            0 <= i < s.length && s.string@[i] == 0u8)) by {
            if exists|i: int| 0 <= i < s.length && buf[i] == 0u8 {
                let i = choose|i: int| 0 <= i < s.length && buf[i] == 0u8;
                assert(s.string@[i] == 0u8);
            }
            if exists|i: int| 0 <= i < s.length && s.string@[i] == 0u8 {
                let i = choose|i: int| 0 <= i < s.length && s.string@[i] == 0u8;
                assert(buf[i] == 0u8);
            }
        }
    }
}


/// A long string validates exactly when its length is at least 16, its allocation size
/// is at least 15 and one of the table's, and its address is not null; a length below 16
/// is reported as too short, with the length.
pub proof fn lemma_long_string_checks(s: CppLongString)
    ensures
        s.spec_verify() is Ok <==> {
            &&& s.length >= 16
            &&& s.alloc_size >= 15
            &&& alloc_size_table().contains(s.alloc_size)
            &&& s.c_str_addr != 0
        },
        s.spec_verify() == Err::<(), StdError>(
            StdError::Vcpp(Error::String(StringError::Long(LongStringError::TooShort { length: s.length }))),
        ) <==> s.length < 16,
{
}

} // verus!
