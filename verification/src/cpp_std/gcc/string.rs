//! GCC `std::string` as it sits in memory.
//!
//! A string of up to 15 characters is kept in a buffer inside the object (short); a
//! longer one lives elsewhere, and the object holds its address, length and capacity
//! (long).

use vstd::prelude::*;
use vstd::string::StringSliceAdditionalSpecFns;

use crate::cpp_std::{
    c_str_answer, c_str_from_read, c_str_utf8, check_buffer, one_more_read, spec_check_buffer, string_answer,
    string_from_c_str,
};
use crate::error::gcc::{Error, LongStringError, ShortStringError, StringError};
use crate::error::{CommonStringError, StdError};
use crate::mem::{MemAddress, Reader};
use crate::pattern_scan::{BytePattern, FromBytes, ScanPattern};
use crate::pattern_scan::{mask_at, masked_match};
use crate::util::{array16, array16_at, array8, array8_at, fill_bytes, lemma_array16, read_usize_le, usize_to_bytes};
use crate::verifiable::Verifiable;
use crate::{word_bytes, word_size, word_value};

verus! {

/// An std::string (gcc) with up to 16 bytes (including the null terminator).
///
/// Consists of a pointer to the string (which is in the object), the string length,
/// and the null-terminated string itself.
#[derive(Copy, Clone, Debug)]
pub struct CppShortString {
    /// The address of the characters (inside the object).
    pub c_str: MemAddress,
    /// The length of the string.
    pub length: usize,
    /// A buffer containing the null-terminated string; the bytes after the null
    /// terminator are garbage.
    pub string: [u8; 16],
}

/// The error that a short string's checks give.
pub open spec fn short_error(length: usize) -> StdError {
    StdError::Gcc(Error::String(StringError::Short(ShortStringError::InvalidLength { length })))
}

impl CppShortString {
    /// Converts the internal buffer into a Rust `String`.
    ///
    /// Fails if the buffer does not hold a C string of the length, or if the characters
    /// are not valid UTF-8.
    pub fn to_string(&self) -> (r: Result<String, CommonStringError>)
        requires
            self.length <= 15,
        ensures
            match spec_check_buffer(self.string@.subrange(0, self.length + 1), self.length as nat) {
                Err(e) => r == Err::<String, CommonStringError>(e),
                Ok(_) => {
                    &&& r is Ok <==> vstd::utf8::valid_utf8(self.string@.subrange(0, self.length as int))
                    &&& r matches Ok(s) ==> s@ == vstd::utf8::decode_utf8(self.string@.subrange(0, self.length as int))
                    &&& r matches Err(e) ==> e is InvalidUtf8
                },
            },
    {
        let buf = self.string.as_slice().split_at(self.length + 1).0;
        match check_buffer(buf, self.length) {
            Err(e) => Err(e),
            Ok(()) => {
                assert(buf@.subrange(0, self.length as int) =~= self.string@.subrange(0, self.length as int));
                c_str_utf8(buf, self.length)
            },
        }
    }
}

impl Verifiable for CppShortString {
    type Error = StdError;

    open spec fn layout_size() -> nat {
        2 * word_size() + 16
    }

    open spec fn spec_decode(bytes: Seq<u8>) -> CppShortString {
        CppShortString {
            c_str: word_value(bytes, 0),
            length: word_value(bytes, word_size() as int),
            string: array16(bytes.subrange(2 * word_size() as int, 2 * word_size() + 16int)),
        }
    }

    /// The length is within `1..=15` and the buffer holds a C string of that length.
    open spec fn spec_verify(&self) -> Result<(), StdError> {
        if self.length < 1 || self.length > 15 {
            Err(short_error(self.length))
        } else {
            match spec_check_buffer(self.string@.subrange(0, self.length + 1), self.length as nat) {
                Err(e) => Err(StdError::CommonString(e)),
                Ok(_) => Ok(()),
            }
        }
    }

    fn byte_size() -> (r: usize) {
        2 * crate::pattern_scan::word_size_bytes() + 16
    }

    fn decode(bytes: &[u8]) -> (r: CppShortString) {
        let w = crate::pattern_scan::word_size_bytes();
        CppShortString {
            c_str: read_usize_le(bytes, 0),
            length: read_usize_le(bytes, w),
            string: array16_at(bytes, 2 * w),
        }
    }

    fn verify_shallow(&self) -> (r: Result<(), StdError>) {
        if self.length < 1 || self.length > 15 {
            Err(StdError::Gcc(Error::String(StringError::Short(ShortStringError::InvalidLength { length: self.length }))))
        } else {
            let buf = self.string.as_slice().split_at(self.length + 1).0;
            match check_buffer(buf, self.length) {
                Err(e) => Err(StdError::CommonString(e)),
                Ok(()) => Ok(()),
            }
        }
    }
}

/// An std::string (gcc) with more than 16 bytes (including the null terminator).
///
/// Consists of a pointer to the string, the string length, the capacity, and eight more
/// bytes of unknown purpose.
#[derive(Copy, Clone, Debug)]
pub struct CppLongString {
    /// The address of the C string.
    pub c_str: MemAddress,
    /// The length of the string.
    pub length: usize,
    /// The capacity of the string buffer (not including the null terminator).
    pub capacity: usize,
    /// Bytes of unknown purpose; they change when the string is copied.
    pub unk: [u8; 8],
}

impl CppLongString {
    /// Returns the referenced C string, null terminator included.
    ///
    /// Fails if the read fails, or if what was read is not a C string of the
    /// string's length.
    pub fn get_c_str<T: Reader>(&self, reader: &mut T) -> (r: Result<Vec<u8>, CommonStringError>)
        requires
            self.length < usize::MAX,
        ensures
            one_more_read(old(reader).read_log(), final(reader).read_log()),
            final(reader).read_log().last().addr == self.c_str,
            final(reader).read_log().last().size == self.length + 1,
            c_str_answer(final(reader).read_log().last(), self.length as nat, r),
            r matches Ok(v) ==> v@.len() == self.length + 1 && spec_check_buffer(v@, self.length as nat) is Ok,
            r matches Err(e) ==> e is Io || e is NoNullTerminator || e is EmbeddedNullBytes,
    {
        let mut str_buf = fill_bytes(0, self.length + 1);
        let read = reader.read_to_buffer(self.c_str, str_buf.as_mut_slice());
        proof {
            assert(reader.read_log().subrange(0, old(reader).read_log().len() as int) =~= old(reader).read_log());
        }
        c_str_from_read(read, str_buf, self.length)
    }

    /// Returns the referenced C string as a Rust `String`.
    ///
    /// Fails if the read fails, or if the C string or its encoding are invalid.
    pub fn to_string<T: Reader>(&self, reader: &mut T) -> (r: Result<String, CommonStringError>)
        requires
            self.length < usize::MAX,
        ensures
            r matches Ok(s) ==> exists|b: Seq<u8>|
                b.len() == self.length && (forall|i: int| 0 <= i < b.len() ==> b[i] != 0u8)
                    && vstd::utf8::valid_utf8(b) && s@ == vstd::utf8::decode_utf8(#[trigger] b.push(0u8).subrange(0, self.length as int)),
            r matches Err(e) ==> e is Io || e is NoNullTerminator || e is EmbeddedNullBytes || e is InvalidUtf8,
            one_more_read(old(reader).read_log(), final(reader).read_log()),
            final(reader).read_log().last().addr == self.c_str,
            final(reader).read_log().last().size == self.length + 1,
            string_answer(final(reader).read_log().last(), self.length as nat, r),
    {
        let c_str = self.get_c_str(reader);
        let ghost read = c_str;
        let r = string_from_c_str(c_str, self.length);
        proof {
            if read is Ok {
                let v = read->Ok_0@;
                let b = v.subrange(0, self.length as int);
                assert(b.push(0u8) =~= v);
            }
        }
        r
    }
}

/// The error that a long string's checks give, if any.
pub open spec fn long_check(s: CppLongString) -> Result<(), StdError> {
    if s.c_str == 0 {
        Err(StdError::Gcc(Error::String(StringError::Long(LongStringError::NullPtr))))
    } else if s.capacity < s.length {
        Err(
            StdError::Gcc(
                Error::String(
                    StringError::Long(
                        LongStringError::CapacityTooSmall { capacity: s.capacity, length: s.length },
                    ),
                ),
            ),
        )
    } else {
        Ok(())
    }
}

impl Verifiable for CppLongString {
    type Error = StdError;

    open spec fn layout_size() -> nat {
        3 * word_size() + 8
    }

    open spec fn spec_decode(bytes: Seq<u8>) -> CppLongString {
        CppLongString {
            c_str: word_value(bytes, 0),
            length: word_value(bytes, word_size() as int),
            capacity: word_value(bytes, 2 * word_size() as int),
            unk: array8(bytes.subrange(3 * word_size() as int, 3 * word_size() + 8int)),
        }
    }

    /// The pointer is not null and the capacity holds the length.
    open spec fn spec_verify(&self) -> Result<(), StdError> {
        long_check(*self)
    }

    fn byte_size() -> (r: usize) {
        3 * crate::pattern_scan::word_size_bytes() + 8
    }

    fn decode(bytes: &[u8]) -> (r: CppLongString) {
        let w = crate::pattern_scan::word_size_bytes();
        CppLongString {
            c_str: read_usize_le(bytes, 0),
            length: read_usize_le(bytes, w),
            capacity: read_usize_le(bytes, 2 * w),
            unk: array8_at(bytes, 3 * w),
        }
    }

    fn verify_shallow(&self) -> (r: Result<(), StdError>) {
        if self.c_str == 0 {
            Err(StdError::Gcc(Error::String(StringError::Long(LongStringError::NullPtr))))
        } else if self.capacity < self.length {
            Err(
                StdError::Gcc(
                    Error::String(
                        StringError::Long(
                            LongStringError::CapacityTooSmall {
                                capacity: self.capacity,
                                length: self.length,
                            },
                        ),
                    ),
                ),
            )
        } else {
            Ok(())
        }
    }
}

/// An std::string (gcc) of unknown kind: the fields both kinds share, and the 16 bytes
/// that are either the short buffer or the capacity and unknown bytes.
#[derive(Copy, Clone, Debug)]
pub struct CppUnknownString {
    /// The address of the characters.
    pub c_str: MemAddress,
    /// The string length.
    pub length: usize,
    /// The rest of the object.
    pub _unk2: [u8; 16],
}

impl Verifiable for CppUnknownString {
    type Error = core::convert::Infallible;

    open spec fn layout_size() -> nat {
        2 * word_size() + 16
    }

    open spec fn spec_decode(bytes: Seq<u8>) -> CppUnknownString {
        CppUnknownString {
            c_str: word_value(bytes, 0),
            length: word_value(bytes, word_size() as int),
            _unk2: array16(bytes.subrange(2 * word_size() as int, 2 * word_size() + 16int)),
        }
    }

    open spec fn spec_verify(&self) -> Result<(), core::convert::Infallible> {
        Ok(())
    }

    fn byte_size() -> (r: usize) {
        2 * crate::pattern_scan::word_size_bytes() + 16
    }

    fn decode(bytes: &[u8]) -> (r: CppUnknownString) {
        let w = crate::pattern_scan::word_size_bytes();
        CppUnknownString {
            c_str: read_usize_le(bytes, 0),
            length: read_usize_le(bytes, w),
            _unk2: array16_at(bytes, 2 * w),
        }
    }

    fn verify_shallow(&self) -> (r: Result<(), core::convert::Infallible>) {
        Ok(())
    }
}

/// A string of either kind.
#[derive(Copy, Clone, Debug)]
pub enum CppStringValue {
    Short(CppShortString),
    Long(CppLongString),
}

/// The short string an unknown string is, read as one.
pub open spec fn as_short(unk: CppUnknownString) -> CppShortString {
    CppShortString { c_str: unk.c_str, length: unk.length, string: unk._unk2 }
}

/// The long string an unknown string is, read as one: the capacity is the first word
/// of the rest and the unknown bytes follow it.
pub open spec fn as_long(unk: CppUnknownString) -> CppLongString {
    CppLongString {
        c_str: unk.c_str,
        length: unk.length,
        capacity: word_value(unk._unk2@, 0),
        unk: array8(unk._unk2@.subrange(word_size() as int, word_size() + 8int)),
    }
}

impl CppStringValue {
    /// Reads an unknown string as a short string if its length is below 16, as a long
    /// one otherwise, and validates it.
    pub fn from_unk(unk: CppUnknownString) -> (r: Result<CppStringValue, StdError>)
        ensures
            unk.length < 16 ==> r == match as_short(unk).spec_verify() {
                Ok(_) => Ok(CppStringValue::Short(as_short(unk))),
                Err(e) => Err(e),
            },
            unk.length >= 16 ==> r == match as_long(unk).spec_verify() {
                Ok(_) => Ok(CppStringValue::Long(as_long(unk))),
                Err(e) => Err(e),
            },
    {
        if unk.length < 16 {
            let shorty = CppShortString { c_str: unk.c_str, length: unk.length, string: unk._unk2 };
            match shorty.verify_shallow() {
                Ok(()) => Ok(CppStringValue::Short(shorty)),
                Err(e) => Err(e),
            }
        } else {
            let w = crate::pattern_scan::word_size_bytes();
            let rest = unk._unk2.as_slice();
            let long_boy = CppLongString {
                c_str: unk.c_str,
                length: unk.length,
                capacity: read_usize_le(rest, 0),
                unk: array8_at(rest, w),
            };
            match long_boy.verify_shallow() {
                Ok(()) => Ok(CppStringValue::Long(long_boy)),
                Err(e) => Err(e),
            }
        }
    }
}

/// The bytes a GCC string pattern looks for: any pointer, the length, and (for a short
/// string) the characters and the null terminator.
pub open spec fn gcc_pattern_value(s: Seq<u8>) -> Seq<u8> {
    if s.len() < 16 {
        Seq::new(word_size(), |i: int| 0u8) + word_bytes(s.len() as usize) + s.push(0u8) + Seq::new(
            (15 - s.len()) as nat,
            |i: int| 0u8,
        )
    } else {
        Seq::new(word_size(), |i: int| 0u8) + word_bytes(s.len() as usize) + Seq::new(16, |i: int| 0u8)
    }
}

/// Which bytes a GCC string pattern compares: the length, and (for a short string) the
/// characters and the null terminator.
pub open spec fn gcc_pattern_mask(s: Seq<u8>) -> Seq<bool> {
    if s.len() < 16 {
        Seq::new(word_size(), |i: int| false) + Seq::new(word_size(), |i: int| true) + Seq::new(
            (s.len() + 1) as nat,
            |i: int| true,
        ) + Seq::new((15 - s.len()) as nat, |i: int| false)
    } else {
        Seq::new(word_size(), |i: int| false) + Seq::new(word_size(), |i: int| true) + Seq::new(
            16,
            |i: int| false,
        )
    }
}

/// Creates a scan pattern for a GCC `std::string` holding `s`.
pub fn str_to_pattern(s: &str) -> (r: BytePattern)
    ensures
        r.wf(),
        r@.0 == gcc_pattern_value(s.spec_bytes()),
        r@.1 == Some(gcc_pattern_mask(s.spec_bytes())),
{
    let bytes = s.as_bytes();
    let len = bytes.len();
    let w = crate::pattern_scan::word_size_bytes();
    let len_as_bytes = usize_to_bytes(len);
    if len < 16 {
        let mut with_null = crate::util::slice_to_vec(bytes);
        with_null.push(0);
        let str_field = BytePattern::new(with_null, None).concat(BytePattern::ignore(15 - len));
        let p = BytePattern::ignore(w).concat(BytePattern::new(len_as_bytes, None)).concat(str_field);
        assert(p@.0 =~= gcc_pattern_value(s.spec_bytes()));
        assert(p@.1.unwrap() =~= gcc_pattern_mask(s.spec_bytes()));
        p
    } else {
        let p = BytePattern::ignore(w).concat(BytePattern::new(len_as_bytes, None)).concat(BytePattern::ignore(16));
        assert(p@.0 =~= gcc_pattern_value(s.spec_bytes()));
        assert(p@.1.unwrap() =~= gcc_pattern_mask(s.spec_bytes()));
        p
    }
}

/// A GCC string pattern finds exactly the string objects that hold its string: those
/// whose length is the string's and, for a string of fewer than 16 bytes, whose buffer
/// begins with its bytes and a null terminator.
pub proof fn lemma_gcc_pattern_finds(s: Seq<u8>, obj: Seq<u8>)
    requires
        s.len() <= usize::MAX,
        obj.len() == 2 * word_size() + 16,
    ensures
        masked_match(gcc_pattern_value(s), Some(gcc_pattern_mask(s)), obj) <==> {
            let u = CppUnknownString::spec_decode(obj);
            &&& u.length == s.len()
            &&& s.len() < 16 ==> u._unk2@.subrange(0, s.len() + 1int) == s.push(0u8)
        },
{
    let w = word_size();
    let n = s.len();
    let v = gcc_pattern_value(s);
    let m = gcc_pattern_mask(s);
    let u = CppUnknownString::spec_decode(obj);
    lemma_array16(obj.subrange(2 * w as int, 2 * w + 16int));
    assert(u._unk2@ == obj.subrange(2 * w as int, 2 * w + 16int));
    crate::util::lemma_word_bytes_match(obj, w as int, w, n as usize);
    assert(word_bytes(n as usize) == crate::word_bytes_w(n as usize, w));
    assert(word_value(obj, w as int) == crate::word_value_w(obj, w as int, w));
    assert(v.len() == 2 * w + 16 && m.len() == v.len());
    if masked_match(v, Some(m), obj) {
        assert forall|i: int| 0 <= i < w implies #[trigger] obj.subrange(w as int, 2 * w as int)[i] == word_bytes(n as usize)[i] by {
            assert(m[w + i] && v[w + i] == word_bytes(n as usize)[i]);
            assert(obj[w + i] == v[w + i]);
        }
        assert(obj.subrange(w as int, 2 * w as int) =~= word_bytes(n as usize));
        if n < 16 {
            assert forall|i: int| 0 <= i < n + 1 implies #[trigger] u._unk2@.subrange(0, n + 1int)[i] == s.push(0u8)[i] by {
                assert(m[2 * w + i] && v[2 * w + i] == s.push(0u8)[i]);
                assert(obj[2 * w + i] == v[2 * w + i]);
            }
            assert(u._unk2@.subrange(0, n + 1int) =~= s.push(0u8));
        }
    }
    if u.length == n && (n < 16 ==> u._unk2@.subrange(0, n + 1int) == s.push(0u8)) {
        assert(obj.subrange(w as int, 2 * w as int) == word_bytes(n as usize));
        assert forall|i: int| 0 <= i < v.len() && mask_at(Some(m), i) implies #[trigger] obj[i] == v[i] by {
            if w <= i < 2 * w {
                assert(obj[i] == obj.subrange(w as int, 2 * w as int)[i - w]);
            } else {
                assert(n < 16 && 2 * w <= i < 2 * w + n + 1);
                assert(obj[i] == u._unk2@.subrange(0, n + 1int)[i - 2 * w]);
            }
        }
    }
}

/// The words and bytes after the length sit where a short and a long string have them:
/// an unknown string read as either kind is that kind decoded from the same bytes.
pub proof fn lemma_unknown_reads_as_known(bytes: Seq<u8>)
    requires
        bytes.len() == CppUnknownString::layout_size(),
    ensures
        as_short(CppUnknownString::spec_decode(bytes)) == CppShortString::spec_decode(bytes),
        as_long(CppUnknownString::spec_decode(bytes)) == CppLongString::spec_decode(bytes),
{
    let w = word_size() as int;
    let u = CppUnknownString::spec_decode(bytes);
    let rest = bytes.subrange(2 * w, 2 * w + 16);
    lemma_array16(rest);
    assert(u._unk2@ == rest);
    assert forall|k: int| 0 <= k < 8 implies #[trigger] rest[k] == bytes[2 * w + k] by {}
    assert(word_value(rest, 0) == word_value(bytes, 2 * w));
    assert(rest.subrange(w, w + 8) =~= bytes.subrange(3 * w, 3 * w + 8));
}


/// A long string validates exactly when its pointer is not null and its capacity is at
/// least its length (a full buffer, capacity equal to length, included); a null pointer
/// is reported as such, and a capacity below the length as too small, with both values.
pub proof fn lemma_long_string_checks(s: CppLongString)
    ensures
        s.spec_verify() is Ok <==> (s.c_str != 0 && s.length <= s.capacity),
        s.spec_verify() == Err::<(), StdError>(StdError::Gcc(Error::String(StringError::Long(LongStringError::NullPtr))))
            <==> s.c_str == 0,
        s.spec_verify() == Err::<(), StdError>(
            StdError::Gcc(
                Error::String(
                    StringError::Long(
                        LongStringError::CapacityTooSmall { capacity: s.capacity, length: s.length },
                    ),
                ),
            ),
        ) <==> (s.c_str != 0 && s.capacity < s.length),
{
}


/// A short string validates exactly when its length is 1 to 15, the byte at its length
/// is zero and none before it is; a length outside 1 to 15 is reported as invalid, with
/// the length.
pub proof fn lemma_short_string_checks(s: CppShortString)
    ensures
        s.spec_verify() is Ok <==> {
            &&& 1 <= s.length <= 15
            &&& s.string@[s.length as int] == 0u8
            &&& forall|i: int| 0 <= i < s.length ==> s.string@[i] != 0u8
        },
        s.spec_verify() == Err::<(), StdError>(
            StdError::Gcc(Error::String(StringError::Short(ShortStringError::InvalidLength { length: s.length }))),
        ) <==> (s.length < 1 || s.length > 15),
{
    assert(s.string@.len() == 16);
    if 1 <= s.length <= 15 {
        let buf = s.string@.subrange(0, s.length + 1);
        assert(buf.len() == s.length + 1);
        assert(buf[s.length as int] == s.string@[s.length as int]);
        if exists|i: int| 0 <= i < s.length && buf[i] == 0u8 {
            let i = choose|i: int| 0 <= i < s.length && buf[i] == 0u8;
            assert(s.string@[i] == 0u8);
        }
        if exists|i: int| 0 <= i < s.length && s.string@[i] == 0u8 {
            let i = choose|i: int| 0 <= i < s.length && s.string@[i] == 0u8;
            assert(buf[i] == 0u8);
        }
    }
}

} // verus!
