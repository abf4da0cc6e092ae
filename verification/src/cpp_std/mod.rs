//! Layouts of C++ standard library containers as they sit in memory, for GCC
//! (`gcc`) and MSVC (`vcpp`), with checks that rule out bytes that cannot be such a
//! container, and scan patterns that find them.
//!
//! Decoding a container from bytes does not confirm that the memory holds one; it only
//! rules out structurally invalid states.

pub mod gcc;
pub mod vcpp;

use vstd::prelude::*;

use crate::error::{CommonStringError, MemError};
use crate::mem::reader::{log_extends, ReadEvent};

verus! {

/// The bytes hold a C string of exactly `len` bytes: `len` non-null bytes and a null
/// terminator.
pub open spec fn spec_check_buffer(bytes: Seq<u8>, len: nat) -> Result<(), CommonStringError> {
    if bytes.len() != len + 1 {
        Err(CommonStringError::BufferLengthMismatch { buf_len: bytes.len() as usize, str_len: len as usize })
    } else if bytes[len as int] != 0u8 {
        Err(CommonStringError::NoNullTerminator { str_len: len as usize })
    } else if exists|i: int| 0 <= i < len && bytes[i] == 0u8 {
        Err(CommonStringError::EmbeddedNullBytes)
    } else {
        Ok(())
    }
}

/// Tests whether the buffer contains a C string of the given length.
///
/// `len` is the number of bytes before the null terminator; the buffer must therefore be
/// exactly `len + 1` bytes.
pub fn check_buffer(bytes: &[u8], len: usize) -> (r: Result<(), CommonStringError>)
    requires
        len < usize::MAX,
    ensures
        r == spec_check_buffer(bytes@, len as nat),
{
    if bytes.len() != len + 1 {
        Err(CommonStringError::BufferLengthMismatch { buf_len: bytes.len(), str_len: len })
    } else if bytes[len] != 0 {
        Err(CommonStringError::NoNullTerminator { str_len: len })
    } else {
        let mut i: usize = 0;
        while i < len
            invariant
                i <= len,
                bytes@.len() == len + 1,
                bytes@[len as int] == 0u8,
                forall|k: int| 0 <= k < i ==> bytes@[k] != 0u8,
            decreases len - i,
        {
            if bytes[i] == 0 {
                assert(bytes@[i as int] == 0u8);
                return Err(CommonStringError::EmbeddedNullBytes);
            }
            i = i + 1;
        }
        Ok(())
    }
}

/// What `String::from_utf8_lossy` makes of bytes (replacement characters for invalid
/// sequences).
pub uninterp spec fn lossy_utf8(bytes: Seq<u8>) -> Seq<char>;

/// `String::from_utf8_lossy(bytes).into_owned()` (std): the bytes decoded as UTF-8,
/// with each invalid sequence replaced by U+FFFD. The result is named `lossy_utf8`; on
/// valid UTF-8 it is the plain decoding.
#[verifier::external_body]
pub(crate) fn utf8_lossy(bytes: &[u8]) -> (r: String)
    ensures
        r@ == lossy_utf8(bytes@),
        vstd::utf8::valid_utf8(bytes@) ==> r@ == vstd::utf8::decode_utf8(bytes@),
{
    String::from_utf8_lossy(bytes).into_owned()
}

/// `String::from_utf8` (std): succeeds exactly on valid UTF-8, and then holds the
/// decoded characters.
#[verifier::external_body]
pub(crate) fn utf8_to_string(bytes: Vec<u8>) -> (r: Result<String, std::string::FromUtf8Error>)
    ensures
        r is Ok <==> vstd::utf8::valid_utf8(bytes@),
        r matches Ok(s) ==> s@ == vstd::utf8::decode_utf8(bytes@),
{
    String::from_utf8(bytes)
}

/// The characters of a C string held in a buffer of `len + 1` bytes, which must be
/// valid UTF-8.
pub fn c_str_utf8(buf: &[u8], len: usize) -> (r: Result<String, CommonStringError>)
    requires
        len < buf@.len(),
    ensures
        r is Ok <==> vstd::utf8::valid_utf8(buf@.subrange(0, len as int)),
        r matches Ok(s) ==> s@ == vstd::utf8::decode_utf8(buf@.subrange(0, len as int)),
        r matches Err(e) ==> e is InvalidUtf8,
{
    let no_null = crate::util::copy_range(buf, 0, len);
    match utf8_to_string(no_null) {
        Ok(s) => Ok(s),
        Err(e) => Err(CommonStringError::InvalidUtf8 { source: e }),
    }
}

/// The C string that a read into `buf` gives: the read's error, or the bytes read when
/// they are a C string of `length` bytes, or the error that their check gives.
pub fn c_str_from_read(read: Result<usize, MemError>, buf: Vec<u8>, length: usize) -> (r: Result<
    Vec<u8>,
    CommonStringError,
>)
    requires
        length < usize::MAX,
    ensures
        read matches Err(e) ==> r == Err::<Vec<u8>, CommonStringError>(CommonStringError::Io(e)),
        read is Ok ==> r == match spec_check_buffer(buf@, length as nat) {
            Err(e) => Err::<Vec<u8>, CommonStringError>(e),
            Ok(_) => Ok(buf),
        },
{
    match read {
        Err(e) => Err(CommonStringError::Io(e)),
        Ok(_) => match check_buffer(buf.as_slice(), length) {
            Err(e) => Err(e),
            Ok(()) => Ok(buf),
        },
    }
}

/// The `String` that a C string of `length` bytes gives: the error it carries, or its
/// characters when they are valid UTF-8.
pub fn string_from_c_str(c_str: Result<Vec<u8>, CommonStringError>, length: usize) -> (r: Result<
    String,
    CommonStringError,
>)
    requires
        c_str matches Ok(v) ==> length < v@.len(),
    ensures
        c_str matches Err(e) ==> r == Err::<String, CommonStringError>(e),
        c_str matches Ok(v) ==> (r is Ok <==> vstd::utf8::valid_utf8(v@.subrange(0, length as int))),
        c_str matches Ok(v) ==> (r matches Ok(s) ==> s@ == vstd::utf8::decode_utf8(
            v@.subrange(0, length as int),
        )),
        c_str matches Ok(v) ==> (r matches Err(e) ==> e is InvalidUtf8),
{
    match c_str {
        Err(e) => Err(e),
        Ok(v) => c_str_utf8(v.as_slice(), length),
    }
}

/// `after` is `before` followed by one more read.
pub open spec fn one_more_read(before: Seq<ReadEvent>, after: Seq<ReadEvent>) -> bool {
    after.len() == before.len() + 1 && log_extends(before, after)
}

/// What reading a C string of `length` bytes (and its terminator) gives for the read's
/// answer `e`: the read's error; or the bytes read, when they are such a C string; or the
/// error of their check.
pub open spec fn c_str_answer(e: ReadEvent, length: nat, r: Result<Vec<u8>, CommonStringError>) -> bool {
    match e.answer {
        Err(er) => r == Err::<Vec<u8>, CommonStringError>(CommonStringError::Io(er)),
        Ok((_, b)) => match spec_check_buffer(b, length) {
            Err(x) => r == Err::<Vec<u8>, CommonStringError>(x),
            Ok(_) => r matches Ok(v) && v@ == b,
        },
    }
}

/// What reading a string of `length` bytes gives for the read's answer `e`: the read's
/// error; or the error of the bytes' check as a C string; or their characters when they
/// are valid UTF-8, and otherwise [`CommonStringError::InvalidUtf8`].
pub open spec fn string_answer(e: ReadEvent, length: nat, r: Result<String, CommonStringError>) -> bool {
    match e.answer {
        Err(er) => r == Err::<String, CommonStringError>(CommonStringError::Io(er)),
        Ok((_, b)) => match spec_check_buffer(b, length) {
            Err(x) => r == Err::<String, CommonStringError>(x),
            Ok(_) => {
                &&& r is Ok <==> vstd::utf8::valid_utf8(b.subrange(0, length as int))
                &&& r matches Ok(s) ==> s@ == vstd::utf8::decode_utf8(b.subrange(0, length as int))
                &&& r matches Err(x) ==> x is InvalidUtf8
            },
        },
    }
}

} // verus!
