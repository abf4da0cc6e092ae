use libkrebs::cpp_std::check_buffer;
use libkrebs::cpp_std::vcpp::string::{
    get_alloc_size, str_to_pattern, str_to_pattern_with_word, CppLongString, CppShortString,
    CppStringValue, CppUnknownString,
};
use libkrebs::cpp_std::vcpp::vector::CppVector;
use libkrebs::error::vcpp::{LongStringError, ShortStringError, StringError, VectorError};
use libkrebs::error::vcpp::Error;
use libkrebs::error::{CommonStringError, StdError};
use libkrebs::pattern_scan::ScanPattern;
use libkrebs::Verifiable;

// The fixtures are objects of a 32-bit process: words are four bytes.
const WORD32: usize = 4;

#[test]
fn string_short_strings() {
    let str_short1 = [
        0x50, 0x61, 0x72, 0x74, 0x0, 0xcc, 0xcc, 0xcc, 0xcc, 0xcc, 0xcc, 0xcc, 0xcc, 0xcc,
        0xcc, 0xcc, 0x4, 0x0, 0x0, 0x0, 0xf, 0x0, 0x0, 0x0,
    ];
    let str_short2 = [
        0x50, 0x61, 0x72, 0x74, 0x0, 0xcc, 0xcc, 0xcc, 0xcc, 0xcc, 0xcc, 0xcc, 0xcc, 0xcc,
        0xcc, 0xcc, 0x4, 0x0, 0x0, 0x0, 0xf, 0x0, 0x0, 0x0,
    ];
    let str_short3 = [
        0x4e, 0x6f, 0x20, 0x50, 0x61, 0x72, 0x74, 0x0, 0xcc, 0xcc, 0xcc, 0xcc, 0xcc, 0xcc,
        0xcc, 0xcc, 0x7, 0x0, 0x0, 0x0, 0xf, 0x0, 0x0, 0x0,
    ];

    CppShortString::from_bytes_with_word(&str_short1, WORD32).unwrap();
    CppShortString::from_bytes_with_word(&str_short2, WORD32).unwrap();
    CppShortString::from_bytes_with_word(&str_short3, WORD32).unwrap();
}

#[test]
#[should_panic]
fn string_bad_short_strings() {
    let bad_str_short1 = [
        0x50, 0x61, 0x0, 0x74, 0x0, 0xcc, 0xcc, 0xcc, 0xcc, 0xcc, 0xcc, 0xcc, 0xcc, 0xcc, 0xcc,
        0xcc, 0x4, 0x0, 0x0, 0x0, 0xf, 0x0, 0x0, 0x0,
    ];

    CppShortString::from_bytes_with_word(&bad_str_short1, WORD32).unwrap();
}

#[test]
fn string_long_strings() {
    let str_long1 = [
        0xf8, 0x26, 0xde, 0x0, 0x44, 0x3b, 0x2, 0x0, 0x5c, 0xf7, 0xcf, 0x0, 0x5f, 0x1, 0x3,
        0x0, 0x16, 0x0, 0x0, 0x0, 0x1f, 0x0, 0x0, 0x0,
    ];
    let str_long2 = [
        0x8, 0x21, 0xde, 0x0, 0x5, 0x0, 0x0, 0x0, 0x0, 0x0, 0x0, 0x0, 0x5c, 0xf7, 0xcf, 0x0,
        0x16, 0x0, 0x0, 0x0, 0x1f, 0x0, 0x0, 0x0,
    ];
    let str_long3 = [
        0x28, 0x6b, 0xdd, 0x0, 0x5, 0x0, 0x0, 0x0, 0x0, 0x0, 0x0, 0x0, 0x5c, 0xf7, 0xcf, 0x0,
        0x2f, 0x0, 0x0, 0x0, 0x2f, 0x0, 0x0, 0x0,
    ];

    CppLongString::from_bytes_with_word(&str_long1, WORD32).unwrap();
    CppLongString::from_bytes_with_word(&str_long2, WORD32).unwrap();
    CppLongString::from_bytes_with_word(&str_long3, WORD32).unwrap();
}

#[test]
#[should_panic]
fn string_bad_long_strings() {
    let bad_str_long1 = [
        0x00, 0x00, 0x0, 0x00, 0x0, 0xcc, 0xcc, 0xcc, 0xcc, 0xcc, 0xcc, 0xcc, 0xcc, 0xcc, 0xcc,
        0xcc, 0xFF, 0x0, 0x0, 0x0, 0xf, 0x0, 0x0, 0x0,
    ];

    CppLongString::from_bytes_with_word(&bad_str_long1, WORD32).unwrap();
}

#[test]
fn string_string_masks() {
    let short_test_str = String::from("lol");
    let short_test_pattern = str_to_pattern_with_word(&short_test_str, WORD32);
    let short_test_correct_pattern = [
        'l' as u8, 'o' as u8, 'l' as u8, 0x00, 0x00, 0x00, 0x00, 0x00, 0x00, 0x00, 0x00, 0x00,
        0x00, 0x00, 0x00, 0x00, 0x03, 0x00, 0x00, 0x00, 0x0F, 0x00, 0x00, 0x00,
    ];

    assert_eq!(short_test_pattern.len(), short_test_correct_pattern.len());
    assert_eq!(short_test_pattern.value(), &short_test_correct_pattern[..]);

    let long_test_str = String::from("lol lol lol lol lol lol");
    let long_test_pattern = str_to_pattern_with_word(&long_test_str, WORD32);
    let long_test_bytes: [u8; 24] = [
        0x00, 0xF2, 0xCD, 0x00, 0x05, 0x00, 0x00, 0x00, 0x00, 0x00, 0x00, 0x00, 0xD0, 0xFE,
        0x9F, 0x00, 0x17, 0x00, 0x00, 0x00, 0x1F, 0x00, 0x00, 0x00,
    ];
    let long_test_correct_pattern: [u8; 24] = [
        0x00, 0x00, 0x00, 0x00, 0x00, 0x00, 0x00, 0x00, 0x00, 0x00, 0x00, 0x00, 0x00, 0x00,
        0x00, 0x00, 0x17, 0x00, 0x00, 0x00, 0x1F, 0x00, 0x00, 0x00,
    ];

    assert!(long_test_pattern.matches(&long_test_bytes[..]));
    assert_eq!(long_test_pattern.len(), short_test_correct_pattern.len());
    assert_eq!(long_test_pattern.value(), &long_test_correct_pattern[..]);
}

#[test]
fn alloc_size_deduction() {
    assert_eq!(get_alloc_size(3), 15);
    assert_eq!(get_alloc_size(18), 31);
    assert_eq!(get_alloc_size(31), 47);
    assert_eq!(get_alloc_size(35), 47);
}

#[test]
fn string_pass_the_vibe_check() {
    let test_str = "Once upon a time and a very good time it was there was a moocow coming down along the road and this moocow that was coming down along the road met a nicens little boy named baby tuckoo";
    let test_str_bytes: Vec<u8> = test_str.bytes().chain(std::iter::once(0x00)).collect();

    check_buffer(&test_str_bytes, test_str.len()).unwrap();
}

#[test]
#[should_panic]
fn string_fail_the_vibe_check() {
    let test_str = "Once upon a time and a very good time it was there was a mo\0cow coming down along the road and this moocow that was coming down along the road met a nicens little boy named baby tuckoo";
    let test_str_bytes: Vec<u8> = test_str.bytes().collect();

    check_buffer(&test_str_bytes, test_str.len()).unwrap();
}

#[test]
fn vecs() {
    let vec0 = [0x90, 0x1e, 0xde, 0x0, 0xa0, 0x1e, 0xde, 0x0, 0xa0, 0x1e, 0xde, 0x0];
    let vec1 = [0xf8, 0xd6, 0xdd, 0x0, 0xc0, 0xd7, 0xdd, 0x0, 0xc0, 0xd7, 0xdd, 0x0];

    // Elements of four bytes (a `char` in the C++ program).
    let cpp_vec0: CppVector<u32> = CppVector::decode(&vec0);
    let cpp_vec1: CppVector<u32> = CppVector::decode(&vec1);

    cpp_vec0.verify_shallow().unwrap();
    cpp_vec1.verify_shallow().unwrap();
}

#[test]
#[should_panic]
fn bad_vecs() {
    let bad_vec = [0x90, 0x1e, 0xde, 0x0, 0xa0, 0x1e, 0xce, 0x0, 0xa0, 0x1e, 0xde, 0x0];

    let cpp_vec0: CppVector<u32> = CppVector::decode(&bad_vec);

    cpp_vec0.verify_shallow().unwrap();
}

#[test]
fn alloc_sizes_of_long_strings() {
    assert_eq!(get_alloc_size(15), 15);
    assert_eq!(get_alloc_size(16), 31);
    assert_eq!(get_alloc_size(0x11DAEC), 0x11DAED);
    assert_eq!(get_alloc_size(0x21), 0x2F);
}

#[test]
fn vcpp_short_string_errors() {
    let mut bytes = [0u8; 24];
    bytes[20] = 15;
    match CppShortString::from_bytes_with_word(&bytes, WORD32) {
        Err(StdError::Vcpp(Error::String(StringError::Short(ShortStringError::ZeroLength)))) => {}
        _ => panic!("expected a zero length"),
    }
    bytes[16] = 3;
    bytes[20] = 16;
    match CppShortString::from_bytes_with_word(&bytes, WORD32) {
        Err(StdError::Vcpp(Error::String(StringError::Short(ShortStringError::BadAllocSize { got })))) => {
            assert_eq!(got, 16)
        }
        _ => panic!("expected a bad allocation size"),
    }
    bytes[20] = 15;
    bytes[16] = 20;
    match CppShortString::from_bytes_with_word(&bytes, WORD32) {
        Err(StdError::CommonString(CommonStringError::BufferLengthMismatch { buf_len, str_len })) => {
            assert_eq!((buf_len, str_len), (16, 20))
        }
        _ => panic!("expected a length mismatch"),
    }
    bytes[16] = 2;
    bytes[0] = b'o';
    bytes[1] = b'k';
    let s = CppShortString::from_bytes_with_word(&bytes, WORD32).unwrap();
    assert_eq!(s.to_string().unwrap(), "ok");
}

#[test]
fn vcpp_long_string_errors() {
    let mut bytes = [0u8; 24];
    bytes[0] = 0x44;
    bytes[16] = 10;
    bytes[20] = 31;
    match CppLongString::from_bytes_with_word(&bytes, WORD32) {
        Err(StdError::Vcpp(Error::String(StringError::Long(LongStringError::TooShort { length })))) => {
            assert_eq!(length, 10)
        }
        _ => panic!("expected a short length"),
    }
    bytes[16] = 20;
    bytes[20] = 7;
    match CppLongString::from_bytes_with_word(&bytes, WORD32) {
        Err(StdError::Vcpp(Error::String(StringError::Long(LongStringError::AllocTooSmall { alloc_size })))) => {
            assert_eq!(alloc_size, 7)
        }
        _ => panic!("expected a small allocation"),
    }
    bytes[20] = 32;
    match CppLongString::from_bytes_with_word(&bytes, WORD32) {
        Err(StdError::Vcpp(Error::String(StringError::Long(LongStringError::InvalidAllocSize { alloc_size })))) => {
            assert_eq!(alloc_size, 32)
        }
        _ => panic!("expected an invalid allocation size"),
    }
    bytes[20] = 31;
    bytes[0] = 0;
    match CppLongString::from_bytes_with_word(&bytes, WORD32) {
        Err(StdError::Vcpp(Error::String(StringError::Long(LongStringError::NullPtr)))) => {}
        _ => panic!("expected a null pointer"),
    }
}

#[test]
fn vcpp_native_width_decoding() {
    let w = std::mem::size_of::<usize>();
    let mut bytes = vec![0u8; 16 + 2 * w];
    bytes[0] = b'h';
    bytes[1] = b'i';
    bytes[16] = 2;
    bytes[16 + w] = 15;
    let unk = CppUnknownString::decode(&bytes);
    match CppStringValue::from_unk(unk) {
        Ok(CppStringValue::Short(s)) => assert_eq!(s.to_string().unwrap(), "hi"),
        _ => panic!("expected a short string"),
    }
    let p = str_to_pattern("hi");
    assert_eq!(p.len(), 16 + 2 * w);
    assert_eq!(p.value()[16], 2);
    assert_eq!(p.value()[16 + w], 15);
}

#[test]
fn vector_sizes_and_misalignment() {
    let bytes = [0x10, 0, 0, 0, 0x1a, 0, 0, 0, 0x20, 0, 0, 0];
    let v: CppVector<u32> = CppVector::decode(&bytes);
    assert_eq!(v.byte_size(), 10);
    assert_eq!(v.array_size(), 16);
    assert_eq!(v.len(), 2);
    match v.verify_shallow() {
        Err(VectorError::Misaligned { diff, element_size }) => assert_eq!((diff, element_size), (10, 4)),
        _ => panic!("expected misalignment"),
    }
    let same = [0x10, 0, 0, 0, 0x10, 0, 0, 0, 0x20, 0, 0, 0];
    let v: CppVector<u8> = CppVector::decode(&same);
    match v.verify_shallow() {
        Err(VectorError::InvalidRange { first_addr, last_addr }) => assert_eq!((first_addr, last_addr), (0x10, 0x10)),
        _ => panic!("expected an invalid range"),
    }
}

#[test]
fn vcpp_pattern_finds_exactly_its_string() {
    let part = [
        0x50, 0x61, 0x72, 0x74, 0x0, 0xcc, 0xcc, 0xcc, 0xcc, 0xcc, 0xcc, 0xcc, 0xcc, 0xcc,
        0xcc, 0xcc, 0x4, 0x0, 0x0, 0x0, 0xf, 0x0, 0x0, 0x0,
    ];
    let p = str_to_pattern_with_word("Part", WORD32);
    assert!(p.matches(&part));
    // Another allocation size, another length or other characters are not this string.
    let mut other_alloc = part;
    other_alloc[20] = 0x1F;
    assert!(!p.matches(&other_alloc));
    let mut other_len = part;
    other_len[16] = 5;
    assert!(!p.matches(&other_len));
    let mut other_char = part;
    other_char[0] = b'Q';
    assert!(!p.matches(&other_char));
    // The bytes after the null terminator are not compared.
    let mut other_garbage = part;
    other_garbage[9] = 0x00;
    assert!(p.matches(&other_garbage));
}

#[test]
fn vcpp_unknown_reads_as_known() {
    let str_short3 = [
        0x4e, 0x6f, 0x20, 0x50, 0x61, 0x72, 0x74, 0x0, 0xcc, 0xcc, 0xcc, 0xcc, 0xcc, 0xcc,
        0xcc, 0xcc, 0x7, 0x0, 0x0, 0x0, 0xf, 0x0, 0x0, 0x0,
    ];
    let direct = CppShortString::from_bytes_with_word(&str_short3, WORD32).unwrap();
    match CppStringValue::from_unk(CppUnknownString::decode_with_word(&str_short3, WORD32)) {
        Ok(CppStringValue::Short(s)) => {
            assert_eq!(s.string, direct.string);
            assert_eq!(s.length, direct.length);
            assert_eq!(s.alloc_size, direct.alloc_size);
        }
        _ => panic!("expected a short string"),
    }
    let w = std::mem::size_of::<usize>();
    let mut long = vec![0u8; 16 + 2 * w];
    long[0] = 0x10;
    long[1] = 0x20;
    long[16] = 20;
    long[16 + w] = 31;
    let direct = CppLongString::decode(&long);
    match CppStringValue::from_unk(CppUnknownString::decode(&long)) {
        Ok(CppStringValue::Long(l)) => {
            assert_eq!(l.c_str_addr, direct.c_str_addr);
            assert_eq!(l.c_str_addr, 0x2010);
            assert_eq!(l.length, 20);
            assert_eq!(l.alloc_size, 31);
        }
        _ => panic!("expected a long string"),
    }
}

#[test]
fn alloc_size_at_the_largest_length() {
    assert_eq!(get_alloc_size(1_170_156), 1_170_157);
    assert_eq!(get_alloc_size(1_170_157), 1_170_157);
}
