use libkrebs::cpp_std::check_buffer;
use libkrebs::cpp_std::gcc::string::{
    str_to_pattern, CppLongString, CppShortString, CppStringValue, CppUnknownString,
};
use libkrebs::error::gcc::{Error, LongStringError, ShortStringError, StringError};
use libkrebs::error::{CommonStringError, StdError};
use libkrebs::pattern_scan::ScanPattern;
use libkrebs::Verifiable;

#[test]
fn short_strings() {
    let str_short1 = [
        0xe0, 0x74, 0x5d, 0xc0, 0xfd, 0x7f, 0x00, 0x00, 0x07, 0x00, 0x00, 0x00, 0x00, 0x00,
        0x00, 0x00, 0x74, 0x65, 0x65, 0x20, 0x68, 0x65, 0x65, 0x00, 0xdf, 0x86, 0x41, 0xd5,
        0x53, 0x56, 0x00, 0x00,
    ];
    let str_short2 = [
        0xe0, 0x70, 0x01, 0x2b, 0xff, 0x7f, 0x00, 0x00, 0x07, 0x00, 0x00, 0x00, 0x00, 0x00,
        0x00, 0x00, 0x70, 0x65, 0x65, 0x20, 0x70, 0x65, 0x65, 0x00, 0xdf, 0x76, 0x28, 0x25,
        0x05, 0x56, 0x00, 0x00,
    ];
    let str_short3 = [
        0x90, 0xc7, 0xe2, 0x4a, 0xff, 0x7f, 0x00, 0x00, 0x07, 0x00, 0x00, 0x00, 0x00, 0x00,
        0x00, 0x00, 0x70, 0x6f, 0x6f, 0x20, 0x70, 0x6f, 0x6f, 0x00, 0xdf, 0x16, 0xbe, 0xae,
        0x7b, 0x55, 0x00, 0x00,
    ];

    CppShortString::from_bytes(&str_short1).unwrap();
    CppShortString::from_bytes(&str_short2).unwrap();
    CppShortString::from_bytes(&str_short3).unwrap();
}

#[test]
#[should_panic]
fn bad_short_strings() {
    let bad_str_short1 = [
        0xe0, 0x02, 0xb1, 0xf4, 0xfe, 0x7f, 0x00, 0x00, 0x07, 0x00, 0x00, 0x00, 0x00, 0x00,
        0x00, 0x00, 0x74, 0x65, 0x65, 0x20, 0x68, 0x65, 0x65, 0x65, 0x00, 0x56, 0xf4, 0xe4,
        0x74, 0x55, 0x00, 0x00,
    ];

    CppShortString::from_bytes(&bad_str_short1).unwrap();
}

#[test]
fn long_strings() {
    let str_long1 = [
        0xc0, 0x42, 0xfa, 0x5a, 0x24, 0x56, 0x00, 0x00, 0x07, 0x00, 0x00, 0x00, 0x00, 0x00,
        0x00, 0x00, 0x25, 0x00, 0x00, 0x00, 0x00, 0x00, 0x00, 0x00, 0x12, 0xc7, 0xef, 0x5a,
        0x24, 0x56, 0x00, 0x00,
    ];
    let str_long2 = [
        0xc0, 0x72, 0x36, 0x99, 0x39, 0x56, 0x00, 0x00, 0x07, 0x00, 0x00, 0x00, 0x00, 0x00,
        0x00, 0x00, 0x25, 0x00, 0x00, 0x00, 0x00, 0x00, 0x00, 0x00, 0x12, 0x07, 0x8f, 0x98,
        0x39, 0x56, 0x00, 0x00,
    ];
    let str_long3 = [
        0xc0, 0x22, 0x38, 0xac, 0x25, 0x56, 0x00, 0x00, 0x07, 0x00, 0x00, 0x00, 0x00, 0x00,
        0x00, 0x00, 0x25, 0x00, 0x00, 0x00, 0x00, 0x00, 0x00, 0x00, 0x12, 0x47, 0x8a, 0xab,
        0x25, 0x56, 0x00, 0x00,
    ];

    CppLongString::from_bytes(&str_long1).unwrap();
    CppLongString::from_bytes(&str_long2).unwrap();
    CppLongString::from_bytes(&str_long3).unwrap();
}

#[test]
#[should_panic]
fn bad_long_strings() {
    let bad_str_long1 = [
        0xc0, 0x22, 0x38, 0xac, 0x25, 0x56, 0x00, 0x00, 0x07, 0x00, 0x00, 0x00, 0x00, 0x00,
        0x00, 0x00, 0x06, 0x00, 0x00, 0x00, 0x00, 0x00, 0x00, 0x00, 0x12, 0x47, 0x8a, 0xab,
        0x25, 0x56, 0x00, 0x00,
    ];

    CppLongString::from_bytes(&bad_str_long1).unwrap();
}

#[test]
fn string_masks() {
    let short_test_str = String::from("lol poop");
    let short_test_pattern = str_to_pattern(&short_test_str);
    let short_test_correct_pattern = [
        0x00, 0x00, 0x00, 0x00, 0x00, 0x00, 0x00, 0x00, 0x08, 0x00, 0x00, 0x00, 0x00, 0x00,
        0x00, 0x00, 'l' as u8, 'o' as u8, 'l' as u8, ' ' as u8, 'p' as u8, 'o' as u8,
        'o' as u8, 'p' as u8, 0x00, 0x00, 0x00, 0x00, 0x00, 0x00, 0x00, 0x00,
    ];
    let short_test_correct_mask = [
        false, false, false, false, false, false, false, false, true, true, true, true, true,
        true, true, true, true, true, true, true, true, true, true, true, true, false, false,
        false, false, false, false, false,
    ];

    assert_eq!(short_test_pattern.len(), short_test_correct_pattern.len());
    assert_eq!(short_test_pattern.value(), &short_test_correct_pattern[..]);
    assert_eq!(short_test_pattern.mask().unwrap(), &short_test_correct_mask[..]);
}

#[test]
fn pass_the_vibe_check() {
    let test_str = "Once upon a time and a very good time it was there was a moocow coming down along the road and this moocow that was coming down along the road met a nicens little boy named baby tuckoo";
    let test_str_bytes: Vec<u8> = test_str.bytes().chain(std::iter::once(0x00)).collect();

    check_buffer(&test_str_bytes, test_str.len()).unwrap();
}

#[test]
#[should_panic]
fn fail_the_vibe_check() {
    let test_str = "Once upon a time and a very good time it was there was a m\0ocow coming down along the road and this moocow that was coming down along the road met a nicens little boy named baby tuckoo";
    let test_str_bytes: Vec<u8> = test_str.bytes().collect();

    check_buffer(&test_str_bytes, test_str.len()).unwrap();
}

#[test]
fn gcc_short_string_errors() {
    let mut bytes = [0u8; 32];
    bytes[0] = 1;
    // length 0
    match CppShortString::from_bytes(&bytes) {
        Err(StdError::Gcc(Error::String(StringError::Short(ShortStringError::InvalidLength { length })))) => {
            assert_eq!(length, 0)
        }
        _ => panic!("expected an invalid length"),
    }
    // length 3 with a null byte inside
    bytes[8] = 3;
    bytes[16] = b'a';
    bytes[17] = 0;
    bytes[18] = b'b';
    bytes[19] = 0;
    match CppShortString::from_bytes(&bytes) {
        Err(StdError::CommonString(CommonStringError::EmbeddedNullBytes)) => {}
        _ => panic!("expected embedded null bytes"),
    }
    // length 3 without a terminator
    bytes[17] = b'x';
    bytes[19] = b'y';
    match CppShortString::from_bytes(&bytes) {
        Err(StdError::CommonString(CommonStringError::NoNullTerminator { str_len })) => {
            assert_eq!(str_len, 3)
        }
        _ => panic!("expected a missing terminator"),
    }
    bytes[19] = 0;
    let s = CppShortString::from_bytes(&bytes).unwrap();
    assert_eq!(s.to_string().unwrap(), "axb");
}

#[test]
fn gcc_long_string_errors() {
    let mut bytes = [0u8; 32];
    bytes[8] = 20;
    bytes[16] = 30;
    match CppLongString::from_bytes(&bytes) {
        Err(StdError::Gcc(Error::String(StringError::Long(LongStringError::NullPtr)))) => {}
        _ => panic!("expected a null pointer"),
    }
    bytes[0] = 0x10;
    bytes[16] = 19;
    match CppLongString::from_bytes(&bytes) {
        Err(StdError::Gcc(Error::String(StringError::Long(LongStringError::CapacityTooSmall {
            capacity,
            length,
        })))) => {
            assert_eq!((capacity, length), (19, 20))
        }
        _ => panic!("expected a small capacity"),
    }
}

#[test]
fn gcc_from_unknown_picks_kind_by_length() {
    let mut bytes = [0u8; 32];
    bytes[0] = 0x10;
    bytes[8] = 2;
    bytes[16] = b'h';
    bytes[17] = b'i';
    bytes[18] = 0;
    let unk = CppUnknownString::decode(&bytes);
    match CppStringValue::from_unk(unk) {
        Ok(CppStringValue::Short(s)) => assert_eq!(s.length, 2),
        _ => panic!("expected a short string"),
    }
    bytes[8] = 40;
    bytes[16] = 50;
    bytes[17] = 0;
    let unk = CppUnknownString::decode(&bytes);
    match CppStringValue::from_unk(unk) {
        Ok(CppStringValue::Long(s)) => {
            assert_eq!(s.capacity, 50);
            assert_eq!(s.c_str, 0x10);
        }
        _ => panic!("expected a long string"),
    }
}

#[test]
fn gcc_long_pattern_ignores_characters() {
    let p = str_to_pattern("a string that is long enough");
    assert_eq!(p.len(), 32);
    assert_eq!(&p.value()[8..16], &[28, 0, 0, 0, 0, 0, 0, 0]);
    let mask = p.mask().unwrap();
    assert!(mask[16..].iter().all(|m| !m));
    assert!(mask[8..16].iter().all(|m| *m));
}

#[test]
fn gcc_unknown_reads_as_known() {
    // A long string of 20 characters in a buffer with room for 37.
    let str_long1 = [
        0xc0, 0x42, 0xfa, 0x5a, 0x24, 0x56, 0x00, 0x00, 0x14, 0x00, 0x00, 0x00, 0x00, 0x00,
        0x00, 0x00, 0x25, 0x00, 0x00, 0x00, 0x00, 0x00, 0x00, 0x00, 0x12, 0xc7, 0xef, 0x5a,
        0x24, 0x56, 0x00, 0x00,
    ];
    let direct = CppLongString::from_bytes(&str_long1).unwrap();
    match CppStringValue::from_unk(CppUnknownString::decode(&str_long1)) {
        Ok(CppStringValue::Long(l)) => {
            assert_eq!(l.c_str, direct.c_str);
            assert_eq!(l.length, direct.length);
            assert_eq!(l.capacity, direct.capacity);
            assert_eq!(l.unk, direct.unk);
        }
        _ => panic!("expected a long string"),
    }
}

#[test]
fn gcc_short_string_rejects_invalid_utf8() {
    let mut bytes = [0u8; 32];
    bytes[8] = 2;
    bytes[16] = 0xff;
    bytes[17] = 0xfe;
    let s = CppShortString::from_bytes(&bytes).unwrap();
    assert!(matches!(s.to_string(), Err(CommonStringError::InvalidUtf8 { .. })));
}
