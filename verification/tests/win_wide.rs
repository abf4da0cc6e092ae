use libkrebs::win::{str_to_wstr, wstr_to_str, wstr_to_str_truncated};

#[test]
fn wstr_is_null_terminated_utf16() {
    assert_eq!(str_to_wstr("Hi"), vec![0x48, 0x69, 0x00]);
    assert_eq!(str_to_wstr(""), vec![0x00]);
    // A character above U+FFFF takes a surrogate pair.
    assert_eq!(str_to_wstr("a\u{1F600}"), vec![0x61, 0xD83D, 0xDE00, 0x00]);
}

#[test]
fn wstr_decodes_lossily() {
    assert_eq!(wstr_to_str(&[0x48, 0x69]), "Hi");
    assert_eq!(wstr_to_str(&[0xD83D, 0xDE00]), "\u{1F600}");
    // An unpaired surrogate becomes the replacement character.
    assert_eq!(wstr_to_str(&[0x61, 0xD800, 0x62]), "a\u{FFFD}b");
    // The null unit is kept by the plain conversion.
    assert_eq!(wstr_to_str(&[0x41, 0x00]), "A\u{0}");
}

#[test]
fn wstr_truncates_at_first_null() {
    assert_eq!(wstr_to_str_truncated(&[0x4B, 0x52, 0x00, 0x42, 0x00, 0x00]), "KR");
    assert_eq!(wstr_to_str_truncated(&[0x4B, 0x52]), "KR");
    assert_eq!(wstr_to_str_truncated(&[0x00, 0x41]), "");
}

#[test]
fn wstr_roundtrip() {
    for s in ["", "krebs", "h\u{e9}llo w\u{f6}rld", "\u{1F980} crab", "\u{FFFF}\u{10000}"] {
        assert_eq!(wstr_to_str_truncated(&str_to_wstr(s)), s);
    }
}
