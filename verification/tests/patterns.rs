use libkrebs::pattern_scan::{
    bytes_mask, str_mask, BytePattern, FromBytes, ScanMatch, ScanPattern, Scannable,
    Simd32Pattern, WordPattern,
};

#[test]
fn create_patterns() {
    let bytes: [u8; 4] = [0x68, 0x65, 0x68, 0x65];
    let byte_vec: Vec<u8> = Vec::from(&bytes[..]);
    let b_string = "hehe";

    let s0 = BytePattern::new(byte_vec, None);
    let s1 = BytePattern::from_bytes(&bytes, None);
    let s2 = BytePattern::from_str(b_string, None);

    assert!(s0
        .value()
        .iter()
        .zip(s1.value().iter())
        .zip(s2.value().iter())
        .all(|((a, b), c)| a == b && b == c));

    let mask_vec = vec![true, false, false, true];
    let mask_byte_vec: [u8; 4] = [0xFF, 0x00, 0x00, 0xFF];
    let mask_str = "X??X";

    let m0 = BytePattern::with_mask(&s0, Some(mask_vec));
    let m1 = BytePattern::with_mask(&s1, Some(bytes_mask(&mask_byte_vec)));
    let m2 = BytePattern::with_mask(&s2, Some(str_mask(mask_str)));

    println!("{:?} {:?} {:?}", &m0, &m1, &m2);

    assert!(m0
        .mask()
        .iter()
        .zip(m1.mask().iter())
        .zip(m2.mask().iter())
        .all(|((a, b), c)| a == b && b == c));

    println!("{:?} {:?} {:?}\n{:?} {:?} {:?}", s0, s1, s2, m0, m1, m2);
}

#[test]
fn byte_pattern_test_unmasked_query() {
    let query = vec![0x20, 0x30, 0x30, 0x70];
    let pattern: BytePattern = BytePattern::new(query, None);
    let ez_match: [u8; 4] = [0x20, 0x30, 0x30, 0x70];
    assert!(pattern.matches(&ez_match[..]));

    let harder_match: [u8; 16] = [
        0x00, 0x20, 0x30, 0x30, // Although the pattern shows up twice in the linear sequence,
        0x70, 0x10, 0x15, 0x25, // in actual memory all variables are word-aligned,
        0x20, 0x30, 0x30, 0x70, // so it should only match once, with the aligned value
        0xFF, 0xFF, 0x7F, 0x7F, // padding bytes, not part of the pattern
    ];

    let query_result = pattern.scan_buffer(0x00000000, &harder_match);
    assert_eq!(query_result.len(), 1);
    assert_eq!(query_result.get(0).unwrap().addr, 0x8);
}

#[test]
fn pattern_concatenation() {
    let bytes: [u8; 4] = [0x68, 0x65, 0x65, 0x68];
    let mask: [bool; 4] = [true, false, true, true];
    let pen = BytePattern::from_str("he", Some(vec![true, false]));
    let apple = BytePattern::from_str("eh", None);
    let apple_pen: BytePattern = pen + apple;

    assert_eq!(apple_pen.value(), &bytes[..]);
    assert_eq!(apple_pen.mask().unwrap(), &mask[..]);
}

#[test]
fn pattern_constructors() {
    let nools = BytePattern::null(5);
    let nahs = BytePattern::ignore(7);
    let easy_pattern = BytePattern::new(vec![0x01, 0x02, 0x03, 0x04], None);
    let yeezy_pattern =
        BytePattern::new(vec![0x4B, 0x41, 0x4E, 0x59, 0x45], Some(str_mask("???XX")));
    let ebin_int = BytePattern::from_primitive(0x0F as u32, None);

    assert_eq!(nools, BytePattern::new(vec![0x00; 5], None));

    assert_eq!(nahs, BytePattern::new(vec![0x00; 7], Some(vec![false; 7])));

    assert_eq!(easy_pattern, BytePattern::new(vec![0x01, 0x02, 0x03, 0x04], None));

    assert_eq!(
        yeezy_pattern,
        BytePattern::from_str("KANYE", Some(vec![false, false, false, true, true]))
    );

    assert_eq!(ebin_int, BytePattern::new(vec![0x0F, 0x00, 0x00, 0x00], None));
}

#[test]
fn simd() {}

#[test]
fn simd_pattern_value() {
    let pattern = Simd32Pattern::from_byte_pattern(BytePattern::new(vec![1, 2, 3, 4], None));

    assert_eq!(pattern.value(), &[1, 2, 3, 4]);
}

#[test]
fn simd_pattern_mask() {
    let pattern = Simd32Pattern::from_byte_pattern(BytePattern::new(
        vec![1, 2, 3, 4],
        Some(vec![true, false, true, false]),
    ));

    assert_eq!(pattern.mask(), Some(&[true, false, true, false][..]));
}

#[test]
fn word_pattern_test_unmasked_query() {
    let query = vec![0x20, 0x30, 0x30, 0x70, 0xFF, 0xFF, 0x7F, 0x7F];
    let pattern = WordPattern::from_byte_pattern(BytePattern::new(query, None));
    println!("{:?}", pattern);
    let ez_match: [u8; 8] = [0x20, 0x30, 0x30, 0x70, 0xFF, 0xFF, 0x7F, 0x7F];
    assert!(pattern.matches(&ez_match[..]));

    let harder_match: [u8; 16] = [
        0x00, 0x20, 0x30, 0x30, // Although the pattern shows up twice in the linear sequence,
        0x70, 0x10, 0x15, 0x25, // in actual memory all variables are word-aligned,
        0x20, 0x30, 0x30, 0x70, // so it should only match once, at the aligned offset.
        0xFF, 0xFF, 0x7F, 0x7F,
    ];

    let query_result = pattern.scan_buffer(0x00000000, &harder_match);
    assert_eq!(
        query_result,
        vec![ScanMatch { addr: 0x08, value: Vec::from(&ez_match[..]) }]
    );
}

#[test]
fn simd_pattern_finds_what_the_byte_pattern_finds() {
    let bp = BytePattern::new(vec![0xAA, 0xBB, 0xCC], Some(vec![true, false, true]));
    let sp = Simd32Pattern::from_byte_pattern(bp.clone());
    let mut buf = vec![0u8; 64];
    buf[8] = 0xAA;
    buf[9] = 0x11;
    buf[10] = 0xCC;
    buf[20] = 0xAA;
    buf[22] = 0xCC;
    let from_bytes = bp.scan_buffer(0x1000, &buf);
    let from_simd = sp.scan_buffer(0x1000, &buf);
    assert_eq!(from_bytes.len(), 2);
    assert_eq!(from_bytes[0].addr, 0x1008);
    assert_eq!(from_bytes[1].addr, 0x1014);
    assert_eq!(from_simd, from_bytes);
    assert_eq!(from_simd[0].value, vec![0xAA, 0x11, 0xCC]);
}

#[test]
fn word_patterns_concatenate() {
    let a = WordPattern::from_byte_pattern(BytePattern::new(vec![1; 8], None));
    let b = WordPattern::from_byte_pattern(BytePattern::ignore(8));
    let c = a + b;
    assert_eq!(c.len(), 16);
    assert_eq!(c.value(), &[1, 1, 1, 1, 1, 1, 1, 1, 0, 0, 0, 0, 0, 0, 0, 0]);
    let mut buf = vec![1u8; 16];
    buf[12] = 7;
    assert!(c.matches(&buf));
}

#[test]
fn masks_from_text_and_bytes() {
    assert_eq!(str_mask("X?x?"), vec![true, false, true, false]);
    assert_eq!(bytes_mask(&[0, 1, 0xFF]), vec![false, true, true]);
}

struct CoolStruct {
    junk: u32,
    three: u32,
    six_nulls: [u8; 6],
    pad: [u8; 2],
    important_int: u32,
}

impl CoolStruct {
    fn bytes(&self) -> Vec<u8> {
        let mut v = Vec::new();
        v.extend_from_slice(&self.junk.to_le_bytes());
        v.extend_from_slice(&self.three.to_le_bytes());
        v.extend_from_slice(&self.six_nulls);
        v.extend_from_slice(&self.pad);
        v.extend_from_slice(&self.important_int.to_le_bytes());
        v
    }
}

impl Scannable<BytePattern> for CoolStruct {
    fn to_pattern(&self) -> BytePattern {
        BytePattern::ignore(4)
            .concat(BytePattern::from_primitive(3u32, None))
            .concat(BytePattern::null(6))
            .concat(BytePattern::ignore(2))
            .concat(BytePattern::from_primitive(self.important_int, None))
    }
}

#[test]
fn scannable_struct_pattern() {
    let ebin_struct = CoolStruct {
        junk: 0x0F,
        three: 3,
        six_nulls: [0; 6],
        pad: [0x32, 0x57],
        important_int: 5,
    };
    let ebin_pattern = ebin_struct.to_pattern();
    assert!(ebin_pattern.matches(ebin_struct.bytes().as_slice()));
    assert_eq!(
        ebin_pattern,
        BytePattern::new(
            vec![
                0x00, 0x00, 0x00, 0x00, 0x03, 0x00, 0x00, 0x00, 0x00, 0x00, 0x00, 0x00, 0x00,
                0x00, 0x00, 0x00, 0x05, 0x00, 0x00, 0x00
            ],
            Some(vec![
                false, false, false, false, true, true, true, true, true, true, true, true, true,
                true, false, false, true, true, true, true
            ])
        )
    );
    let ebin_simd_pattern = Simd32Pattern::from_byte_pattern(ebin_pattern.clone());
    assert_eq!(ebin_pattern.value(), ebin_simd_pattern.value());
}

#[test]
fn describe_patterns() {
    assert_eq!(BytePattern::new(vec![0x41, 0x0B], None).describe(), "Scan Pattern [0x41 0x0B]");
    assert_eq!(
        BytePattern::new(vec![0x41, 0x42, 0xFF], Some(vec![true, false, true])).describe(),
        "Scan Pattern [0041 ???? 00FF]"
    );
    assert_eq!(BytePattern::new(vec![], None).describe(), "Scan Pattern []");
    let w = WordPattern::from_byte_pattern(BytePattern::new(vec![1, 2, 3, 4, 5, 6, 7, 8], None));
    assert_eq!(w.describe(), "Scan Pattern [0x01 0x02 0x03 0x04 0x05 0x06 0x07 0x08]");
}

#[test]
fn describe_matches_and_results() {
    let range = libkrebs::mem::AddressRange::new(0x1000, 0x2000);
    assert_eq!(range.describe(), "[00001000 - 00002000]");
    let big = libkrebs::mem::AddressRange::new(0x1234_5678_9, 0x1234_5678_a);
    assert_eq!(big.describe(), "[123456789 - 12345678A]");
    let m = ScanMatch { addr: 0x1000, value: vec![0x41, 0x0B] };
    assert_eq!(m.describe(), "Matched Value [0x41, 0x0B] at 0x001000");
    let result = libkrebs::pattern_scan::ChunkScanResult {
        pattern: BytePattern::new(vec![0x41, 0x0B], None),
        range,
        matches: vec![m.clone(), m],
    };
    assert_eq!(
        result.describe(),
        "2 matches for pattern Scan Pattern [0x41 0x0B] in range [00001000 - 00002000]"
    );
}

#[test]
fn word_pattern_debug_text_groups_words() {
    let plain = WordPattern::from_byte_pattern(BytePattern::new(vec![1, 2, 3, 4, 5, 6, 7, 0xAB], None));
    assert_eq!(plain.debug_text(), "Scan Pattern [0x01 0x02 0x03 0x04 0x05 0x06 0x07 0xAB]");
    let w = std::mem::size_of::<usize>();
    let value: Vec<u8> = (0..(2 * w) as u8).collect();
    let mask: Vec<bool> = (0..2 * w).map(|i| i % 2 == 0).collect();
    let masked = WordPattern::from_byte_pattern(BytePattern::new(value, Some(mask)));
    let word = |start: usize| -> String {
        (start..start + w)
            .map(|i| if i % 2 == 0 { format!("{:02X}", i) } else { "??".to_string() })
            .collect::<Vec<String>>()
            .join("")
    };
    assert_eq!(masked.debug_text(), format!("Scan Pattern [{} {}]", word(0), word(w)));
}
