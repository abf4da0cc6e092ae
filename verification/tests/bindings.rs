use libkrebs::bindings::{
    mask_to_bytes, optimize_pattern, pattern_type_for, to_byte_pattern, MatchStruct, ModuleMap,
    OptimizedPattern, PatternType,
};
use libkrebs::mem::region::{MemType, Perms, State};
use libkrebs::mem::{AddressRange, Module};
use libkrebs::pattern_scan::{BytePattern, FromBytes, ScanMatch, ScanPattern};

#[test]
fn pattern_kinds_by_length() {
    let w = std::mem::size_of::<usize>();
    assert_eq!(pattern_type_for(1), PatternType::Simd);
    assert_eq!(pattern_type_for(32), PatternType::Simd);
    assert_eq!(pattern_type_for(32 + w), PatternType::Word);
    assert_eq!(pattern_type_for(33), PatternType::Byte);
}

#[test]
fn optimized_patterns_find_the_same_matches() {
    let mut buf = vec![0u8; 128];
    for (i, b) in buf.iter_mut().enumerate() {
        *b = (i * 7 % 256) as u8;
    }
    for len in [4usize, 32, 40, 41] {
        let value: Vec<u8> = buf[12..12 + len].to_vec();
        let p = BytePattern::new(value, None);
        let expected = p.scan_buffer(0x100, &buf);
        let (kind, opt) = optimize_pattern(p.clone());
        assert_eq!(kind, pattern_type_for(len));
        match (&opt, kind) {
            (OptimizedPattern::Simd(_), PatternType::Simd)
            | (OptimizedPattern::Word(_), PatternType::Word)
            | (OptimizedPattern::Byte(_), PatternType::Byte) => {}
            _ => panic!("the kind and the pattern disagree"),
        }
        // The one match lies far enough from the end for a window of 32 bytes.
        let found = opt.scan_buffer(0x100, &buf);
        assert_eq!(found, expected);
        assert_eq!(found[0].addr, 0x100 + 12);
        let back = to_byte_pattern(&opt);
        assert_eq!(back.value(), p.value());
        if len < 32 {
            assert_eq!(back.mask(), Some(&vec![true; len][..]));
        } else {
            assert_eq!(back, p);
        }
    }
}

#[test]
fn masks_travel_as_bytes() {
    assert_eq!(mask_to_bytes(None), None);
    assert_eq!(mask_to_bytes(Some(&[true, false, true])), Some(vec![0xFF, 0x00, 0xFF]));
}

#[test]
fn matches_and_modules_travel_as_plain_values() {
    let m = MatchStruct::from_match(ScanMatch { addr: 8, value: vec![1, 2] });
    assert_eq!(m, MatchStruct { addr: 8, value: vec![1, 2] });
    let mm = ModuleMap::from_module(Module { name: "a.so".to_string(), range: AddressRange::new(3, 9) });
    assert_eq!((mm.name.as_str(), mm.range_start, mm.range_end), ("a.so", 3, 9));
}

#[test]
fn flag_names_read_like_their_debug_text() {
    assert_eq!(Perms::none().flag_names(), "NONE");
    assert_eq!((Perms::read() | Perms::write()).flag_names(), "READ | WRITE");
    assert_eq!(Perms::guard().union(Perms::nope()).flag_names(), "GUARD | NOPE");
    assert_eq!(Perms { bits: 0x45 }.flag_names(), "READ | EXECUTE | 0x40");
    assert_eq!(Perms { bits: 0xc0 }.flag_names(), "0xc0");
    assert_eq!(MemType::private().flag_names(), "PRIVATE");
    assert_eq!(MemType::none().flag_names(), "NONE");
    assert_eq!(MemType { bits: 0x0e }.flag_names(), "MAPPED | IMAGE | 0x8");
    assert_eq!(State::COMMITTED.name(), "COMMITTED");
    assert_eq!(State::FREE.name(), "FREE");
    assert_eq!(State::RESERVED.name(), "RESERVED");
}
