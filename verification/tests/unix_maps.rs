use libkrebs::error::{MemError, UnixMemError};
use libkrebs::mem::region::{MemType, Perms, State};
use libkrebs::mem::AddressRange;
use libkrebs::unix::proc_maps::{
    get_addr_range, get_perms, parse_proc_maps, parse_proc_maps_row, proc_maps_rows_to_modules,
    proc_maps_rows_to_regions, ProcMapsRow,
};

const MAPS: &str = "\
7f0000002000-7f0000003000 rw-p 00002000 08:01 1234 /usr/bin/game
7f0000000000-7f0000001000 r--p 00000000 08:01 1234 /usr/bin/game
7f0000001000-7f0000002000 r-xp 00001000 08:01 1234 /usr/bin/game
7f0000010000-7f0000020000 rw-p 00000000 00:00 0 [heap]
7f0000030000-7f0000031000 r--p 00000000 08:01 99 /lib/data file.bin

7ffd00000000-7ffd00010000 rw-p 00000000 00:00 0 [stack]
7ffd00020000-7ffd00021000 rw-p 00000000 00:00 0
";

fn row(start: usize, end: usize, perms: Perms, name: &str) -> ProcMapsRow {
    ProcMapsRow { range: AddressRange::new(start, end), perms, pathname: name.to_string() }
}

#[test]
fn addr_ranges_parse_as_hex() {
    assert_eq!(get_addr_range("1000-2fff").unwrap(), AddressRange::new(0x1000, 0x2fff));
    assert_eq!(get_addr_range("+a-+B").unwrap(), AddressRange::new(0xa, 0xb));
    for bad in ["10002000", "-10", "10-", "1g-20", "+-5", "ffffffffffffffffff-0"] {
        match get_addr_range(bad) {
            Err(UnixMemError::ProcMapsAddrRangeParseFailed { input }) => assert_eq!(input, bad),
            _ => panic!("{} should not parse", bad),
        }
    }
}

#[test]
fn perms_parse() {
    assert_eq!(get_perms("r--p").unwrap(), Perms::read());
    assert_eq!(get_perms("rw-s").unwrap(), Perms::read() | Perms::write());
    assert_eq!(get_perms("--xp").unwrap(), Perms::execute());
    assert_eq!(
        get_perms("rwxp").unwrap(),
        Perms::read() | Perms::write() | Perms::execute() | Perms::guard()
    );
    assert_eq!(get_perms("----").unwrap(), Perms::none());
    for bad in ["rw-", "rw-pp", "rwap", "r w-"] {
        match get_perms(bad) {
            Err(UnixMemError::ProcMapsPermsParseFailed { input }) => assert_eq!(input, bad),
            _ => panic!("{} should not parse", bad),
        }
    }
}

#[test]
fn rows_parse_with_spaced_paths() {
    let r = parse_proc_maps_row(b"1000-2000 r-xp 0 08:01 5   /a b  c").unwrap();
    assert_eq!(r.range, AddressRange::new(0x1000, 0x2000));
    assert_eq!(r.perms, Perms::read() | Perms::execute());
    assert_eq!(r.pathname, "/a b c");
    let anon = parse_proc_maps_row(b"1000-2000 rw-p 0 00:00 0").unwrap();
    assert_eq!(anon.pathname, "");
}

#[test]
fn bad_rows_give_their_error() {
    match parse_proc_maps_row(b"1000-2000 rw-p 0") {
        Err(MemError::Unix(UnixMemError::ProcMapsRowParseError { field_count, row })) => {
            assert_eq!(field_count, 3);
            assert_eq!(row, "1000-2000 rw-p 0");
        }
        _ => panic!("expected too few fields"),
    }
    match parse_proc_maps_row(b"2000-1000 rw-p 0 00:00 0") {
        Err(MemError::Unix(UnixMemError::ProcMapsAddrRangeParseFailed { input })) => {
            assert_eq!(input, "2000-1000")
        }
        _ => panic!("expected a reversed range"),
    }
    match parse_proc_maps_row(b"1000-2000 rw-q 0 00:00 0") {
        Err(MemError::Unix(UnixMemError::ProcMapsPermsParseFailed { input })) => assert_eq!(input, "rw-q"),
        _ => panic!("expected bad permissions"),
    }
}

#[test]
fn maps_parse_sorted_by_range() {
    let rows = parse_proc_maps(MAPS).unwrap();
    assert_eq!(rows.len(), 7);
    let starts: Vec<usize> = rows.iter().map(|r| r.range.start_addr).collect();
    let mut sorted = starts.clone();
    sorted.sort();
    assert_eq!(starts, sorted);
    assert_eq!(rows[0].pathname, "/usr/bin/game");
    assert_eq!(rows[0].perms, Perms::read());
    assert_eq!(rows[4].pathname, "/lib/data file.bin");
    assert_eq!(rows[6].pathname, "");
}

#[test]
fn maps_fail_on_the_first_bad_row() {
    match parse_proc_maps("1000-2000 rw-p 0 00:00 0\nzz-2000 rw-p 0 00:00 0\n1-2 rw 0 0 0\n") {
        Err(MemError::Unix(UnixMemError::ProcMapsAddrRangeParseFailed { input })) => assert_eq!(input, "zz-2000"),
        _ => panic!("expected the second row's error"),
    }
    assert_eq!(parse_proc_maps("").unwrap().len(), 0);
    assert_eq!(parse_proc_maps("\n\n").unwrap().len(), 0);
}

#[test]
fn rows_group_into_modules() {
    let rows = parse_proc_maps(MAPS).unwrap();
    let modules = proc_maps_rows_to_modules(&rows);
    assert_eq!(modules.len(), 1);
    assert_eq!(modules[0].name, "/usr/bin/game");
    assert_eq!(modules[0].range, AddressRange::new(0x7f0000000000, 0x7f0000003000));

    let split = vec![
        row(0x1000, 0x2000, Perms::execute(), "/a"),
        row(0x2000, 0x3000, Perms::read(), "/b"),
        row(0x3000, 0x4000, Perms::execute(), "/a"),
    ];
    let modules = proc_maps_rows_to_modules(&split);
    assert_eq!(modules.len(), 2);
    assert_eq!(modules[0].range, AddressRange::new(0x1000, 0x2000));
    assert_eq!(modules[1].range, AddressRange::new(0x3000, 0x4000));
}

#[test]
fn rows_become_typed_regions() {
    let rows = parse_proc_maps(MAPS).unwrap();
    let regions = proc_maps_rows_to_regions(&rows);
    assert_eq!(regions.len(), rows.len());
    for r in &regions {
        assert_eq!(r.state, State::COMMITTED);
    }
    assert_eq!(regions[1].mem_type, MemType::image());
    assert_eq!(regions[1].base, 0x7f0000000000);
    assert_eq!(regions[2].base, 0x7f0000000000);
    assert_eq!(regions[3].mem_type, MemType::private());
    assert_eq!(regions[4].mem_type, MemType::mapped());
    assert_eq!(regions[5].mem_type, MemType::private());
    assert_eq!(regions[6].mem_type, MemType::private());
    assert_eq!(regions[6].range, AddressRange::new(0x7ffd00020000, 0x7ffd00021000));
}

#[test]
fn maps_fields_split_on_unicode_whitespace() {
    // A no-break space (U+00A0) separates fields as a space does.
    let line = "00400000-00452000\u{a0}r-xp 00000000 08:02 173521 /usr/bin/dbus-daemon".as_bytes();
    let row = libkrebs::unix::proc_maps::parse_proc_maps_row(line).unwrap();
    assert_eq!(row.range.start_addr, 0x400000);
    assert_eq!(row.pathname, "/usr/bin/dbus-daemon");
    // An ideographic space (U+3000) in a path splits it; the parts are joined by a space.
    let line = "00400000-00452000 r-xp 00000000 08:02 173521 /tmp/a\u{3000}b".as_bytes();
    let row = libkrebs::unix::proc_maps::parse_proc_maps_row(line).unwrap();
    assert_eq!(row.pathname, "/tmp/a b");
}
