use libkrebs::mem::buffer::{get_aligned_pattern_size, thousands_separator};
use libkrebs::mem::region::{MemType, Perms, State};
use libkrebs::mem::{AddressRange, Region, ScanTime};
use libkrebs::pattern_scan::{BytePattern, FromBytes};

#[test]
fn computes_aligns() {
    let p = BytePattern::null(3);
    assert_eq!(get_aligned_pattern_size(&p), (4, 1));

    let p1 = BytePattern::null(4);
    assert_eq!(get_aligned_pattern_size(&p1), (4, 0));

    let p2 = BytePattern::null(18);
    assert_eq!(get_aligned_pattern_size(&p2), (20, 2));
}

#[test]
fn separator() {
    assert_eq!(thousands_separator(1), "1");
    assert_eq!(thousands_separator(100), "100");
    assert_eq!(thousands_separator(1_000), "1,000");
    assert_eq!(thousands_separator(10_000), "10,000");
    assert_eq!(thousands_separator(100_000), "100,000");
    assert_eq!(thousands_separator(1_000_000), "1,000,000");
    assert_eq!(thousands_separator(10_000_000), "10,000,000");
    assert_eq!(thousands_separator(100_000_000), "100,000,000");
    assert_eq!(thousands_separator(1_000_000_000), "1,000,000,000");
}

#[test]
fn separator_edges() {
    assert_eq!(thousands_separator(0), "0");
    assert_eq!(thousands_separator(12_345_678), "12,345,678");
    assert_eq!(thousands_separator(999), "999");
    assert_eq!(
        thousands_separator(u128::MAX),
        "340,282,366,920,938,463,463,374,607,431,768,211,455"
    );
}

#[test]
fn addr_range_constructor() {
    let range = AddressRange::new(0, 0x100);
    assert_eq!(range.size(), 0x100);
}

#[test]
fn addr_chunks() {
    assert_eq!(
        AddressRange::new(000, 350).chunk_by(100),
        vec![
            AddressRange::new(000, 100),
            AddressRange::new(100, 200),
            AddressRange::new(200, 300),
            AddressRange::new(300, 350),
        ]
    );
}

#[test]
fn addr_chunks_of_an_exact_multiple_end_with_an_empty_chunk() {
    assert_eq!(
        AddressRange::new(0, 200).chunk_by(100),
        vec![
            AddressRange::new(0, 100),
            AddressRange::new(100, 200),
            AddressRange { start_addr: 200, end_addr: 200 },
        ]
    );
}

#[test]
fn addr_merge() {
    let hugging_addrs = vec![
        AddressRange::new(0x000, 0x100),
        AddressRange::new(0x050, 0x150),
        AddressRange::new(0x150, 0x200),
        AddressRange::new(0x250, 0x300),
        AddressRange::new(0x350, 0x400),
        AddressRange::new(0x400, 0x450),
        AddressRange::new(0x450, 0x500),
    ];

    let merged_addrs = AddressRange::merge(&hugging_addrs);

    assert_eq!(
        merged_addrs,
        vec![
            AddressRange::new(0x000, 0x200),
            AddressRange::new(0x250, 0x300),
            AddressRange::new(0x350, 0x500)
        ]
    );
}

#[test]
fn addr_merge_absorbs_a_nested_range() {
    let merged = AddressRange::merge(&vec![
        AddressRange::new(0x300, 0x400),
        AddressRange::new(0, 100),
        AddressRange::new(10, 20),
    ]);
    // [10, 20] lies inside [0, 100]: the two overlap and are merged.
    assert_eq!(merged, vec![AddressRange::new(0, 100), AddressRange::new(0x300, 0x400)]);
}

#[test]
fn overlaps_is_symmetric() {
    let outer = AddressRange::new(0, 10);
    let inner = AddressRange::new(3, 5);
    assert!(outer.overlaps(inner));
    assert!(inner.overlaps(outer));
    assert!(AddressRange::new(0, 5).overlaps(AddressRange::new(5, 9)));
    assert!(!AddressRange::new(0, 5).overlaps(AddressRange::new(6, 9)));
}

#[test]
fn addr_macro() {
    assert_eq!(AddressRange::new(0x000, 0x100), AddressRange::new(0x000, 0x100));
}

#[test]
fn range_queries() {
    let r = AddressRange::new(0x1000, 0x2000);
    assert!(r.contains_addr(0x1000));
    assert!(r.contains_addr(0x2000));
    assert!(!r.contains_addr(0x2001));
    assert!(r.contains_range(AddressRange::new(0x1300, 0x1400)));
    assert!(r.overlaps(AddressRange::new(0x1f00, 0x3000)));
    assert!(!r.overlaps(AddressRange::new(0x2001, 0x3000)));
    assert!(r.precedes(&AddressRange::new(0x1001, 0x1002)));
    assert!(!r.precedes(&AddressRange::new(0x1000, 0x2001)));
}

#[test]
fn merge_mem_blocks() {
    let blocks = vec![
        Region {
            range: AddressRange::new(0x000, 0x100),
            base: 0,
            state: State::COMMITTED,
            perms: Perms::read() | Perms::write() | Perms::execute(),
            mem_type: MemType::private(),
        },
        Region {
            range: AddressRange::new(0x100, 0x200),
            base: 0,
            state: State::COMMITTED,
            perms: Perms::read() | Perms::write() | Perms::execute(),
            mem_type: MemType::private(),
        },
        Region {
            range: AddressRange::new(0x200, 0x300),
            base: 200,
            state: State::COMMITTED,
            perms: Perms::read(),
            mem_type: MemType::private(),
        },
        Region {
            range: AddressRange::new(0x300, 0x350),
            base: 300,
            state: State::COMMITTED,
            perms: Perms::write(),
            mem_type: MemType::private(),
        },
    ];

    let sorted_blocks = Region::merge(&blocks);

    assert_eq!(
        sorted_blocks,
        vec![
            Region {
                range: AddressRange::new(0x000, 0x200),
                base: 0,
                state: State::COMMITTED,
                perms: Perms::read() | Perms::write() | Perms::execute(),
                mem_type: MemType::private()
            },
            Region {
                range: AddressRange::new(0x200, 0x300),
                base: 200,
                state: State::COMMITTED,
                perms: Perms::read(),
                mem_type: MemType::private()
            },
            Region {
                range: AddressRange::new(0x300, 0x350),
                base: 300,
                state: State::COMMITTED,
                perms: Perms::write(),
                mem_type: MemType::private()
            }
        ]
    )
}

#[test]
fn perms_flags() {
    let mut p = Perms::read() | Perms::write();
    assert!(p.contains(Perms::read()));
    assert_eq!((p & Perms::write()).bits(), 2);
    p.remove(Perms::read());
    assert_eq!(p, Perms::write());
    assert_eq!(Perms::guard().union(Perms::nope()).bits(), 0x30);
}

#[test]
fn scan_time_records() {
    let a = ScanTime {
        range: vec![AddressRange::new(0, 0x10)],
        init_time: 1,
        read_time: 2,
        lock_time: 0,
        scan_time: 3,
        state_time: 4,
    };
    assert_eq!(a.total(), 10);
    assert_eq!(a.scan_size(), 0x10);
    let b = ScanTime {
        range: vec![AddressRange::new(0x20, 0x28)],
        init_time: u128::MAX,
        read_time: 1,
        lock_time: 1,
        scan_time: 1,
        state_time: 1,
    };
    let c = a.combine(b);
    assert_eq!(c.range.len(), 2);
    assert_eq!(c.scan_size(), 0x18);
    assert_eq!(c.init_time, u128::MAX);
    assert_eq!(c.read_time, 3);
    let d = ScanTime::default();
    assert_eq!(d.range.len(), 0);
    assert_eq!(d.total(), 0);
}

#[test]
fn merge_absorbs_a_nested_block() {
    let outer = Region {
        range: AddressRange::new(0x000, 0x100),
        base: 0,
        state: State::COMMITTED,
        perms: Perms::read(),
        mem_type: MemType::private(),
    };
    let inner = Region { range: AddressRange::new(0x010, 0x020), base: 0x10, ..outer };
    let other_kind = Region { range: AddressRange::new(0x030, 0x040), perms: Perms::write(), ..outer };
    assert!(inner.can_merge(&outer) && outer.can_merge(&inner));
    let merged = Region::merge(&[outer, inner, other_kind]);
    assert_eq!(merged.len(), 2);
    assert_eq!(merged[0].range, AddressRange::new(0x000, 0x100));
    assert_eq!(merged[0].base, 0);
    assert_eq!(merged[1].range, AddressRange::new(0x030, 0x040));
}
