use libkrebs::error::{MemError, UnixMemError};
use libkrebs::mem::{AddressRange, Buffer, MemAddress, Reader};
use libkrebs::pattern_scan::{BytePattern, FromBytes, ScanMatch, ScanPattern, ALIGN_SIZE};

// Example Memory Sample
const MEM_TEST: [u8; 0x23] = [
    0x00, 0x00, 0xFF, 0xFF, // Match 0x00
    0xFF, 0x00, 0xFF, 0xFF, // Match 0x04
    0xFF, 0xFF, 0xFF, 0xFF, // 0x08
    0x00, 0xFF, 0xFF, 0x00, // 0x0C
    0x00, 0xFF, 0xFF, 0xFF, // Match 0x10
    0x00, 0xFF, 0xFF, 0xFF, // 0x14
    0x00, 0xFF, 0xFF, 0x00, // 0x18
    0xFF, 0xFF, 0xFF, 0xFF, // 0x1C
    0xFF, 0xFF, 0x00,
];

struct TestReader<'a> {
    buf: &'a [u8],
    _no_literal: (),
}

impl<'a> TestReader<'a> {
    pub fn new(buf: &'a [u8]) -> TestReader<'a> {
        TestReader { buf, _no_literal: () }
    }
}

impl Reader for TestReader<'_> {
    fn read_n_bytes(
        &mut self,
        base_addr: MemAddress,
        buffer: &mut [u8],
        size: usize,
    ) -> Result<usize, MemError> {
        if base_addr as usize + size <= self.buf.len() {
            let range = base_addr as usize..base_addr as usize + size;
            println!("Reading from range {:?}", range);
            buffer.copy_from_slice(&self.buf[range]);
            Ok(size)
        } else {
            Err(MemError::Unix(UnixMemError::ProcMemReadFailed {
                addr: base_addr,
                size,
                kind: std::io::ErrorKind::UnexpectedEof,
            }))
        }
    }
}

const MAX_READ_SIZE: usize = 48;

#[test]
fn basic_scan_test() {
    for i in (8..MAX_READ_SIZE).step_by(ALIGN_SIZE) {
        let mut buf = Buffer::new(TestReader::new(&MEM_TEST), i as usize);
        let pattern = BytePattern::ignore(3)
            + BytePattern::new(vec![0xFF], None)
            + BytePattern::ignore(3)
            + BytePattern::new(vec![0xFF], None);
        let examble = vec![0x00, 0x00, 0x00, 0xFF, 0x00, 0x00, 0x00, 0xFF];
        assert!(pattern.matches(examble.as_slice()), "pattern should match test buffer");

        let (result, _scan_time) = buf.full_scan(&pattern, AddressRange::new(0x00, 0x20), false);

        assert_eq!(
            result.matches,
            vec![
                ScanMatch { addr: 0x00, value: vec![0x00, 0x00, 0xFF, 0xFF, 0xFF, 0x00, 0xFF, 0xFF] },
                ScanMatch { addr: 0x04, value: vec![0xFF, 0x00, 0xFF, 0xFF, 0xFF, 0xFF, 0xFF, 0xFF] },
                ScanMatch { addr: 0x10, value: vec![0x00, 0xFF, 0xFF, 0xFF, 0x00, 0xFF, 0xFF, 0xFF] }
            ]
        )
    }
}

#[test]
fn find_one_stops_at_the_first_match() {
    let mut buf = Buffer::new(TestReader::new(&MEM_TEST), 8);
    let pattern = BytePattern::ignore(3)
        + BytePattern::new(vec![0xFF], None)
        + BytePattern::ignore(3)
        + BytePattern::new(vec![0xFF], None);
    let (found, times) = buf.find_one(&pattern, AddressRange::new(0x00, 0x20));
    assert_eq!(found.unwrap().addr, 0x00);
    assert_eq!(times.range, vec![AddressRange::new(0x00, 0x20)]);
}

#[test]
fn unreadable_chunks_are_skipped() {
    // The reader holds 0x23 bytes: reads past them fail and find nothing.
    let mut buf = Buffer::new(TestReader::new(&MEM_TEST), 8);
    let pattern = BytePattern::new(vec![0xAB], None);
    let (result, _) = buf.full_scan(&pattern, AddressRange::new(0x40, 0x60), false);
    assert!(result.matches.is_empty());
    assert!(!result.has_matches());
    assert_eq!(result.range, AddressRange::new(0x40, 0x60));
}

/// A reader over a slice that notes each read it is asked for.
struct NotingReader<'a> {
    mem: &'a [u8],
    reads: std::rc::Rc<std::cell::RefCell<Vec<(MemAddress, usize)>>>,
}

type Noted = std::rc::Rc<std::cell::RefCell<Vec<(MemAddress, usize)>>>;

fn noting(mem: &[u8]) -> (NotingReader<'_>, Noted) {
    let reads: Noted = std::rc::Rc::new(std::cell::RefCell::new(Vec::new()));
    (NotingReader { mem, reads: reads.clone() }, reads)
}

impl Reader for NotingReader<'_> {
    fn read_n_bytes(&mut self, base_addr: MemAddress, buffer: &mut [u8], size: usize) -> Result<usize, MemError> {
        self.reads.borrow_mut().push((base_addr, size));
        let start = base_addr as usize;
        if start + size <= self.mem.len() {
            buffer[..size].copy_from_slice(&self.mem[start..start + size]);
            Ok(size)
        } else {
            Err(MemError::Unix(UnixMemError::ProcMemReadFailed {
                addr: base_addr,
                size,
                kind: std::io::ErrorKind::UnexpectedEof,
            }))
        }
    }
}

fn two_ff_pattern() -> BytePattern {
    BytePattern::ignore(3) + BytePattern::new(vec![0xFF], None) + BytePattern::ignore(3) + BytePattern::new(vec![0xFF], None)
}

#[test]
fn full_scan_reads_each_chunk_once_in_order() {
    let (reader, reads) = noting(&MEM_TEST);
    let mut buf = Buffer::new(reader, 8);
    let (result, _) = buf.full_scan(&two_ff_pattern(), AddressRange::new(0x00, 0x1C), false);
    assert_eq!(result.matches.len(), 3);
    assert_eq!(*reads.borrow(), vec![(0x00, 8), (0x08, 8), (0x10, 8), (0x18, 4)]);
}

#[test]
fn lazy_scan_stops_reading_after_the_first_chunk_with_a_match() {
    let (reader, reads) = noting(&MEM_TEST);
    let mut buf = Buffer::new(reader, 8);
    let (lazy, _) = buf.full_scan(&two_ff_pattern(), AddressRange::new(0x08, 0x20), true);
    // Chunk [0x08, 0x10) holds no match; chunk [0x10, 0x18) holds the one at 0x10.
    assert_eq!(*reads.borrow(), vec![(0x08, 8), (0x10, 8)]);
    let (full_reader, _) = noting(&MEM_TEST);
    let mut full_buf = Buffer::new(full_reader, 8);
    let (full, _) = full_buf.full_scan(&two_ff_pattern(), AddressRange::new(0x08, 0x20), false);
    assert_eq!(lazy.matches[..], full.matches[..lazy.matches.len()]);
    assert_eq!(lazy.matches[0].addr, 0x10);
}

#[test]
fn scan_of_faithful_reads_matches_memory() {
    for rs in (8..MAX_READ_SIZE).step_by(ALIGN_SIZE) {
        let (reader, _) = noting(&MEM_TEST);
        let mut buf = Buffer::new(reader, rs);
        let pattern = two_ff_pattern();
        let (result, _) = buf.full_scan(&pattern, AddressRange::new(0x00, 0x20), false);
        for m in &result.matches {
            let a = m.addr as usize;
            assert_eq!(m.value[..], MEM_TEST[a..a + 8]);
            assert!(pattern.matches(&MEM_TEST[a..a + 8]));
        }
    }
}
