use libkrebs::mem::buffer::scan_loads;
use libkrebs::mem::{AddressRange, Buffer};
use libkrebs::pattern_scan::{BytePattern, FromBytes};
use libkrebs::cpp_std::vcpp::vector::CppVector;
use libkrebs::cpp_std::{c_str_from_read, string_from_c_str};
use libkrebs::error::vcpp::VectorError;
use libkrebs::error::{CommonStringError, MemError, WinMemError};
use libkrebs::mem::reader::{read_filled, word_from_read};
use libkrebs::Verifiable;

fn failed() -> MemError {
    MemError::Windows(WinMemError::NullPointer)
}

#[test]
fn c_str_from_read_outcomes() {
    assert_eq!(c_str_from_read(Ok(4), b"abc\0".to_vec(), 3).unwrap(), b"abc\0".to_vec());
    assert!(matches!(
        c_str_from_read(Err(failed()), b"abc\0".to_vec(), 3),
        Err(CommonStringError::Io(MemError::Windows(WinMemError::NullPointer)))
    ));
    assert!(matches!(
        c_str_from_read(Ok(4), b"abcd".to_vec(), 3),
        Err(CommonStringError::NoNullTerminator { str_len: 3 })
    ));
    assert!(matches!(
        c_str_from_read(Ok(4), b"a\0c\0".to_vec(), 3),
        Err(CommonStringError::EmbeddedNullBytes)
    ));
}

#[test]
fn string_from_c_str_outcomes() {
    assert_eq!(string_from_c_str(Ok(b"krebs\0".to_vec()), 5).unwrap(), "krebs");
    assert!(matches!(
        string_from_c_str(Ok(vec![0xff, 0xfe, 0]), 2),
        Err(CommonStringError::InvalidUtf8 { .. })
    ));
    assert!(matches!(
        string_from_c_str(Err(CommonStringError::EmbeddedNullBytes), 5),
        Err(CommonStringError::EmbeddedNullBytes)
    ));
}

#[test]
fn word_and_fill_from_read() {
    let w = std::mem::size_of::<usize>();
    let mut bytes = vec![0u8; w];
    bytes[0] = 0x34;
    bytes[1] = 0x12;
    assert!(matches!(word_from_read(Ok(w), &bytes), Ok(0x1234)));
    assert!(matches!(word_from_read(Err(failed()), &bytes), Err(MemError::Windows(WinMemError::NullPointer))));
    assert!(read_filled(&Ok(8), 8));
    assert!(!read_filled(&Ok(7), 8));
    assert!(!read_filled(&Err(failed()), 8));
}

#[test]
fn vector_elements_from_read() {
    let v: CppVector<u32> = CppVector::decode(&[0x10, 0, 0, 0, 0x18, 0, 0, 0, 0x20, 0, 0, 0]);
    let bytes = [1, 0, 0, 0, 2, 1, 0, 0];
    assert_eq!(v.elements_from_read(Ok(8), &bytes).unwrap(), vec![1u32, 0x102]);
    assert!(matches!(v.elements_from_read(Err(failed()), &bytes), Err(VectorError::Io(_))));
}

struct ZeroMemory;

impl libkrebs::mem::Reader for ZeroMemory {
    fn read_n_bytes(
        &mut self,
        _base_addr: libkrebs::mem::MemAddress,
        buffer: &mut [u8],
        size: usize,
    ) -> Result<usize, MemError> {
        for b in buffer[..size].iter_mut() {
            *b = 0;
        }
        Ok(size)
    }
}

#[test]
fn full_scan_stays_in_range() {
    let mut buffer = Buffer::new(ZeroMemory, 8);
    let pattern = BytePattern::new(vec![0, 0, 0, 0], None);
    let (result, _) = buffer.full_scan(&pattern, AddressRange::new(0, 4), false);
    let addrs: Vec<usize> = result.matches.iter().map(|m| m.addr).collect();
    assert_eq!(addrs, vec![0]);
    let (result, _) = buffer.full_scan(&pattern, AddressRange::new(0, 12), false);
    let addrs: Vec<usize> = result.matches.iter().map(|m| m.addr).collect();
    assert_eq!(addrs, vec![0, 4, 8]);
}

#[test]
fn scan_loads_replays_reads() {
    let pattern = BytePattern::new(vec![0xAA, 0xBB], None);
    let range = AddressRange::new(0x100, 0x10c);
    // Chunks of 8 bytes: [0x100, 0x108) and [0x108, 0x10c).
    let first = vec![0, 0, 0, 0, 0, 0, 0xAA, 0xBB];
    let second = vec![0xAA, 0xBB, 0, 0];
    let found = scan_loads(&pattern, range, 8, false, &vec![Some(first.clone()), Some(second.clone())]);
    let addrs: Vec<usize> = found.iter().map(|m| m.addr).collect();
    assert_eq!(addrs, vec![0x108]);
    // A failed read finds nothing in its chunk.
    let found = scan_loads(&pattern, range, 8, false, &vec![None, Some(second.clone())]);
    let addrs: Vec<usize> = found.iter().map(|m| m.addr).collect();
    assert_eq!(addrs, vec![0x108]);
    let found = scan_loads(&pattern, range, 8, false, &vec![Some(first), None]);
    assert!(found.is_empty());
}
