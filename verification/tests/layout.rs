use std::collections::HashMap;

use libkrebs::error::{MemError, ScannerError, WinMemError};
use libkrebs::mem::region::{MemType, Perms, State};
use libkrebs::mem::{
    AccessLevel, AddressRange, MemAddress, Module, ProcMap, Process, ProcessId, Reader, Region,
    Writer,
};
use libkrebs::pattern_scan::{BytePattern, FromBytes};
use libkrebs::scanner::MemoryLayout;

struct FakeProcess {
    memory: Vec<u8>,
    regions: Vec<Region>,
    modules: Vec<Module>,
    reads: Vec<(MemAddress, usize)>,
}

impl Reader for FakeProcess {
    fn read_n_bytes(
        &mut self,
        base_addr: MemAddress,
        buffer: &mut [u8],
        size: usize,
    ) -> Result<usize, MemError> {
        self.reads.push((base_addr, size));
        if base_addr + size <= self.memory.len() {
            buffer[..size].copy_from_slice(&self.memory[base_addr..base_addr + size]);
            Ok(size)
        } else {
            Err(MemError::Windows(WinMemError::PartialCopy { copied: 0, expected: size }))
        }
    }
}

impl Writer for FakeProcess {
    fn write_n_bytes(&mut self, _base_addr: MemAddress, _bytes: &[u8], size: usize) -> Result<usize, MemError> {
        Ok(size)
    }
}

impl ProcMap for FakeProcess {
    fn get_regions(&self) -> Result<Vec<Region>, MemError> {
        Ok(self.regions.clone())
    }
    fn get_modules(&self) -> Result<Vec<Module>, MemError> {
        Ok(self.modules.clone())
    }
}

impl Process for FakeProcess {
    fn attach(_pid: ProcessId, _access: AccessLevel) -> Result<Self, MemError> {
        Err(MemError::Windows(WinMemError::InvalidHandle))
    }
    fn close(&mut self) -> Result<(), MemError> {
        Ok(())
    }
    fn list_processes() -> HashMap<ProcessId, String> {
        HashMap::new()
    }
    fn search_processes(_exe_name: &str) -> Vec<ProcessId> {
        vec![]
    }
    fn list_windows() -> HashMap<ProcessId, Vec<String>> {
        HashMap::new()
    }
    fn search_windows(_window_title: &str) -> Vec<ProcessId> {
        vec![]
    }
    fn pid(&self) -> ProcessId {
        7
    }
    fn access_level(&self) -> AccessLevel {
        AccessLevel::Read
    }
    fn executable_name(&self) -> String {
        "game".to_string()
    }
    fn window_names(&self) -> Vec<String> {
        vec![]
    }
}

fn region(start: usize, end: usize, base: usize, perms: Perms) -> Region {
    Region {
        base,
        range: AddressRange::new(start, end),
        mem_type: MemType::private(),
        state: State::COMMITTED,
        perms,
    }
}

fn fake() -> FakeProcess {
    // The executable's module spans [0x100, 0x280]; memory past 0x240 cannot be read.
    let mut memory = vec![0u8; 0x240];
    memory[0x110] = 0xAB;
    memory[0x111] = 0xCD;
    FakeProcess {
        memory,
        regions: vec![
            region(0x100, 0x180, 0x100, Perms::read() | Perms::write()),
            region(0x180, 0x200, 0x100, Perms::read()),
            region(0x200, 0x280, 0x100, Perms::read() | Perms::write()),
            region(0x300, 0x380, 0x300, Perms::read() | Perms::write() | Perms::guard() | Perms::nope()),
            region(0x380, 0x500, 0x380, Perms::read() | Perms::write()),
            region(0x600, 0x680, 0x380, Perms::read() | Perms::write()),
        ],
        modules: vec![
            Module { name: "/lib/libc.so".to_string(), range: AddressRange::new(0x10, 0x20) },
            Module { name: "/usr/bin/game".to_string(), range: AddressRange::new(0x100, 0x280) },
        ],
        reads: vec![],
    }
}

#[test]
fn layout_keeps_writable_regions_and_finds_the_executable() {
    let mut p = fake();
    let layout = MemoryLayout::new(&mut p).unwrap();
    assert_eq!(layout.module_range, AddressRange::new(0x100, 0x280));
    // The writable regions outside the module form the heap.
    let ranges: Vec<AddressRange> = layout.writable_heap.iter().map(|r| r.range).collect();
    assert_eq!(ranges, vec![AddressRange::new(0x380, 0x500), AddressRange::new(0x600, 0x680)]);
    // Those inside it are read; [0x200, 0x280] cannot be read, so only one page is kept.
    assert_eq!(layout.writable_mod.len(), 1);
    assert_eq!(layout.writable_mod[0].0.range, AddressRange::new(0x100, 0x180));
    assert_eq!(layout.writable_mod[0].1.len(), 0x80);
    assert_eq!(layout.writable_mod[0].1[0x10], 0xAB);
}

#[test]
fn layout_falls_back_to_the_lowest_module() {
    let mut p = fake();
    p.modules[1].name = "/usr/bin/other".to_string();
    let layout = MemoryLayout::new(&mut p).unwrap();
    assert_eq!(layout.module_range, AddressRange::new(0x10, 0x20));
    // No writable region lies in that module: all of them are heap.
    assert_eq!(layout.writable_heap.len(), 4);
    assert!(layout.writable_mod.is_empty());
}

#[test]
fn layout_needs_a_module() {
    let mut p = fake();
    p.modules.clear();
    let regions = p.get_regions();
    match MemoryLayout::from_region_list(&mut p, regions) {
        Err(MemError::Windows(WinMemError::ModuleEnumerationFailed { code })) => assert_eq!(code, 0),
        _ => panic!("expected a failed module enumeration"),
    }
}

#[test]
fn layout_passes_listing_errors_on() {
    let mut p = fake();
    match MemoryLayout::from_region_list(&mut p, Err(MemError::Windows(WinMemError::InvalidHandle))) {
        Err(MemError::Windows(WinMemError::InvalidHandle)) => {}
        _ => panic!("expected the region listing's error"),
    }
    let regions = p.regions.clone();
    match MemoryLayout::from_module_list(&mut p, &regions, Err(MemError::Windows(WinMemError::NullPointer))) {
        Err(MemError::Windows(WinMemError::NullPointer)) => {}
        _ => panic!("expected the module listing's error"),
    }
}

#[test]
fn layout_answers_address_queries() {
    let mut p = fake();
    let layout = MemoryLayout::new(&mut p).unwrap();
    assert!(layout.is_in_heap(0x400));
    assert!(!layout.is_in_heap(0x150));
    assert!(!layout.is_in_heap(0x550));
    assert!(layout.is_in_module(0x100));
    assert!(!layout.is_in_module(0x281));
    assert!(layout.heap_ptr("x", 0x610).is_ok());
    match layout.heap_ptr("player", 0x550) {
        Err(ScannerError::NotInHeap { addr, desc }) => {
            assert_eq!(addr, 0x550);
            assert_eq!(desc, "player");
        }
        _ => panic!("expected not in heap"),
    }
    match layout.module_ptr("vtable", 0x90) {
        Err(ScannerError::NotInModule { addr, desc }) => {
            assert_eq!(addr, 0x90);
            assert_eq!(desc, "vtable");
        }
        _ => panic!("expected not in module"),
    }
    let (parent, siblings) = layout.get_addr_segment(0x610).unwrap();
    assert_eq!(parent.range, AddressRange::new(0x600, 0x680));
    assert_eq!(siblings.len(), 1);
    assert_eq!(siblings[0].range, AddressRange::new(0x380, 0x500));
    assert!(layout.get_addr_segment(0x550).is_none());
}

#[test]
fn layout_scans_module_pages() {
    let mut p = fake();
    let layout = MemoryLayout::new(&mut p).unwrap();
    let pattern = BytePattern::new(vec![0xAB, 0xCD], None);
    let results = layout.scan_module(&pattern);
    assert_eq!(results.len(), 1);
    assert_eq!(results[0].matches.len(), 1);
    assert_eq!(results[0].matches[0].addr, 0x110);
    assert_eq!(results[0].matches[0].value, vec![0xAB, 0xCD]);
    assert_eq!(results[0].range, AddressRange::new(0x100, 0x180));
}

fn chain_process() -> FakeProcess {
    // A word at 0x08 points to 0x20; the word at 0x20 + 0x10 points to 0x40; the word at
    // 0x18 is null.
    let mut memory = vec![0u8; 0x60];
    memory[0x08..0x10].copy_from_slice(&0x20usize.to_le_bytes());
    memory[0x30..0x38].copy_from_slice(&0x40usize.to_le_bytes());
    FakeProcess { memory, regions: vec![], modules: vec![], reads: vec![] }
}

#[test]
fn deref_chain_follows_pointers() {
    let mut p = chain_process();
    assert!(matches!(p.deref_chain(0x00, &vec![0x08, 0x10, 0x04]), Ok(0x44)));
    let w = std::mem::size_of::<usize>();
    assert_eq!(p.reads, vec![(0x08, w), (0x30, w)]);
    // A single offset reads nothing.
    assert!(matches!(p.deref_chain(0x1000, &vec![0x08]), Ok(0x1008)));
    assert_eq!(p.reads.len(), 2);
}

#[test]
fn deref_chain_reports_null_and_failed_reads() {
    let mut p = chain_process();
    assert!(matches!(
        p.deref_chain(0x00, &vec![0x18, 0x00]),
        Err(MemError::Windows(WinMemError::NullPointer))
    ));
    assert!(p.deref_chain(0x1000, &vec![0x00, 0x00]).is_err());
}

#[test]
fn layout_from_lists_matches_new() {
    let mut p = fake();
    let regions = p.regions.clone();
    let modules = p.modules.clone();
    let layout = MemoryLayout::from_lists(&mut p, &regions, &modules).unwrap();
    assert_eq!(layout.module_range, AddressRange::new(0x100, 0x280));
    assert_eq!(layout.writable_mod.len(), 1);
    match MemoryLayout::from_lists(&mut p, &regions, &vec![]) {
        Err(MemError::Windows(WinMemError::ModuleEnumerationFailed { code })) => assert_eq!(code, 0),
        _ => panic!("expected a failed module enumeration"),
    }
}

#[test]
fn layout_reads_each_module_page_once() {
    let mut p = fake();
    let layout = MemoryLayout::new(&mut p).unwrap();
    // The two writable pages inside the module are read once each, in order; the one
    // whose read fails is left out.
    assert_eq!(p.reads, vec![(0x100, 0x80), (0x200, 0x80)]);
    assert_eq!(layout.writable_mod.len(), 1);
    assert_eq!(layout.writable_mod[0].1[..], p.memory[0x100..0x180]);
}

#[test]
fn layout_makes_no_read_when_listing_fails() {
    let mut p = fake();
    let regions = p.get_regions().unwrap();
    let _ = MemoryLayout::from_module_list(&mut p, &regions, Err(MemError::Windows(WinMemError::NullPointer)));
    assert!(p.reads.is_empty());
}
