//! A snapshot of a process's relevant memory regions.

use vstd::prelude::*;

use crate::error::{MemError, ScannerError, WinMemError};
use crate::mem::reader::{log_extends, new_reads, range_has, range_lt, range_wf, ReadEvent};
use crate::mem::region::{region_merge_all, sort_regions, MemType, Perms, State};
use crate::mem::{AddressRange, MemAddress, Module, Process, Reader, Region};
use crate::pattern_scan::{
    matches_view, spec_scan, BytePattern, ChunkScanResult, ScanPattern,
};
use crate::util::fill_bytes;

verus! {

/// A snapshot of a process's relevant memory regions, built on attach and refreshed
/// from time to time.
pub struct MemoryLayout {
    /// The full address range of the executable image.
    pub module_range: AddressRange,
    /// Writable committed pages inside the module, with their contents read when the
    /// layout was built.
    pub writable_mod: Vec<(Region, Vec<u8>)>,
    /// All other writable committed regions (heap, stack, anonymous mappings).
    pub writable_heap: Vec<Region>,
}

/// Whether a region is private, committed, readable and writable, and not a guard page
/// (one that is both guarded and inaccessible).
pub open spec fn spec_writable(r: Region) -> bool {
    &&& r.mem_type.bits == 1
    &&& r.state == State::COMMITTED
    &&& r.perms.bits & 3u8 == 3u8
    &&& !(r.perms.bits & 0x30u8 == 0x30u8)
}

fn writable(region: &Region) -> (r: bool)
    ensures
        r == spec_writable(*region),
{
    assert(1u8 | 2u8 == 3u8) by (bit_vector);
    assert(0x10u8 | 0x20u8 == 0x30u8) by (bit_vector);
    region.mem_type == MemType::private() && region.state == State::COMMITTED
        && region.perms.contains(Perms::read().union(Perms::write()))
        && !region.perms.contains(Perms::guard().union(Perms::nope()))
}

/// The writable regions of `s`, in order.
pub open spec fn writable_of(s: Seq<Region>) -> Seq<Region>
    decreases s.len(),
{
    if s.len() == 0 {
        s
    } else if spec_writable(s.last()) {
        writable_of(s.drop_last()).push(s.last())
    } else {
        writable_of(s.drop_last())
    }
}

/// The regions of `s` whose range starts no later than it ends, in order.
pub open spec fn wf_of(s: Seq<Region>) -> Seq<Region>
    decreases s.len(),
{
    if s.len() == 0 {
        s
    } else if range_wf(s.last().range) {
        wf_of(s.drop_last()).push(s.last())
    } else {
        wf_of(s.drop_last())
    }
}

proof fn lemma_wf_of(s: Seq<Region>)
    ensures
        forall|i: int| 0 <= i < wf_of(s).len() ==> range_wf(#[trigger] wf_of(s)[i].range),
    decreases s.len(),
{
    if s.len() > 0 {
        lemma_wf_of(s.drop_last());
    }
}

proof fn lemma_writable_of(s: Seq<Region>)
    ensures
        forall|i: int| 0 <= i < writable_of(s).len() ==> spec_writable(#[trigger] writable_of(s)[i]),
        forall|i: int| 0 <= i < writable_of(s).len() ==> s.contains(#[trigger] writable_of(s)[i]),
    decreases s.len(),
{
    if s.len() > 0 {
        lemma_writable_of(s.drop_last());
        assert forall|i: int| 0 <= i < writable_of(s).len() implies s.contains(#[trigger] writable_of(s)[i]) by {
            if i < writable_of(s.drop_last()).len() {
                let x = writable_of(s.drop_last())[i];
                assert(s.drop_last().contains(x));
                let j = choose|j: int| 0 <= j < s.drop_last().len() && s.drop_last()[j] == x;
                assert(s[j] == x);
            } else {
                assert(s[s.len() - 1] == s.last());
            }
        }
    }
}

/// The writable regions of `regions`, in order.
pub fn writable_regions(regions: &[Region]) -> (r: Vec<Region>)
    ensures
        r@ == writable_of(regions@),
{
    let mut out: Vec<Region> = Vec::new();
    let mut i: usize = 0;
    while i < regions.len()
        invariant
            i <= regions@.len(),
            out@ == writable_of(regions@.subrange(0, i as int)),
        decreases regions@.len() - i,
    {
        assert(regions@.subrange(0, i + 1).drop_last() =~= regions@.subrange(0, i as int));
        if writable(&regions[i]) {
            out.push(regions[i]);
        }
        i = i + 1;
    }
    assert(regions@.subrange(0, i as int) =~= regions@);
    out
}

/// The regions of `s` whose range lies inside `m` (where `inside`) or does not (where
/// not), in order.
pub open spec fn module_part(s: Seq<Region>, m: AddressRange, inside: bool) -> Seq<Region>
    decreases s.len(),
{
    if s.len() == 0 {
        s
    } else if (m.start_addr <= s.last().range.start_addr && s.last().range.end_addr <= m.end_addr) == inside {
        module_part(s.drop_last(), m, inside).push(s.last())
    } else {
        module_part(s.drop_last(), m, inside)
    }
}

proof fn lemma_module_part(s: Seq<Region>, m: AddressRange, inside: bool)
    ensures
        forall|i: int| 0 <= i < module_part(s, m, inside).len() ==> s.contains(#[trigger] module_part(s, m, inside)[i]),
    decreases s.len(),
{
    if s.len() > 0 {
        lemma_module_part(s.drop_last(), m, inside);
        assert forall|i: int| 0 <= i < module_part(s, m, inside).len() implies s.contains(#[trigger] module_part(s, m, inside)[i]) by {
            if i < module_part(s.drop_last(), m, inside).len() {
                let x = module_part(s.drop_last(), m, inside)[i];
                assert(s.drop_last().contains(x));
                let j = choose|j: int| 0 <= j < s.drop_last().len() && s.drop_last()[j] == x;
                assert(s[j] == x);
            } else {
                assert(s[s.len() - 1] == s.last());
            }
        }
    }
}

/// The regions whose range lies inside `m` (where `inside`) or does not (where not), in
/// order.
pub fn regions_by_module(regions: &[Region], m: AddressRange, inside: bool) -> (r: Vec<Region>)
    ensures
        r@ == module_part(regions@, m, inside),
{
    let mut out: Vec<Region> = Vec::new();
    let mut i: usize = 0;
    while i < regions.len()
        invariant
            i <= regions@.len(),
            out@ == module_part(regions@.subrange(0, i as int), m, inside),
        decreases regions@.len() - i,
    {
        assert(regions@.subrange(0, i + 1).drop_last() =~= regions@.subrange(0, i as int));
        if m.contains_range(regions[i].range) == inside {
            out.push(regions[i]);
        }
        i = i + 1;
    }
    assert(regions@.subrange(0, i as int) =~= regions@);
    out
}

fn wf_regions(regions: &[Region]) -> (r: Vec<Region>)
    ensures
        r@ == wf_of(regions@),
{
    let mut out: Vec<Region> = Vec::new();
    let mut i: usize = 0;
    while i < regions.len()
        invariant
            i <= regions@.len(),
            out@ == wf_of(regions@.subrange(0, i as int)),
        decreases regions@.len() - i,
    {
        assert(regions@.subrange(0, i + 1).drop_last() =~= regions@.subrange(0, i as int));
        if regions[i].range.start_addr <= regions[i].range.end_addr {
            out.push(regions[i]);
        }
        i = i + 1;
    }
    assert(regions@.subrange(0, i as int) =~= regions@);
    out
}

/// What `Path::file_name` makes of a path: its final component, unless that is `..`.
pub uninterp spec fn path_file_name(path: Seq<char>) -> Option<Seq<char>>;

/// `std::path::Path::file_name` on a path given as a string; the component is turned
/// back into a string. The result is named `path_file_name`.
#[verifier::external_body]
pub(crate) fn file_name_of(path: &str) -> (r: Option<String>)
    ensures
        match r {
            Some(s) => path_file_name(path@) == Some(s@),
            None => path_file_name(path@) is None,
        },
{
    match std::path::Path::new(path).file_name() {
        Some(n) => Some(n.to_string_lossy().into_owned()),
        None => None,
    }
}

/// The index of the first module from `i` on whose file name is `exe`.
pub open spec fn first_named_from(ms: Seq<Module>, exe: Seq<char>, i: int) -> Option<int>
    decreases ms.len() - i,
{
    if i < 0 || i >= ms.len() {
        None
    } else if path_file_name(ms[i].name@) == Some(exe) {
        Some(i)
    } else {
        first_named_from(ms, exe, i + 1)
    }
}

/// The index of the first module with the lowest range among those from `i` on and the
/// one at `best`.
pub open spec fn lowest_from(ms: Seq<Module>, i: int, best: int) -> int
    decreases ms.len() - i,
{
    if i < 0 || i >= ms.len() {
        best
    } else if range_lt(ms[i].range, ms[best].range) {
        lowest_from(ms, i + 1, i)
    } else {
        lowest_from(ms, i + 1, best)
    }
}

/// The range of the executable's module: the first module whose file name is the
/// executable's name, or else the first with the lowest range.
pub open spec fn pick_module_range(ms: Seq<Module>, exe: Seq<char>) -> AddressRange {
    match first_named_from(ms, exe, 0) {
        Some(i) => ms[i].range,
        None => ms[lowest_from(ms, 1, 0)].range,
    }
}

/// Finds the range of the executable's module: the first module whose file name is
/// `exe_name`, or else the first with the lowest range.
pub fn select_module_range(modules: &[Module], exe_name: &str) -> (r: AddressRange)
    requires
        modules@.len() > 0,
    ensures
        r == pick_module_range(modules@, exe_name@),
        first_named_from(modules@, exe_name@, 0) is None ==> forall|k: int|
            0 <= k < modules@.len() ==> !range_lt(#[trigger] modules@[k].range, r),
{
    let n = modules.len();
    let mut i: usize = 0;
    while i < n
        invariant
            i <= n,
            n == modules@.len(),
            first_named_from(modules@, exe_name@, 0) == first_named_from(modules@, exe_name@, i as int),
        decreases n - i,
    {
        match file_name_of(modules[i].name.as_str()) {
            Some(f) => {
                if f == exe_name.to_owned() {
                    return modules[i].range;
                }
            },
            None => {},
        }
        i = i + 1;
    }
    let mut best: usize = 0;
    let mut k: usize = 1;
    while k < n
        invariant
            1 <= k <= n,
            best < k,
            n == modules@.len(),
            lowest_from(modules@, 1, 0) == lowest_from(modules@, k as int, best as int),
            forall|q: int| 0 <= q < k ==> !range_lt(#[trigger] modules@[q].range, modules@[best as int].range),
        decreases n - k,
    {
        if modules[k].range.precedes(&modules[best].range) {
            best = k;
        }
        k = k + 1;
    }
    modules[best].range
}

/// The layout holds its pages' contents: each is a writable region whose range is
/// well-formed, with exactly its range's bytes.
pub open spec fn pages_fit(pages: Seq<(Region, Vec<u8>)>) -> bool {
    forall|k: int|
        0 <= k < pages.len() ==> {
            let (b, d) = #[trigger] pages[k];
            &&& range_wf(b.range)
            &&& d@.len() == b.range.end_addr - b.range.start_addr
        }
}

/// The pages as regions with their bytes.
pub open spec fn pages_view(pages: Seq<(Region, Vec<u8>)>) -> Seq<(Region, Seq<u8>)> {
    Seq::new(pages.len(), |k: int| (pages[k].0, pages[k].1@))
}

/// Read `k` of `evs` asks for block `k`: its first address and its size, one read per
/// block.
pub open spec fn block_reads(blocks: Seq<Region>, evs: Seq<ReadEvent>) -> bool {
    &&& evs.len() == blocks.len()
    &&& forall|k: int|
        0 <= k < evs.len() ==> (#[trigger] evs[k]).addr == blocks[k].range.start_addr && evs[k].size
            == blocks[k].range.end_addr - blocks[k].range.start_addr
}

/// The pages kept from `blocks` whose reads answered `evs`: each block whose read
/// succeeded, with the bytes the read left, in the blocks' order.
pub open spec fn kept_pages(blocks: Seq<Region>, evs: Seq<ReadEvent>) -> Seq<(Region, Seq<u8>)>
    decreases blocks.len(),
{
    if blocks.len() == 0 {
        Seq::empty()
    } else {
        let rest = kept_pages(blocks.drop_last(), evs.drop_last());
        match evs.last().answer {
            Ok((_, b)) => rest.push((blocks.last(), b)),
            Err(_) => rest,
        }
    }
}

/// Reads each block, one read each, in order; those whose read succeeds are kept with
/// the bytes read.
fn read_blocks<R: Reader>(reader: &mut R, blocks: &Vec<Region>) -> (r: Vec<(Region, Vec<u8>)>)
    requires
        forall|i: int| 0 <= i < blocks@.len() ==> range_wf(#[trigger] blocks@[i].range),
    ensures
        pages_fit(r@),
        log_extends(old(reader).read_log(), final(reader).read_log()),
        block_reads(blocks@, new_reads(old(reader).read_log(), final(reader).read_log())),
        pages_view(r@) == kept_pages(blocks@, new_reads(old(reader).read_log(), final(reader).read_log())),
{
    let mut out: Vec<(Region, Vec<u8>)> = Vec::new();
    let ghost start_log = reader.read_log();
    let mut i: usize = 0;
    proof {
        assert(reader.read_log().subrange(0, start_log.len() as int) =~= start_log);
        assert(pages_view(out@) =~= kept_pages(blocks@.subrange(0, 0), new_reads(start_log, reader.read_log())));
    }
    while i < blocks.len()
        invariant
            i <= blocks@.len(),
            forall|q: int| 0 <= q < blocks@.len() ==> range_wf(#[trigger] blocks@[q].range),
            pages_fit(out@),
            start_log == old(reader).read_log(),
            log_extends(start_log, reader.read_log()),
            block_reads(blocks@.subrange(0, i as int), new_reads(start_log, reader.read_log())),
            pages_view(out@) == kept_pages(blocks@.subrange(0, i as int), new_reads(start_log, reader.read_log())),
        decreases blocks@.len() - i,
    {
        let block = blocks[i];
        assert(range_wf(blocks@[i as int].range));
        let mut buf = fill_bytes(0, block.range.size());
        let ghost before_log = reader.read_log();
        let ghost before_out = out@;
        let read = reader.read_range(block.range, buf.as_mut_slice());
        let ghost e0 = new_reads(start_log, before_log);
        let ghost e1 = new_reads(start_log, reader.read_log());
        let ghost b1 = blocks@.subrange(0, i + 1);
        proof {
            assert(reader.read_log().subrange(0, before_log.len() as int) =~= before_log);
            assert(reader.read_log().subrange(0, start_log.len() as int) =~= start_log);
            assert(e1 =~= e0.push(reader.read_log().last()));
            assert(b1.drop_last() =~= blocks@.subrange(0, i as int));
            assert(e1.drop_last() =~= e0);
            assert forall|k: int| 0 <= k < e1.len() implies (#[trigger] e1[k]).addr == b1[k].range.start_addr
                && e1[k].size == b1[k].range.end_addr - b1[k].range.start_addr by {
                if k < e0.len() {
                    assert(e1[k] == e0[k]);
                }
            }
        }
        match read {
            Ok(_) => {
                out.push((block, buf));
                proof {
                    assert forall|k: int| 0 <= k < out@.len() implies {
                        let (b, d) = #[trigger] out@[k];
                        &&& range_wf(b.range)
                        &&& d@.len() == b.range.end_addr - b.range.start_addr
                    } by {
                        if k < before_out.len() {
                            assert(out@[k] == before_out[k]);
                        }
                    }
                    assert(pages_view(out@) =~= pages_view(before_out).push((block, buf@)));
                }
            },
            Err(_) => {},
        }
        i = i + 1;
    }
    assert(blocks@.subrange(0, i as int) =~= blocks@);
    out
}

/// The writable regions of the merged well-formed regions.
pub open spec fn writable_merged(regions: Seq<Region>) -> Seq<Region> {
    writable_of(region_merge_all(sort_regions(wf_of(regions))))
}

/// The writable regions of the merged well-formed regions that lie inside the module
/// range `m`: those that are read.
pub open spec fn module_blocks(regions: Seq<Region>, m: AddressRange) -> Seq<Region> {
    module_part(writable_merged(regions), m, true)
}

/// The layout that the regions, modules and executable name of a process give, when
/// the reads of the module's pages answered `evs`: the executable's module range; the
/// writable regions of the merged well-formed regions that lie outside it as the heap;
/// and, of those inside it, each read once in order, the ones whose read succeeded, with
/// the bytes read.
pub open spec fn layout_from(
    l: MemoryLayout,
    regions: Seq<Region>,
    modules: Seq<Module>,
    exe: Seq<char>,
    evs: Seq<ReadEvent>,
) -> bool {
    &&& modules.len() > 0
    &&& l.module_range == pick_module_range(modules, exe)
    &&& l.writable_heap@ == module_part(writable_merged(regions), l.module_range, false)
    &&& pages_fit(l.writable_mod@)
    &&& block_reads(module_blocks(regions, l.module_range), evs)
    &&& pages_view(l.writable_mod@) == kept_pages(module_blocks(regions, l.module_range), evs)
}

/// What building a layout gives, from what listing the regions and the modules gave,
/// the executable's name and the reads made: a listing's error (with no read made), or
/// with no module listed [`WinMemError::ModuleEnumerationFailed`] with code 0 (with no
/// read made), or the layout they give.
pub open spec fn layout_outcome(
    r: Result<MemoryLayout, MemError>,
    regions: Result<Seq<Region>, MemError>,
    modules: Result<Seq<Module>, MemError>,
    exe: Seq<char>,
    evs: Seq<ReadEvent>,
) -> bool {
    match regions {
        Err(e) => r == Err::<MemoryLayout, MemError>(e) && evs.len() == 0,
        Ok(rs) => match modules {
            Err(e) => r == Err::<MemoryLayout, MemError>(e) && evs.len() == 0,
            Ok(ms) => if ms.len() == 0 {
                r == Err::<MemoryLayout, MemError>(
                    MemError::Windows(WinMemError::ModuleEnumerationFailed { code: 0 }),
                ) && evs.len() == 0
            } else {
                r is Ok && layout_from(r->Ok_0, rs, ms, exe, evs)
            },
        },
    }
}

/// A listing's result as plain values.
pub open spec fn list_view<T>(l: Result<Vec<T>, MemError>) -> Result<Seq<T>, MemError> {
    match l {
        Ok(v) => Ok(v@),
        Err(e) => Err(e),
    }
}

impl MemoryLayout {
    /// Builds the layout from a process's regions, modules and executable name: the
    /// writable regions inside the executable's module are read with `reader`, one read
    /// each in order (those whose read fails are left out), the others form the heap.
    ///
    /// Regions whose range ends before it starts are left out.
    pub fn from_parts<R: Reader>(reader: &mut R, regions: &Vec<Region>, modules: &Vec<Module>, exe_name: &str) -> (r: MemoryLayout)
        requires
            modules@.len() > 0,
        ensures
            log_extends(old(reader).read_log(), final(reader).read_log()),
            layout_from(
                r,
                regions@,
                modules@,
                exe_name@,
                new_reads(old(reader).read_log(), final(reader).read_log()),
            ),
    {
        let good = wf_regions(regions.as_slice());
        proof {
            lemma_wf_of(regions@);
        }
        let merged = Region::merge(good.as_slice());
        assert(forall|i: int| 0 <= i < merged@.len() ==> range_wf(#[trigger] merged@[i].range));
        let heap = writable_regions(merged.as_slice());
        proof {
            lemma_writable_of(merged@);
        }
        assert forall|i: int| 0 <= i < heap@.len() implies range_wf(#[trigger] heap@[i].range) by {
            assert(merged@.contains(heap@[i]));
            let j = choose|j: int| 0 <= j < merged@.len() && merged@[j] == heap@[i];
            assert(range_wf(merged@[j].range));
        }
        let module_range = select_module_range(modules.as_slice(), exe_name);
        let in_module = regions_by_module(heap.as_slice(), module_range, true);
        let outside = regions_by_module(heap.as_slice(), module_range, false);
        proof {
            lemma_module_part(heap@, module_range, true);
        }
        assert forall|i: int| 0 <= i < in_module@.len() implies range_wf(#[trigger] in_module@[i].range) by {
            assert(heap@.contains(in_module@[i]));
            let j = choose|j: int| 0 <= j < heap@.len() && heap@[j] == in_module@[i];
            assert(range_wf(heap@[j].range));
        }
        let pages = read_blocks(reader, &in_module);
        MemoryLayout { module_range, writable_mod: pages, writable_heap: outside }
    }

    /// Builds the layout of a process.
    ///
    /// Fails where the process's regions or modules cannot be listed. The process must
    /// list at least one module where it lists its regions.
    pub fn new<P: Process>(o_proc: &mut P) -> (r: Result<MemoryLayout, MemError>)
        requires
            old(o_proc).region_list() is Ok ==> (old(o_proc).module_list() matches Ok(ms) ==> ms.len() > 0),
        ensures
            log_extends(old(o_proc).read_log(), final(o_proc).read_log()),
            layout_outcome(
                r,
                old(o_proc).region_list(),
                old(o_proc).module_list(),
                old(o_proc).exe_name(),
                new_reads(old(o_proc).read_log(), final(o_proc).read_log()),
            ),
    {
        let regions = o_proc.get_regions();
        MemoryLayout::from_region_list(o_proc, regions)
    }

    /// Builds the layout of a process from what listing its regions gave: that error, or
    /// (the regions listed, the process then listing its modules) what
    /// [`from_module_list`](MemoryLayout::from_module_list) makes of them.
    pub fn from_region_list<P: Process>(o_proc: &mut P, regions: Result<Vec<Region>, MemError>) -> (r: Result<
        MemoryLayout,
        MemError,
    >)
        ensures
            log_extends(old(o_proc).read_log(), final(o_proc).read_log()),
            layout_outcome(
                r,
                list_view(regions),
                old(o_proc).module_list(),
                old(o_proc).exe_name(),
                new_reads(old(o_proc).read_log(), final(o_proc).read_log()),
            ),
    {
        match regions {
            Err(e) => {
                proof {
                    assert(o_proc.read_log().subrange(0, o_proc.read_log().len() as int) =~= o_proc.read_log());
                }
                Err(e)
            },
            Ok(rs) => {
                let modules = o_proc.get_modules();
                MemoryLayout::from_module_list(o_proc, &rs, modules)
            },
        }
    }

    /// Builds the layout of a process from its regions and what listing its modules
    /// gave: that error, or what [`from_lists`](MemoryLayout::from_lists) makes of them.
    pub fn from_module_list<P: Process>(o_proc: &mut P, regions: &Vec<Region>, modules: Result<Vec<Module>, MemError>) -> (r:
        Result<MemoryLayout, MemError>)
        ensures
            log_extends(old(o_proc).read_log(), final(o_proc).read_log()),
            layout_outcome(
                r,
                Ok(regions@),
                list_view(modules),
                old(o_proc).exe_name(),
                new_reads(old(o_proc).read_log(), final(o_proc).read_log()),
            ),
    {
        match modules {
            Err(e) => {
                proof {
                    assert(o_proc.read_log().subrange(0, o_proc.read_log().len() as int) =~= o_proc.read_log());
                }
                Err(e)
            },
            Ok(ms) => MemoryLayout::from_lists(o_proc, regions, &ms),
        }
    }

    /// Builds the layout of a process from the regions and modules it listed: fails
    /// where no module is listed (with [`WinMemError::ModuleEnumerationFailed`] and code
    /// 0), and otherwise asks the process for its executable's name and builds the
    /// layout from them.
    pub fn from_lists<P: Process>(o_proc: &mut P, regions: &Vec<Region>, modules: &Vec<Module>) -> (r:
        Result<MemoryLayout, MemError>)
        ensures
            log_extends(old(o_proc).read_log(), final(o_proc).read_log()),
            layout_outcome(
                r,
                Ok(regions@),
                Ok(modules@),
                old(o_proc).exe_name(),
                new_reads(old(o_proc).read_log(), final(o_proc).read_log()),
            ),
    {
        if modules.len() == 0 {
            proof {
                assert(o_proc.read_log().subrange(0, o_proc.read_log().len() as int) =~= o_proc.read_log());
            }
            return Err(MemError::Windows(WinMemError::ModuleEnumerationFailed { code: 0 }));
        }
        let exe_name = o_proc.executable_name();
        let l = MemoryLayout::from_parts(o_proc, regions, modules, exe_name.as_str());
        Ok(l)
    }
}

/// The index of the first region from `i` on whose range holds `addr`.
pub open spec fn first_holding(heap: Seq<Region>, addr: int, i: int) -> Option<int>
    decreases heap.len() - i,
{
    if i < 0 || i >= heap.len() {
        None
    } else if range_has(heap[i].range, addr) {
        Some(i)
    } else {
        first_holding(heap, addr, i + 1)
    }
}

proof fn lemma_first_holding(heap: Seq<Region>, addr: int, i: int)
    requires
        0 <= i <= heap.len(),
    ensures
        first_holding(heap, addr, i) is None <==> forall|k: int| i <= k < heap.len() ==> !range_has(#[trigger] heap[k].range, addr),
    decreases heap.len() - i,
{
    if i < heap.len() {
        lemma_first_holding(heap, addr, i + 1);
    }
}

/// The regions of `heap` other than `r` with the same allocation base, in order.
pub open spec fn siblings_of(heap: Seq<Region>, r: Region) -> Seq<Region>
    decreases heap.len(),
{
    if heap.len() == 0 {
        heap
    } else {
        let rest = siblings_of(heap.drop_last(), r);
        let x = heap.last();
        if x != r && x.base == r.base {
            rest.push(x)
        } else {
            rest
        }
    }
}

impl MemoryLayout {
    /// The regions of the heap other than `heap` that share its allocation base.
    pub fn block_siblings(&self, heap: &Region) -> (r: Vec<Region>)
        ensures
            r@ == siblings_of(self.writable_heap@, *heap),
    {
        let blocks = &self.writable_heap;
        let mut out: Vec<Region> = Vec::new();
        let mut i: usize = 0;
        while i < blocks.len()
            invariant
                i <= blocks@.len(),
                out@ == siblings_of(blocks@.subrange(0, i as int), *heap),
            decreases blocks@.len() - i,
        {
            assert(blocks@.subrange(0, i + 1).drop_last() =~= blocks@.subrange(0, i as int));
            let x = blocks[i];
            if !(x == *heap) && x.base == heap.base {
                out.push(x);
            }
            i = i + 1;
        }
        assert(blocks@.subrange(0, i as int) =~= blocks@);
        out
    }

    /// The heap region that holds `addr` (the first, if several do), and the other heap
    /// regions with the same allocation base.
    pub fn get_addr_segment(&self, addr: MemAddress) -> (r: Option<(Region, Vec<Region>)>)
        ensures
            match first_holding(self.writable_heap@, addr as int, 0) {
                None => r is None,
                Some(i) => r matches Some((p, s)) && p == self.writable_heap@[i]
                    && s@ == siblings_of(self.writable_heap@, p),
            },
            r is None <==> forall|k: int|
                0 <= k < self.writable_heap@.len() ==> !range_has(#[trigger] self.writable_heap@[k].range, addr as int),
    {
        proof {
            lemma_first_holding(self.writable_heap@, addr as int, 0);
        }
        let blocks = &self.writable_heap;
        let mut i: usize = 0;
        while i < blocks.len()
            invariant
                i <= blocks@.len(),
                blocks@ == self.writable_heap@,
                first_holding(blocks@, addr as int, 0) == first_holding(blocks@, addr as int, i as int),
            decreases blocks@.len() - i,
        {
            if blocks[i].range.contains_addr(addr) {
                assert(first_holding(blocks@, addr as int, i as int) == Some(i as int));
                let parent = blocks[i];
                let siblings = self.block_siblings(&parent);
                return Some((parent, siblings));
            }
            i = i + 1;
        }
        None
    }

    /// Whether a heap region holds `addr`.
    pub fn is_in_heap(&self, addr: MemAddress) -> (r: bool)
        ensures
            r == exists|k: int| 0 <= k < self.writable_heap@.len() && range_has(#[trigger] self.writable_heap@[k].range, addr as int),
    {
        let blocks = &self.writable_heap;
        let mut i: usize = 0;
        while i < blocks.len()
            invariant
                i <= blocks@.len(),
                blocks@ == self.writable_heap@,
                forall|k: int| 0 <= k < i ==> !range_has(#[trigger] blocks@[k].range, addr as int),
            decreases blocks@.len() - i,
        {
            if blocks[i].range.contains_addr(addr) {
                assert(range_has(blocks@[i as int].range, addr as int));
                return true;
            }
            i = i + 1;
        }
        false
    }

    /// `Ok` if a heap region holds `addr`; otherwise the error names `desc`.
    pub fn heap_ptr(&self, desc: &str, addr: MemAddress) -> (r: Result<(), ScannerError>)
        ensures
            r is Ok <==> exists|k: int| 0 <= k < self.writable_heap@.len() && range_has(#[trigger] self.writable_heap@[k].range, addr as int),
            r matches Err(ScannerError::NotInHeap { addr: a, desc: d }) ==> a == addr && d@ == desc@,
            r is Err ==> r matches Err(ScannerError::NotInHeap { .. }),
    {
        if self.is_in_heap(addr) {
            Ok(())
        } else {
            Err(ScannerError::NotInHeap { addr, desc: desc.to_owned() })
        }
    }

    /// Whether the executable's module range holds `addr`.
    pub fn is_in_module(&self, addr: MemAddress) -> (r: bool)
        ensures
            r == range_has(self.module_range, addr as int),
    {
        self.module_range.contains_addr(addr)
    }

    /// `Ok` if the executable's module range holds `addr`; otherwise the error names
    /// `desc`.
    pub fn module_ptr(&self, desc: &str, addr: MemAddress) -> (r: Result<(), ScannerError>)
        ensures
            r is Ok <==> range_has(self.module_range, addr as int),
            r matches Err(ScannerError::NotInModule { addr: a, desc: d }) ==> a == addr && d@ == desc@,
            r is Err ==> r matches Err(ScannerError::NotInModule { .. }),
    {
        if self.is_in_module(addr) {
            Ok(())
        } else {
            Err(ScannerError::NotInModule { addr, desc: desc.to_owned() })
        }
    }

    /// Scans the pages read with the layout for the pattern, one result per page.
    pub fn scan_module<P: ScanPattern>(&self, siggy: &P) -> (r: Vec<ChunkScanResult>)
        requires
            siggy.wf(),
            0 < siggy.spec_window().len(),
            pages_fit(self.writable_mod@),
            forall|k: int|
                0 <= k < self.writable_mod@.len() ==> siggy.spec_window().len() <= (
                #[trigger] self.writable_mod@[k]).1@.len(),
        ensures
            r@.len() == self.writable_mod@.len(),
            forall|k: int|
                0 <= k < r@.len() ==> {
                    let (b, d) = self.writable_mod@[k];
                    &&& (#[trigger] r@[k]).range == b.range
                    &&& matches_view(r@[k].matches@) == spec_scan(
                        siggy.spec_window(),
                        siggy.spec_window_mask(),
                        siggy.spec_true_len(),
                        b.range.start_addr as int,
                        d@,
                    )
                    &&& r@[k].pattern@.0 == siggy.spec_window().subrange(0, siggy.spec_true_len() as int)
                    &&& r@[k].pattern@.1 == match siggy.spec_window_mask() {
                        None => None,
                        Some(m) => Some(m.subrange(0, siggy.spec_true_len() as int)),
                    }
                },
    {
        let pages = &self.writable_mod;
        let mut out: Vec<ChunkScanResult> = Vec::new();
        let mut i: usize = 0;
        while i < pages.len()
            invariant
                i <= pages@.len(),
                siggy.wf(),
                0 < siggy.spec_window().len(),
                pages_fit(pages@),
                forall|k: int| 0 <= k < pages@.len() ==> siggy.spec_window().len() <= (#[trigger] pages@[k]).1@.len(),
                out@.len() == i,
                forall|k: int|
                    0 <= k < i ==> {
                        let (b, d) = pages@[k];
                        &&& (#[trigger] out@[k]).range == b.range
                        &&& matches_view(out@[k].matches@) == spec_scan(
                            siggy.spec_window(),
                            siggy.spec_window_mask(),
                            siggy.spec_true_len(),
                            b.range.start_addr as int,
                            d@,
                        )
                        &&& out@[k].pattern@.0 == siggy.spec_window().subrange(0, siggy.spec_true_len() as int)
                        &&& out@[k].pattern@.1 == match siggy.spec_window_mask() {
                            None => None,
                            Some(m) => Some(m.subrange(0, siggy.spec_true_len() as int)),
                        }
                    },
            decreases pages@.len() - i,
        {
            let block = &pages[i].0;
            let data = &pages[i].1;
            assert(siggy.spec_window().len() <= pages@[i as int].1@.len());
            let matches = siggy.scan_buffer(block.range.start_addr, data.as_slice());
            let pattern = BytePattern::from_pattern(siggy);
            out.push(ChunkScanResult { pattern, range: block.range, matches });
            i = i + 1;
        }
        out
    }
}


/// A region counts as writable exactly when it is private and committed, readable and
/// writable, and not a guard page: a page is left out only where it is both guarded and
/// inaccessible, so a guard or inaccessible flag alone does not exclude it.
pub proof fn lemma_writable_flags(r: Region)
    ensures
        spec_writable(r) <==> {
            &&& r.mem_type.bits == 1
            &&& r.state == State::COMMITTED
            &&& r.perms.bits & 1u8 != 0
            &&& r.perms.bits & 2u8 != 0
            &&& !(r.perms.bits & 0x10u8 != 0 && r.perms.bits & 0x20u8 != 0)
        },
{
    let b = r.perms.bits;
    assert(((b & 3u8 == 3u8) == (b & 1u8 != 0 && b & 2u8 != 0)) && ((b & 0x30u8 == 0x30u8) == (b & 0x10u8 != 0
        && b & 0x20u8 != 0))) by (bit_vector);
}

} // verus!
