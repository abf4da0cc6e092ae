//! Memory regions of a process's address space, with their state, type and permissions.

use vstd::prelude::*;

use super::reader::{range_has, range_wf, spec_overlaps, max_addr, min_addr, AddressRange, MemAddress};
use crate::util::{all_ascii, ascii_chars, ascii_string, join_ascii, join_with};

verus! {

/// The allocation state of a memory region.
#[derive(Copy, Clone, Debug, PartialEq, Eq, Structural)]
pub enum State {
    /// The region is not in use and has no backing storage.
    FREE,
    /// The region is actively mapped and accessible.
    COMMITTED,
    /// The region has been reserved in the virtual address space but not yet backed by storage.
    RESERVED,
}

/// The type of backing storage for a memory region, as a set of flags.
#[derive(Copy, Clone, Debug, PartialEq, Eq, Structural)]
pub struct MemType {
    pub bits: u8,
}

impl MemType {
    /// No type information (e.g. free regions).
    pub fn none() -> (r: MemType)
        ensures
            r.bits == 0b00000000,
    {
        MemType { bits: 0b00000000 }
    }
    /// Private memory exclusive to this process (stack, heap, static data).
    pub fn private() -> (r: MemType)
        ensures
            r.bits == 0b00000001,
    {
        MemType { bits: 0b00000001 }
    }
    /// A memory-mapped file (non-executable).
    pub fn mapped() -> (r: MemType)
        ensures
            r.bits == 0b00000010,
    {
        MemType { bits: 0b00000010 }
    }
    /// Part of a mapped executable image.
    pub fn image() -> (r: MemType)
        ensures
            r.bits == 0b00000100,
    {
        MemType { bits: 0b00000100 }
    }

    /// The raw flag bits.
    pub fn bits(&self) -> (r: u8)
        ensures
            r == self.bits,
    {
        self.bits
    }
}

/// Access permissions for a memory region, as a set of flags.
#[derive(Copy, Clone, Debug, PartialEq, Eq, Structural)]
pub struct Perms {
    pub bits: u8,
}

impl Perms {
    /// No permissions (inaccessible).
    pub fn none() -> (r: Perms)
        ensures
            r.bits == 0b00000000,
    {
        Perms { bits: 0b00000000 }
    }
    /// Read access.
    pub fn read() -> (r: Perms)
        ensures
            r.bits == 0b00000001,
    {
        Perms { bits: 0b00000001 }
    }
    /// Write access.
    pub fn write() -> (r: Perms)
        ensures
            r.bits == 0b00000010,
    {
        Perms { bits: 0b00000010 }
    }
    /// Execute access.
    pub fn execute() -> (r: Perms)
        ensures
            r.bits == 0b00000100,
    {
        Perms { bits: 0b00000100 }
    }
    /// Copy-on-write.
    pub fn cow() -> (r: Perms)
        ensures
            r.bits == 0b00001000,
    {
        Perms { bits: 0b00001000 }
    }
    /// Guard page: triggers an exception on first access.
    pub fn guard() -> (r: Perms)
        ensures
            r.bits == 0b00010000,
    {
        Perms { bits: 0b00010000 }
    }
    /// No access (distinct from `NONE`; used when a guard page is active).
    pub fn nope() -> (r: Perms)
        ensures
            r.bits == 0b00100000,
    {
        Perms { bits: 0b00100000 }
    }

    /// The raw flag bits.
    pub fn bits(&self) -> (r: u8)
        ensures
            r == self.bits,
    {
        self.bits
    }

    /// The flags of both.
    pub fn union(self, other: Perms) -> (r: Perms)
        ensures
            r.bits == self.bits | other.bits,
    {
        Perms { bits: self.bits | other.bits }
    }

    /// The flags common to both.
    pub fn intersection(self, other: Perms) -> (r: Perms)
        ensures
            r.bits == self.bits & other.bits,
    {
        Perms { bits: self.bits & other.bits }
    }

    /// Whether every flag of `other` is set here.
    pub fn contains(&self, other: Perms) -> (r: bool)
        ensures
            r == (self.bits & other.bits == other.bits),
    {
        self.bits & other.bits == other.bits
    }

    /// Clears the flags of `other`.
    pub fn remove(&mut self, other: Perms)
        ensures
            final(self).bits == old(self).bits & !other.bits,
    {
        self.bits = self.bits & !other.bits;
    }
}

impl core::ops::BitOr for Perms {
    type Output = Perms;

    fn bitor(self, rhs: Perms) -> (r: Perms) {
        Perms { bits: self.bits | rhs.bits }
    }
}

impl vstd::std_specs::ops::BitOrSpecImpl for Perms {
    open spec fn obeys_bitor_spec() -> bool {
        true
    }

    open spec fn bitor_req(self, rhs: Perms) -> bool {
        true
    }

    open spec fn bitor_spec(self, rhs: Perms) -> Perms {
        Perms { bits: self.bits | rhs.bits }
    }
}

impl core::ops::BitAnd for Perms {
    type Output = Perms;

    fn bitand(self, rhs: Perms) -> (r: Perms) {
        Perms { bits: self.bits & rhs.bits }
    }
}

impl vstd::std_specs::ops::BitAndSpecImpl for Perms {
    open spec fn obeys_bitand_spec() -> bool {
        true
    }

    open spec fn bitand_req(self, rhs: Perms) -> bool {
        true
    }

    open spec fn bitand_spec(self, rhs: Perms) -> Perms {
        Perms { bits: self.bits & rhs.bits }
    }
}

/// The name a list of flags has where it is `parts` (`(empty)` where there are none):
/// the parts joined by ` | `.
pub open spec fn flags_text(parts: Seq<Seq<u8>>) -> Seq<u8> {
    if parts.len() == 0 {
        seq!['(' as u8, 'e' as u8, 'm' as u8, 'p' as u8, 't' as u8, 'y' as u8, ')' as u8]
    } else {
        join_with(parts, seq![' ' as u8, '|' as u8, ' ' as u8])
    }
}

/// `[name]` where `cond` holds, nothing otherwise.
pub open spec fn name_if(cond: bool, name: Seq<u8>) -> Seq<Seq<u8>> {
    if cond {
        seq![name]
    } else {
        Seq::empty()
    }
}

/// A lowercase hexadecimal digit.
pub open spec fn hex_digit_lower(d: u8) -> u8 {
    if d < 10 {
        (48 + d) as u8
    } else {
        (87 + d) as u8
    }
}

/// A byte in lowercase hexadecimal, without leading zeros, after `0x`.
pub open spec fn hex_text(x: u8) -> Seq<u8> {
    if x < 16 {
        seq!['0' as u8, 'x' as u8, hex_digit_lower(x)]
    } else {
        seq!['0' as u8, 'x' as u8, hex_digit_lower(x / 16), hex_digit_lower(x % 16)]
    }
}

/// The names of the permission flags set in `bits`, in order: `NONE` where no bit is
/// set, then `READ`, `WRITE`, `EXECUTE`, `COW`, `GUARD` and `NOPE`, then the unknown
/// bits in hexadecimal.
pub open spec fn perms_parts(bits: u8) -> Seq<Seq<u8>> {
    name_if(bits == 0, seq!['N' as u8, 'O' as u8, 'N' as u8, 'E' as u8])
        + name_if(bits & 1 == 1, seq!['R' as u8, 'E' as u8, 'A' as u8, 'D' as u8])
        + name_if(bits & 2 == 2, seq!['W' as u8, 'R' as u8, 'I' as u8, 'T' as u8, 'E' as u8])
        + name_if(bits & 4 == 4, seq!['E' as u8, 'X' as u8, 'E' as u8, 'C' as u8, 'U' as u8, 'T' as u8, 'E' as u8])
        + name_if(bits & 8 == 8, seq!['C' as u8, 'O' as u8, 'W' as u8])
        + name_if(bits & 16 == 16, seq!['G' as u8, 'U' as u8, 'A' as u8, 'R' as u8, 'D' as u8])
        + name_if(bits & 32 == 32, seq!['N' as u8, 'O' as u8, 'P' as u8, 'E' as u8])
        + name_if(bits & 0xc0 != 0, hex_text(bits & 0xc0))
}

/// The names of the memory type flags set in `bits`, in order: `NONE` where no bit is
/// set, then `PRIVATE`, `MAPPED` and `IMAGE`, then the unknown bits in hexadecimal.
pub open spec fn mem_type_parts(bits: u8) -> Seq<Seq<u8>> {
    name_if(bits == 0, seq!['N' as u8, 'O' as u8, 'N' as u8, 'E' as u8])
        + name_if(bits & 1 == 1, seq!['P' as u8, 'R' as u8, 'I' as u8, 'V' as u8, 'A' as u8, 'T' as u8, 'E' as u8])
        + name_if(bits & 2 == 2, seq!['M' as u8, 'A' as u8, 'P' as u8, 'P' as u8, 'E' as u8, 'D' as u8])
        + name_if(bits & 4 == 4, seq!['I' as u8, 'M' as u8, 'A' as u8, 'G' as u8, 'E' as u8])
        + name_if(bits & 0xf8 != 0, hex_text(bits & 0xf8))
}

/// Appends `name` to the parts where `cond` holds.
fn push_if(parts: &mut Vec<Vec<u8>>, cond: bool, name: Vec<u8>)
    requires
        all_ascii(name@),
        forall|i: int| 0 <= i < old(parts)@.len() ==> all_ascii(#[trigger] old(parts)@[i]@),
    ensures
        final(parts)@.map_values(|v: Vec<u8>| v@) == old(parts)@.map_values(|v: Vec<u8>| v@) + name_if(cond, name@),
        forall|i: int| 0 <= i < final(parts)@.len() ==> all_ascii(#[trigger] final(parts)@[i]@),
{
    let ghost before = parts@.map_values(|v: Vec<u8>| v@);
    if cond {
        parts.push(name);
        assert(parts@.map_values(|v: Vec<u8>| v@) =~= before + seq![name@]);
    } else {
        assert(parts@.map_values(|v: Vec<u8>| v@) =~= before + Seq::<Seq<u8>>::empty());
    }
}

fn hex_byte_text(x: u8) -> (r: Vec<u8>)
    ensures
        r@ == hex_text(x),
        all_ascii(r@),
{
    let mut r = vec!['0' as u8, 'x' as u8];
    let hi = x / 16;
    let lo = x % 16;
    if x >= 16 {
        r.push(if hi < 10 { 48 + hi } else { 87 + hi });
    }
    r.push(if lo < 10 { 48 + lo } else { 87 + lo });
    assert(r@ =~= hex_text(x));
    r
}

fn flags_string(parts: &Vec<Vec<u8>>) -> (r: String)
    requires
        forall|i: int| 0 <= i < parts@.len() ==> all_ascii(#[trigger] parts@[i]@),
    ensures
        r@ == ascii_chars(flags_text(parts@.map_values(|v: Vec<u8>| v@))),
{
    if parts.len() == 0 {
        ascii_string(vec!['(' as u8, 'e' as u8, 'm' as u8, 'p' as u8, 't' as u8, 'y' as u8, ')' as u8])
    } else {
        let sep = vec![' ' as u8, '|' as u8, ' ' as u8];
        join_ascii(parts, sep.as_slice())
    }
}

impl Perms {
    /// The names of the flags set, as `Debug` shows them: `READ | WRITE`, `NONE` for no
    /// flag, unknown bits in hexadecimal.
    pub fn flag_names(&self) -> (r: String)
        ensures
            r@ == ascii_chars(flags_text(perms_parts(self.bits))),
    {
        let b = self.bits;
        let mut parts: Vec<Vec<u8>> = Vec::new();
        push_if(&mut parts, b == 0, vec!['N' as u8, 'O' as u8, 'N' as u8, 'E' as u8]);
        push_if(&mut parts, b & 1 == 1, vec!['R' as u8, 'E' as u8, 'A' as u8, 'D' as u8]);
        push_if(&mut parts, b & 2 == 2, vec!['W' as u8, 'R' as u8, 'I' as u8, 'T' as u8, 'E' as u8]);
        push_if(
            &mut parts,
            b & 4 == 4,
            vec!['E' as u8, 'X' as u8, 'E' as u8, 'C' as u8, 'U' as u8, 'T' as u8, 'E' as u8],
        );
        push_if(&mut parts, b & 8 == 8, vec!['C' as u8, 'O' as u8, 'W' as u8]);
        push_if(&mut parts, b & 16 == 16, vec!['G' as u8, 'U' as u8, 'A' as u8, 'R' as u8, 'D' as u8]);
        push_if(&mut parts, b & 32 == 32, vec!['N' as u8, 'O' as u8, 'P' as u8, 'E' as u8]);
        push_if(&mut parts, b & 0xc0 != 0, hex_byte_text(b & 0xc0));
        assert(parts@.map_values(|v: Vec<u8>| v@) =~= perms_parts(b));
        flags_string(&parts)
    }
}

impl MemType {
    /// The names of the flags set, as `Debug` shows them: `PRIVATE`, `NONE` for no flag,
    /// unknown bits in hexadecimal.
    pub fn flag_names(&self) -> (r: String)
        ensures
            r@ == ascii_chars(flags_text(mem_type_parts(self.bits))),
    {
        let b = self.bits;
        let mut parts: Vec<Vec<u8>> = Vec::new();
        push_if(&mut parts, b == 0, vec!['N' as u8, 'O' as u8, 'N' as u8, 'E' as u8]);
        push_if(
            &mut parts,
            b & 1 == 1,
            vec!['P' as u8, 'R' as u8, 'I' as u8, 'V' as u8, 'A' as u8, 'T' as u8, 'E' as u8],
        );
        push_if(&mut parts, b & 2 == 2, vec!['M' as u8, 'A' as u8, 'P' as u8, 'P' as u8, 'E' as u8, 'D' as u8]);
        push_if(&mut parts, b & 4 == 4, vec!['I' as u8, 'M' as u8, 'A' as u8, 'G' as u8, 'E' as u8]);
        push_if(&mut parts, b & 0xf8 != 0, hex_byte_text(b & 0xf8));
        assert(parts@.map_values(|v: Vec<u8>| v@) =~= mem_type_parts(b));
        flags_string(&parts)
    }
}

impl State {
    /// The state's name, as `Debug` shows it.
    pub fn name(&self) -> (r: String)
        ensures
            r@ == ascii_chars(match self {
                State::FREE => seq!['F' as u8, 'R' as u8, 'E' as u8, 'E' as u8],
                State::COMMITTED => seq![
                    'C' as u8, 'O' as u8, 'M' as u8, 'M' as u8, 'I' as u8, 'T' as u8, 'T' as u8, 'E' as u8, 'D' as u8,
                ],
                State::RESERVED => seq!['R' as u8, 'E' as u8, 'S' as u8, 'E' as u8, 'R' as u8, 'V' as u8, 'E' as u8, 'D' as u8],
            }),
    {
        match self {
            State::FREE => ascii_string(vec!['F' as u8, 'R' as u8, 'E' as u8, 'E' as u8]),
            State::COMMITTED => ascii_string(
                vec!['C' as u8, 'O' as u8, 'M' as u8, 'M' as u8, 'I' as u8, 'T' as u8, 'T' as u8, 'E' as u8, 'D' as u8],
            ),
            State::RESERVED => ascii_string(
                vec!['R' as u8, 'E' as u8, 'S' as u8, 'E' as u8, 'R' as u8, 'V' as u8, 'E' as u8, 'D' as u8],
            ),
        }
    }
}

/// A contiguous region of memory in a process's address space.
#[derive(Copy, Clone, Debug, PartialEq, Eq, Structural)]
pub struct Region {
    /// The base address of the allocation this region belongs to.
    pub base: MemAddress,
    /// The address range covered by this region.
    pub range: AddressRange,
    /// The type of backing storage.
    pub mem_type: MemType,
    /// Whether the region is committed, reserved, or free.
    pub state: State,
    /// Access permissions.
    pub perms: Perms,
}

/// What [`Region::can_merge`] computes: `a`'s range overlaps `b`'s, and the two share
/// type, state and permissions.
pub open spec fn spec_can_merge(a: Region, b: Region) -> bool {
    &&& spec_overlaps(a.range, b.range)
    &&& a.mem_type == b.mem_type
    &&& a.state == b.state
    &&& a.perms == b.perms
}

/// The position at which a stable insertion by range start puts `x` into `s`.
pub open spec fn region_insert_pos(s: Seq<Region>, a: usize) -> nat
    decreases s.len(),
{
    if s.len() == 0 {
        0
    } else if s[0].range.start_addr <= a {
        1 + region_insert_pos(s.drop_first(), a)
    } else {
        0
    }
}

/// The regions of `s` stably sorted by the start of their range.
pub open spec fn sort_regions(s: Seq<Region>) -> Seq<Region>
    decreases s.len(),
{
    if s.len() == 0 {
        s
    } else {
        let sorted = sort_regions(s.drop_last());
        sorted.insert(region_insert_pos(sorted, s.last().range.start_addr) as int, s.last())
    }
}

/// The first region in `out`, at `i` or after, that `r` can merge with.
pub open spec fn first_mergeable(out: Seq<Region>, r: Region, i: nat) -> Option<nat>
    decreases out.len() - i,
{
    if i >= out.len() {
        None
    } else if spec_can_merge(r, out[i as int]) {
        Some(i)
    } else {
        first_mergeable(out, r, i + 1)
    }
}

/// One step of merging: `r`'s range is joined into the first region it can merge with
/// (which keeps its other fields), or `r` is appended.
pub open spec fn region_merge_step(out: Seq<Region>, r: Region) -> Seq<Region> {
    match first_mergeable(out, r, 0) {
        Some(i) => out.update(
            i as int,
            Region {
                range: AddressRange {
                    start_addr: min_addr(r.range.start_addr, out[i as int].range.start_addr),
                    end_addr: max_addr(r.range.end_addr, out[i as int].range.end_addr),
                },
                ..out[i as int]
            },
        ),
        None => out.push(r),
    }
}

/// Merges the regions of `s`, in order.
pub open spec fn region_merge_all(s: Seq<Region>) -> Seq<Region>
    decreases s.len(),
{
    if s.len() == 0 {
        Seq::empty()
    } else {
        region_merge_step(region_merge_all(s.drop_last()), s.last())
    }
}

impl Region {
    /// Returns `true` if this region can be merged with `other`: their ranges overlap
    /// and they share type, state, and permissions.
    pub fn can_merge(&self, other: &Region) -> (r: bool)
        ensures
            r == spec_can_merge(*self, *other),
    {
        self.range.overlaps(other.range) && self.mem_type == other.mem_type && self.state
            == other.state && self.perms == other.perms
    }

    /// Merges blocks that can be merged: sorted by the start of their range (stably),
    /// each block's range is joined into the first kept block it can merge with, or the
    /// block is kept on its own.
    pub fn merge(blocks: &[Region]) -> (r: Vec<Region>)
        requires
            forall|i: int| 0 <= i < blocks@.len() ==> range_wf(#[trigger] blocks@[i].range),
        ensures
            r@ == region_merge_all(sort_regions(blocks@)),
            forall|i: int| 0 <= i < r@.len() ==> range_wf(#[trigger] r@[i].range),
            kinds_apart(r@),
    {
        let sorted = sort_region_slice(blocks);
        proof {
            lemma_sort_regions_keeps(blocks@);
            lemma_region_merge_leaves_nothing_to_merge(blocks@);
        }
        let mut out: Vec<Region> = Vec::new();
        let mut i: usize = 0;
        while i < sorted.len()
            invariant
                i <= sorted@.len(),
                sorted@ == sort_regions(blocks@),
                forall|j: int| 0 <= j < sorted@.len() ==> range_wf(#[trigger] sorted@[j].range),
                forall|j: int| 0 <= j < out@.len() ==> range_wf(#[trigger] out@[j].range),
                out@ == region_merge_all(sorted@.subrange(0, i as int)),
            decreases sorted@.len() - i,
        {
            let next = sorted[i];
            let pos = find_mergeable(&out, &next);
            match pos {
                Some(ind) => {
                    let o = out[ind];
                    let s = if next.range.start_addr <= o.range.start_addr {
                        next.range.start_addr
                    } else {
                        o.range.start_addr
                    };
                    let e = if next.range.end_addr >= o.range.end_addr {
                        next.range.end_addr
                    } else {
                        o.range.end_addr
                    };
                    out.set(
                        ind,
                        Region {
                            range: AddressRange { start_addr: s, end_addr: e },
                            base: o.base,
                            mem_type: o.mem_type,
                            state: o.state,
                            perms: o.perms,
                        },
                    );
                },
                None => {
                    out.push(next);
                },
            }
            assert(sorted@.subrange(0, i + 1).drop_last() == sorted@.subrange(0, i as int));
            i = i + 1;
        }
        assert(sorted@.subrange(0, i as int) == sorted@);
        out
    }
}

fn find_mergeable(out: &Vec<Region>, r: &Region) -> (p: Option<usize>)
    ensures
        match p {
            Some(i) => first_mergeable(out@, *r, 0) == Some(i as nat) && i < out@.len(),
            None => first_mergeable(out@, *r, 0) is None,
        },
{
    let mut i: usize = 0;
    while i < out.len()
        invariant
            i <= out@.len(),
            first_mergeable(out@, *r, 0) == first_mergeable(out@, *r, i as nat),
        decreases out@.len() - i,
    {
        if r.can_merge(&out[i]) {
            return Some(i);
        }
        i = i + 1;
    }
    None
}

fn sort_region_slice(blocks: &[Region]) -> (r: Vec<Region>)
    ensures
        r@ == sort_regions(blocks@),
{
    let mut out: Vec<Region> = Vec::new();
    let mut i: usize = 0;
    while i < blocks.len()
        invariant
            i <= blocks@.len(),
            out@ == sort_regions(blocks@.subrange(0, i as int)),
        decreases blocks@.len() - i,
    {
        let x = blocks[i];
        let mut p: usize = 0;
        assert(out@.subrange(0, out@.len() as int) == out@);
        while p < out.len() && out[p].range.start_addr <= x.range.start_addr
            invariant
                p <= out@.len(),
                region_insert_pos(out@, x.range.start_addr) == p + region_insert_pos(
                    out@.subrange(p as int, out@.len() as int),
                    x.range.start_addr,
                ),
            decreases out@.len() - p,
        {
            assert(out@.subrange(p as int, out@.len() as int).drop_first() == out@.subrange(
                p + 1,
                out@.len() as int,
            ));
            p = p + 1;
        }
        proof {
            if p < out@.len() {
                assert(out@.subrange(p as int, out@.len() as int)[0] == out@[p as int]);
            }
            assert(blocks@.subrange(0, i + 1).drop_last() == blocks@.subrange(0, i as int));
        }
        out.insert(p, x);
        i = i + 1;
    }
    assert(blocks@.subrange(0, i as int) == blocks@);
    out
}

proof fn lemma_sort_regions_keeps(s: Seq<Region>)
    requires
        forall|i: int| 0 <= i < s.len() ==> range_wf(#[trigger] s[i].range),
    ensures
        sort_regions(s).len() == s.len(),
        forall|i: int| 0 <= i < s.len() ==> range_wf(#[trigger] sort_regions(s)[i].range),
    decreases s.len(),
{
    if s.len() > 0 {
        lemma_sort_regions_keeps(s.drop_last());
        lemma_region_insert_pos_bound(sort_regions(s.drop_last()), s.last().range.start_addr);
        let sorted = sort_regions(s.drop_last());
        let p = region_insert_pos(sorted, s.last().range.start_addr) as int;
        assert forall|i: int| 0 <= i < s.len() implies range_wf(#[trigger] sort_regions(s)[i].range) by {
            if i < p {
                assert(sort_regions(s)[i] == sorted[i]);
            } else if i > p {
                assert(sort_regions(s)[i] == sorted[i - 1]);
            }
        }
    }
}

proof fn lemma_region_insert_pos_bound(s: Seq<Region>, a: usize)
    ensures
        region_insert_pos(s, a) <= s.len(),
    decreases s.len(),
{
    if s.len() > 0 {
        lemma_region_insert_pos_bound(s.drop_first(), a);
    }
}

/// Whether a region of `s` with the given type, state and permissions holds `a`.
pub open spec fn region_covers(s: Seq<Region>, a: int, t: MemType, st: State, p: Perms) -> bool {
    exists|i: int|
        0 <= i < s.len() && #[trigger] range_has(s[i].range, a) && s[i].mem_type == t && s[i].state == st
            && s[i].perms == p
}

proof fn lemma_sort_regions_covers(s: Seq<Region>, a: int, t: MemType, st: State, p: Perms)
    ensures
        sort_regions(s).len() == s.len(),
        region_covers(sort_regions(s), a, t, st, p) == region_covers(s, a, t, st, p),
    decreases s.len(),
{
    if s.len() > 0 {
        let x = s.drop_last();
        lemma_sort_regions_covers(x, a, t, st, p);
        let sorted = sort_regions(x);
        lemma_region_insert_pos_bound(sorted, s.last().range.start_addr);
        let q = region_insert_pos(sorted, s.last().range.start_addr) as int;
        let u = sort_regions(s);
        assert(u == sorted.insert(q, s.last()));
        if region_covers(u, a, t, st, p) {
            let i = choose|i: int|
                0 <= i < u.len() && #[trigger] range_has(u[i].range, a) && u[i].mem_type == t && u[i].state == st
                    && u[i].perms == p;
            if i < q {
                assert(u[i] == sorted[i]);
                assert(range_has(sorted[i].range, a));
            } else if i > q {
                assert(u[i] == sorted[i - 1]);
                assert(range_has(sorted[i - 1].range, a));
            } else {
                assert(range_has(s[s.len() - 1].range, a));
            }
        }
        if region_covers(s, a, t, st, p) {
            let i = choose|i: int|
                0 <= i < s.len() && #[trigger] range_has(s[i].range, a) && s[i].mem_type == t && s[i].state == st
                    && s[i].perms == p;
            if i == s.len() - 1 {
                assert(u[q] == s.last());
                assert(range_has(u[q].range, a));
            } else {
                assert(x[i] == s[i]);
                assert(range_has(x[i].range, a));
                assert(region_covers(sorted, a, t, st, p));
                let j = choose|j: int|
                    0 <= j < sorted.len() && #[trigger] range_has(sorted[j].range, a) && sorted[j].mem_type == t
                        && sorted[j].state == st && sorted[j].perms == p;
                if j < q {
                    assert(u[j] == sorted[j]);
                    assert(range_has(u[j].range, a));
                } else {
                    assert(u[j + 1] == sorted[j]);
                    assert(range_has(u[j + 1].range, a));
                }
            }
        }
    }
}

proof fn lemma_first_mergeable(out: Seq<Region>, r: Region, j: nat)
    ensures
        first_mergeable(out, r, j) matches Some(i) ==> j <= i < out.len() && spec_can_merge(r, out[i as int]),
        first_mergeable(out, r, j) is None ==> forall|k: int| j <= k < out.len() ==> !spec_can_merge(r, #[trigger] out[k]),
    decreases out.len() - j,
{
    if j < out.len() && !spec_can_merge(r, out[j as int]) {
        lemma_first_mergeable(out, r, j + 1);
    }
}

proof fn lemma_region_step_covers(out: Seq<Region>, r: Region, a: int, t: MemType, st: State, p: Perms)
    requires
        forall|i: int| 0 <= i < out.len() ==> range_wf(#[trigger] out[i].range),
        range_wf(r.range),
    ensures
        forall|i: int| 0 <= i < region_merge_step(out, r).len() ==> range_wf(#[trigger] region_merge_step(out, r)[i].range),
        region_covers(region_merge_step(out, r), a, t, st, p) == (region_covers(out, a, t, st, p) || (range_has(
            r.range,
            a,
        ) && r.mem_type == t && r.state == st && r.perms == p)),
{
    lemma_first_mergeable(out, r, 0);
    let m = region_merge_step(out, r);
    let here = range_has(r.range, a) && r.mem_type == t && r.state == st && r.perms == p;
    match first_mergeable(out, r, 0) {
        Some(k) => {
            let k = k as int;
            let o = out[k];
            let n = Region {
                range: AddressRange {
                    start_addr: min_addr(r.range.start_addr, o.range.start_addr),
                    end_addr: max_addr(r.range.end_addr, o.range.end_addr),
                },
                ..o
            };
            assert(m == out.update(k, n));
            assert(range_has(n.range, a) == (range_has(o.range, a) || range_has(r.range, a)));
            if region_covers(m, a, t, st, p) {
                let i = choose|i: int|
                    0 <= i < m.len() && #[trigger] range_has(m[i].range, a) && m[i].mem_type == t && m[i].state == st
                        && m[i].perms == p;
                if i != k {
                    assert(m[i] == out[i]);
                    assert(range_has(out[i].range, a));
                } else if !range_has(o.range, a) {
                    assert(range_has(r.range, a));
                } else {
                    assert(range_has(out[k].range, a));
                }
            }
            if region_covers(out, a, t, st, p) {
                let i = choose|i: int|
                    0 <= i < out.len() && #[trigger] range_has(out[i].range, a) && out[i].mem_type == t
                        && out[i].state == st && out[i].perms == p;
                if i != k {
                    assert(m[i] == out[i]);
                    assert(range_has(m[i].range, a));
                } else {
                    assert(m[k] == n);
                    assert(range_has(m[k].range, a));
                }
            }
            if here {
                assert(m[k] == n);
                assert(range_has(m[k].range, a));
            }
        },
        None => {
            assert(m == out.push(r));
            if region_covers(m, a, t, st, p) {
                let i = choose|i: int|
                    0 <= i < m.len() && #[trigger] range_has(m[i].range, a) && m[i].mem_type == t && m[i].state == st
                        && m[i].perms == p;
                if i < out.len() {
                    assert(m[i] == out[i]);
                    assert(range_has(out[i].range, a));
                }
            }
            if region_covers(out, a, t, st, p) {
                let i = choose|i: int|
                    0 <= i < out.len() && #[trigger] range_has(out[i].range, a) && out[i].mem_type == t
                        && out[i].state == st && out[i].perms == p;
                assert(m[i] == out[i]);
                assert(range_has(m[i].range, a));
            }
            if here {
                assert(m[out.len() as int] == r);
                assert(range_has(m[out.len() as int].range, a));
            }
        },
    }
}

proof fn lemma_region_merge_all_covers(s: Seq<Region>, a: int, t: MemType, st: State, p: Perms)
    requires
        forall|i: int| 0 <= i < s.len() ==> range_wf(#[trigger] s[i].range),
    ensures
        forall|i: int| 0 <= i < region_merge_all(s).len() ==> range_wf(#[trigger] region_merge_all(s)[i].range),
        region_covers(region_merge_all(s), a, t, st, p) == region_covers(s, a, t, st, p),
    decreases s.len(),
{
    if s.len() > 0 {
        let x = s.drop_last();
        assert forall|i: int| 0 <= i < x.len() implies range_wf(#[trigger] x[i].range) by {
            assert(x[i] == s[i]);
        }
        lemma_region_merge_all_covers(x, a, t, st, p);
        assert(range_wf(s[s.len() - 1].range));
        lemma_region_step_covers(region_merge_all(x), s.last(), a, t, st, p);
        if region_covers(s, a, t, st, p) {
            let i = choose|i: int|
                0 <= i < s.len() && #[trigger] range_has(s[i].range, a) && s[i].mem_type == t && s[i].state == st
                    && s[i].perms == p;
            if i < s.len() - 1 {
                assert(x[i] == s[i]);
                assert(range_has(x[i].range, a));
            }
        }
        if region_covers(x, a, t, st, p) {
            let i = choose|i: int|
                0 <= i < x.len() && #[trigger] range_has(x[i].range, a) && x[i].mem_type == t && x[i].state == st
                    && x[i].perms == p;
            assert(s[i] == x[i]);
            assert(range_has(s[i].range, a));
        }
        if range_has(s.last().range, a) {
            assert(s[s.len() - 1] == s.last());
            assert(range_has(s[s.len() - 1].range, a));
        }
    }
}

/// Merging regions keeps exactly the addresses each kind of region holds: an address
/// lies in a merged region of a given type, state and permissions if and only if it lies
/// in one of the regions merged with that type, state and permissions.
pub proof fn lemma_region_merge_keeps_coverage(blocks: Seq<Region>, a: int, t: MemType, st: State, p: Perms)
    requires
        forall|i: int| 0 <= i < blocks.len() ==> range_wf(#[trigger] blocks[i].range),
    ensures
        region_covers(region_merge_all(sort_regions(blocks)), a, t, st, p) == region_covers(blocks, a, t, st, p),
{
    lemma_sort_regions_keeps(blocks);
    lemma_sort_regions_covers(blocks, a, t, st, p);
    lemma_region_merge_all_covers(sort_regions(blocks), a, t, st, p);
}

/// The two regions have the same type, state and permissions.
pub open spec fn same_kind(a: Region, b: Region) -> bool {
    a.mem_type == b.mem_type && a.state == b.state && a.perms == b.perms
}

/// The regions are in order of the start of their range.
pub open spec fn region_starts_sorted(s: Seq<Region>) -> bool {
    forall|i: int, j: int| 0 <= i <= j < s.len() ==> (#[trigger] s[i]).range.start_addr <= (#[trigger] s[j]).range.start_addr
}

/// Of two regions of the same kind, the earlier one ends before the later one starts.
pub open spec fn kinds_apart(s: Seq<Region>) -> bool {
    forall|i: int, j: int| 0 <= i < j < s.len() && same_kind(#[trigger] s[i], #[trigger] s[j])
        ==> s[i].range.end_addr < s[j].range.start_addr
}

proof fn lemma_region_insert_pos_sorted(s: Seq<Region>, a: usize)
    requires
        region_starts_sorted(s),
    ensures
        region_insert_pos(s, a) <= s.len(),
        forall|k: int| 0 <= k < region_insert_pos(s, a) ==> (#[trigger] s[k]).range.start_addr <= a,
        forall|k: int| region_insert_pos(s, a) <= k < s.len() ==> (#[trigger] s[k]).range.start_addr > a,
    decreases s.len(),
{
    if s.len() > 0 {
        let t = s.drop_first();
        if s[0].range.start_addr <= a {
            assert(region_starts_sorted(t)) by {
                assert forall|i: int, j: int| 0 <= i <= j < t.len() implies (#[trigger] t[i]).range.start_addr <= (#[trigger] t[j]).range.start_addr by {
                    assert(t[i] == s[i + 1] && t[j] == s[j + 1]);
                }
            }
            lemma_region_insert_pos_sorted(t, a);
            assert forall|k: int| 0 <= k < region_insert_pos(s, a) implies (#[trigger] s[k]).range.start_addr <= a by {
                if k > 0 {
                    assert(s[k] == t[k - 1]);
                }
            }
            assert forall|k: int| region_insert_pos(s, a) <= k < s.len() implies (#[trigger] s[k]).range.start_addr > a by {
                assert(s[k] == t[k - 1]);
            }
        } else {
            assert forall|k: int| 0 <= k < s.len() implies (#[trigger] s[k]).range.start_addr > a by {
                assert(s[0].range.start_addr <= s[k].range.start_addr);
            }
        }
    }
}

proof fn lemma_sort_regions_sorted(s: Seq<Region>)
    ensures
        region_starts_sorted(sort_regions(s)),
        sort_regions(s).len() == s.len(),
    decreases s.len(),
{
    if s.len() > 0 {
        let t = sort_regions(s.drop_last());
        lemma_sort_regions_sorted(s.drop_last());
        let x = s.last();
        lemma_region_insert_pos_sorted(t, x.range.start_addr);
        let p = region_insert_pos(t, x.range.start_addr) as int;
        let u = t.insert(p, x);
        assert forall|i: int, j: int| 0 <= i <= j < u.len() implies (#[trigger] u[i]).range.start_addr <= (#[trigger] u[j]).range.start_addr by {
            if j < p {
                assert(u[i] == t[i] && u[j] == t[j]);
            } else if j == p {
                if i < p {
                    assert(u[i] == t[i]);
                }
            } else if i > p {
                assert(u[i] == t[i - 1] && u[j] == t[j - 1]);
            } else if i == p {
                assert(u[j] == t[j - 1]);
            } else {
                assert(u[i] == t[i] && u[j] == t[j - 1]);
            }
        }
    }
}

proof fn lemma_region_merge_all_apart(s: Seq<Region>)
    requires
        region_starts_sorted(s),
        forall|i: int| 0 <= i < s.len() ==> range_wf(#[trigger] s[i].range),
    ensures
        kinds_apart(region_merge_all(s)),
        region_starts_sorted(region_merge_all(s)),
        forall|k: int| 0 <= k < region_merge_all(s).len() ==> range_wf(#[trigger] region_merge_all(s)[k].range),
        forall|k: int| 0 <= k < region_merge_all(s).len() ==> (#[trigger] region_merge_all(s)[k]).range.start_addr
            <= s.last().range.start_addr,
    decreases s.len(),
{
    if s.len() > 0 {
        let t = s.drop_last();
        assert(region_starts_sorted(t)) by {
            assert forall|i: int, j: int| 0 <= i <= j < t.len() implies (#[trigger] t[i]).range.start_addr <= (#[trigger] t[j]).range.start_addr by {
                assert(t[i] == s[i] && t[j] == s[j]);
            }
        }
        assert forall|i: int| 0 <= i < t.len() implies range_wf(#[trigger] t[i].range) by {
            assert(t[i] == s[i]);
        }
        lemma_region_merge_all_apart(t);
        let out = region_merge_all(t);
        let r = s.last();
        assert(range_wf(s[s.len() - 1].range));
        let n = out.len() as int;
        assert forall|k: int| 0 <= k < n implies (#[trigger] out[k]).range.start_addr <= r.range.start_addr by {
            assert(t.last() == s[s.len() - 2]);
            assert(s[s.len() - 2].range.start_addr <= s[s.len() - 1].range.start_addr);
        }
        lemma_first_mergeable(out, r, 0);
        let m = region_merge_step(out, r);
        match first_mergeable(out, r, 0) {
            Some(i) => {
                let i = i as int;
                assert forall|j: int| i < j < n && same_kind(out[i], #[trigger] out[j]) implies false by {
                    assert(out[i].range.end_addr < out[j].range.start_addr);
                }
                assert forall|a: int, b: int| 0 <= a < b < m.len() && same_kind(#[trigger] m[a], #[trigger] m[b])
                    implies m[a].range.end_addr < m[b].range.start_addr by {
                    if a != i && b != i {
                        assert(m[a] == out[a] && m[b] == out[b]);
                    } else if b == i {
                        assert(m[a] == out[a]);
                        assert(same_kind(out[a], out[i]));
                    } else {
                        assert(m[b] == out[b]);
                        assert(same_kind(out[i], out[b]));
                    }
                }
                assert forall|k: int| 0 <= k < m.len() implies range_wf(#[trigger] m[k].range) && m[k].range.start_addr
                    <= r.range.start_addr && m[k].range.start_addr == out[k].range.start_addr by {
                    if k != i {
                        assert(m[k] == out[k]);
                    }
                }
                assert forall|a: int, b: int| 0 <= a <= b < m.len() implies (#[trigger] m[a]).range.start_addr
                    <= (#[trigger] m[b]).range.start_addr by {
                    assert(out[a].range.start_addr <= out[b].range.start_addr);
                }
            },
            None => {
                assert forall|a: int, b: int| 0 <= a < b < m.len() && same_kind(#[trigger] m[a], #[trigger] m[b])
                    implies m[a].range.end_addr < m[b].range.start_addr by {
                    assert(m[a] == out[a]);
                    if b < n {
                        assert(m[b] == out[b]);
                    } else {
                        assert(m[b] == r);
                        assert(!spec_can_merge(r, out[a]));
                    }
                }
                assert forall|k: int| 0 <= k < m.len() implies range_wf(#[trigger] m[k].range) && m[k].range.start_addr
                    <= r.range.start_addr by {
                    if k < n {
                        assert(m[k] == out[k]);
                    }
                }
                assert forall|a: int, b: int| 0 <= a <= b < m.len() implies (#[trigger] m[a]).range.start_addr
                    <= (#[trigger] m[b]).range.start_addr by {
                    if b < n {
                        assert(m[a] == out[a] && m[b] == out[b]);
                    } else if a < n {
                        assert(m[a] == out[a]);
                    }
                }
            },
        }
    }
}

/// After merging, no two regions can be merged: of two regions with the same type,
/// state and permissions, the one that starts first ends before the other starts.
pub proof fn lemma_region_merge_leaves_nothing_to_merge(blocks: Seq<Region>)
    requires
        forall|i: int| 0 <= i < blocks.len() ==> range_wf(#[trigger] blocks[i].range),
    ensures
        kinds_apart(region_merge_all(sort_regions(blocks))),
        forall|i: int, j: int|
            0 <= i < region_merge_all(sort_regions(blocks)).len() && 0 <= j < region_merge_all(sort_regions(blocks)).len()
                && i != j ==> !spec_can_merge(
                #[trigger] region_merge_all(sort_regions(blocks))[i],
                #[trigger] region_merge_all(sort_regions(blocks))[j],
            ),
{
    lemma_sort_regions_keeps(blocks);
    lemma_sort_regions_sorted(blocks);
    let m = region_merge_all(sort_regions(blocks));
    lemma_region_merge_all_apart(sort_regions(blocks));
    assert forall|i: int, j: int| 0 <= i < m.len() && 0 <= j < m.len() && i != j implies !spec_can_merge(#[trigger] m[i], #[trigger] m[j]) by {
        if spec_can_merge(m[i], m[j]) {
            if i < j {
                assert(same_kind(m[i], m[j]));
                assert(m[i].range.end_addr < m[j].range.start_addr);
            } else {
                assert(same_kind(m[j], m[i]));
                assert(m[j].range.end_addr < m[i].range.start_addr);
                assert(range_wf(m[i].range));
            }
        }
    }
}

proof fn lemma_sort_sorted_regions_same(s: Seq<Region>)
    requires
        region_starts_sorted(s),
    ensures
        sort_regions(s) == s,
    decreases s.len(),
{
    if s.len() > 0 {
        let t = s.drop_last();
        assert(region_starts_sorted(t)) by {
            assert forall|i: int, j: int| 0 <= i <= j < t.len() implies (#[trigger] t[i]).range.start_addr <= (#[trigger] t[j]).range.start_addr by {
                assert(t[i] == s[i] && t[j] == s[j]);
            }
        }
        lemma_sort_sorted_regions_same(t);
        lemma_region_insert_pos_sorted(t, s.last().range.start_addr);
        let p = region_insert_pos(t, s.last().range.start_addr);
        if p < t.len() {
            assert(t[p as int] == s[p as int]);
            assert(s[p as int].range.start_addr <= s[s.len() - 1].range.start_addr);
        }
        assert(p == t.len());
        assert(t.insert(t.len() as int, s.last()) =~= s);
    }
}

proof fn lemma_merge_apart_same(s: Seq<Region>)
    requires
        region_starts_sorted(s),
        kinds_apart(s),
        forall|i: int| 0 <= i < s.len() ==> range_wf(#[trigger] s[i].range),
    ensures
        region_merge_all(s) == s,
    decreases s.len(),
{
    if s.len() > 0 {
        let t = s.drop_last();
        assert(region_starts_sorted(t)) by {
            assert forall|i: int, j: int| 0 <= i <= j < t.len() implies (#[trigger] t[i]).range.start_addr <= (#[trigger] t[j]).range.start_addr by {
                assert(t[i] == s[i] && t[j] == s[j]);
            }
        }
        assert(kinds_apart(t)) by {
            assert forall|i: int, j: int| 0 <= i < j < t.len() && same_kind(#[trigger] t[i], #[trigger] t[j])
                implies t[i].range.end_addr < t[j].range.start_addr by {
                assert(t[i] == s[i] && t[j] == s[j]);
            }
        }
        assert forall|i: int| 0 <= i < t.len() implies range_wf(#[trigger] t[i].range) by {
            assert(t[i] == s[i]);
        }
        lemma_merge_apart_same(t);
        let r = s.last();
        assert forall|k: int| 0 <= k < t.len() implies !spec_can_merge(r, #[trigger] t[k]) by {
            assert(t[k] == s[k]);
            if same_kind(s[k], s[s.len() - 1]) {
                assert(s[k].range.end_addr < s[s.len() - 1].range.start_addr);
            }
        }
        lemma_first_mergeable(t, r, 0);
        if first_mergeable(t, r, 0) is Some {
            let i = first_mergeable(t, r, 0).unwrap();
            assert(spec_can_merge(r, t[i as int]));
        }
        assert(t.push(r) =~= s);
    }
}

/// Merging is idempotent: merging regions that were merged already leaves them as they
/// are.
pub proof fn lemma_region_merge_idempotent(blocks: Seq<Region>)
    requires
        forall|i: int| 0 <= i < blocks.len() ==> range_wf(#[trigger] blocks[i].range),
    ensures
        region_merge_all(sort_regions(region_merge_all(sort_regions(blocks)))) == region_merge_all(sort_regions(blocks)),
{
    lemma_sort_regions_keeps(blocks);
    lemma_sort_regions_sorted(blocks);
    let m = region_merge_all(sort_regions(blocks));
    lemma_region_merge_all_apart(sort_regions(blocks));
    lemma_sort_sorted_regions_same(m);
    lemma_merge_apart_same(m);
}

} // verus!
