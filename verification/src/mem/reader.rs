//! Address ranges in another process's memory, and the traits of objects that read and
//! write that memory.

use vstd::prelude::*;

use crate::error::{MemError, WinMemError};
use crate::util::{fill_bytes, read_usize_le};

verus! {

/// Pointer-width process address.
pub type MemAddress = usize;

/// Represents a block of addresses in another process's memory.
#[derive(Copy, Clone, Debug, PartialEq, Eq, Structural)]
pub struct AddressRange {
    /// The address at which the range starts (inclusive).
    pub start_addr: MemAddress,
    /// The address at which the range ends.
    pub end_addr: MemAddress,
}

/// The range starts no later than it ends.
pub open spec fn range_wf(r: AddressRange) -> bool {
    r.start_addr <= r.end_addr
}

/// Whether `a` comes before `b` in the order of ranges, which compares their starts.
pub open spec fn range_lt(a: AddressRange, b: AddressRange) -> bool {
    a.start_addr < b.start_addr
}

/// Whether `r` contains the address `a` (both ends inclusive).
pub open spec fn range_has(r: AddressRange, a: int) -> bool {
    r.start_addr <= a <= r.end_addr
}

/// The text of a range: `[`, its start, ` - `, its end and `]`, both ends in at least
/// eight hexadecimal digits.
pub open spec fn range_text(r: AddressRange) -> Seq<u8> {
    seq![91u8] + crate::pattern_scan::text::padded_hex(r.start_addr as nat, 8) + seq![32u8, 45u8, 32u8]
        + crate::pattern_scan::text::padded_hex(r.end_addr as nat, 8) + seq![93u8]
}

/// Whether two ranges share an address, both ends included.
pub open spec fn spec_overlaps(a: AddressRange, b: AddressRange) -> bool {
    a.start_addr <= b.end_addr && b.start_addr <= a.end_addr
}

/// The smallest of two addresses.
pub open spec fn min_addr(a: usize, b: usize) -> usize {
    if a <= b {
        a
    } else {
        b
    }
}

/// The largest of two addresses.
pub open spec fn max_addr(a: usize, b: usize) -> usize {
    if a >= b {
        a
    } else {
        b
    }
}

/// The `k`-th chunk of `r` cut into pieces of `size` bytes.
pub open spec fn spec_chunk(r: AddressRange, size: nat, k: nat) -> AddressRange {
    AddressRange {
        start_addr: (r.start_addr + k * size) as usize,
        end_addr: min_addr((r.start_addr + k * size + size) as usize, r.end_addr),
    }
}

/// How many chunks [`AddressRange::chunk_by`] cuts `r` into: one at every multiple of
/// `size` from the start up to and including the end.
pub open spec fn chunk_count(r: AddressRange, size: nat) -> nat {
    ((r.end_addr - r.start_addr) as nat / size + 1) as nat
}

/// The position at which a stable insertion puts a range starting at `a` into the
/// sorted sequence `s`: after every range that starts no later than `a`.
pub open spec fn insert_pos(s: Seq<AddressRange>, a: usize) -> nat
    decreases s.len(),
{
    if s.len() == 0 {
        0
    } else if s[0].start_addr <= a {
        1 + insert_pos(s.drop_first(), a)
    } else {
        0
    }
}

/// The ranges of `s` in order of their start, ranges with equal starts keeping their
/// order in `s` (a stable sort).
pub open spec fn sort_by_start(s: Seq<AddressRange>) -> Seq<AddressRange>
    decreases s.len(),
{
    if s.len() == 0 {
        s
    } else {
        let sorted = sort_by_start(s.drop_last());
        sorted.insert(insert_pos(sorted, s.last().start_addr) as int, s.last())
    }
}

/// The first range in `out`, at `i` or after, that `r` overlaps.
pub open spec fn first_overlap(out: Seq<AddressRange>, r: AddressRange, i: nat) -> Option<nat>
    decreases out.len() - i,
{
    if i >= out.len() {
        None
    } else if spec_overlaps(r, out[i as int]) {
        Some(i)
    } else {
        first_overlap(out, r, i + 1)
    }
}

/// One step of merging: `r` is merged into the first range it overlaps, or appended.
pub open spec fn merge_step(out: Seq<AddressRange>, r: AddressRange) -> Seq<AddressRange> {
    match first_overlap(out, r, 0) {
        Some(i) => out.update(
            i as int,
            AddressRange {
                start_addr: min_addr(r.start_addr, out[i as int].start_addr),
                end_addr: max_addr(r.end_addr, out[i as int].end_addr),
            },
        ),
        None => out.push(r),
    }
}

/// Merges the ranges of `s`, in order.
pub open spec fn merge_all(s: Seq<AddressRange>) -> Seq<AddressRange>
    decreases s.len(),
{
    if s.len() == 0 {
        Seq::empty()
    } else {
        merge_step(merge_all(s.drop_last()), s.last())
    }
}

impl AddressRange {
    /// Creates an [`AddressRange`] with the given start and end; the start must lie
    /// below the end.
    pub fn new(start_addr: MemAddress, end_addr: MemAddress) -> (r: AddressRange)
        requires
            start_addr < end_addr,
        ensures
            r.start_addr == start_addr,
            r.end_addr == end_addr,
    {
        AddressRange { start_addr, end_addr }
    }

    /// Describes the range as text, as in `[00001000 - 00002000]`: both ends in at least
    /// eight hexadecimal digits.
    pub fn describe(&self) -> (r: String)
        ensures
            r@ == crate::util::ascii_chars(range_text(*self)),
    {
        crate::util::ascii_string(self.describe_bytes())
    }

    /// The text of the range, as ASCII bytes.
    pub fn describe_bytes(&self) -> (r: Vec<u8>)
        ensures
            r@ == range_text(*self),
            crate::util::all_ascii(r@),
    {
        let open: Vec<u8> = vec![91u8];
        let lo = crate::pattern_scan::text::hex_padded(self.start_addr, 8);
        let dash: Vec<u8> = vec![32u8, 45u8, 32u8];
        let hi = crate::pattern_scan::text::hex_padded(self.end_addr, 8);
        let close: Vec<u8> = vec![93u8];
        let ghost (ov, dv, cv) = (open@, dash@, close@);
        let r = crate::util::concat_vecs(
            crate::util::concat_vecs(crate::util::concat_vecs(crate::util::concat_vecs(open, lo), dash), hi),
            close,
        );
        proof {
            assert(r@ =~= range_text(*self));
            assert forall|k: int| 0 <= k < r@.len() implies #[trigger] r@[k] < 128 by {
                let l = crate::pattern_scan::text::padded_hex(self.start_addr as nat, 8);
                let h = crate::pattern_scan::text::padded_hex(self.end_addr as nat, 8);
                let a = 1 + l.len();
                let b = a + 3;
                let c = b + h.len();
                if k == 0 {
                } else if k < a {
                    assert(r@[k] == l[k - 1]);
                } else if k < b {
                } else if k < c {
                    assert(r@[k] == h[k - b]);
                }
            }
        }
        r
    }

    /// Whether this range comes before `other` in the order of ranges, which compares
    /// their starts.
    pub fn precedes(&self, other: &AddressRange) -> (r: bool)
        ensures
            r == range_lt(*self, *other),
    {
        self.start_addr < other.start_addr
    }

    /// Returns the size of the address range.
    pub fn size(&self) -> (r: MemAddress)
        requires
            range_wf(*self),
        ensures
            r == self.end_addr - self.start_addr,
    {
        self.end_addr - self.start_addr
    }

    /// Returns true if the range contains the given range.
    pub fn contains_range(&self, other: AddressRange) -> (r: bool)
        ensures
            r == (self.start_addr <= other.start_addr && self.end_addr >= other.end_addr),
    {
        self.start_addr <= other.start_addr && self.end_addr >= other.end_addr
    }

    /// Returns true if the range contains the given address (both ends inclusive).
    pub fn contains_addr(&self, addr: MemAddress) -> (r: bool)
        ensures
            r == range_has(*self, addr as int),
    {
        self.start_addr <= addr && self.end_addr >= addr
    }

    /// Returns whether the two ranges overlap (inclusive): they share an address, ends
    /// included. The relation is symmetric.
    pub fn overlaps(&self, other: AddressRange) -> (r: bool)
        ensures
            r == spec_overlaps(*self, other),
            r == spec_overlaps(other, *self),
    {
        self.start_addr <= other.end_addr && other.start_addr <= self.end_addr
    }

    /// Returns the subranges that start at every multiple of `size` from the start up to
    /// the end, each covering at most `size` bytes, in order.
    pub fn chunk_by(&self, size: MemAddress) -> (r: Vec<AddressRange>)
        requires
            size != 0,
            range_wf(*self),
            self.start_addr + ((self.end_addr - self.start_addr) as nat / (size as nat)) * size
                + size <= usize::MAX,
        ensures
            r@ == Seq::new(chunk_count(*self, size as nat), |k: int| spec_chunk(*self, size as nat, k as nat)),
    {
        let n = (self.end_addr - self.start_addr) / size;
        proof {
            assert(n * size <= self.end_addr - self.start_addr) by (nonlinear_arith)
                requires
                    n == (self.end_addr - self.start_addr) / (size as int),
                    size > 0,
                    self.end_addr >= self.start_addr,
            ;
            assert(n * size + size == (n + 1) * size) by (nonlinear_arith);
            assert(n + 1 <= (n + 1) * size) by (nonlinear_arith)
                requires
                    size >= 1,
            ;
        }
        let count = n + 1;
        let mut out: Vec<AddressRange> = Vec::new();
        let mut k: usize = 0;
        let mut addr = self.start_addr;
        while k < count
            invariant
                size != 0,
                range_wf(*self),
                n == (self.end_addr - self.start_addr) as nat / (size as nat),
                count == n + 1,
                n * size <= self.end_addr - self.start_addr,
                self.start_addr + n * size + size <= usize::MAX,
                k <= count,
                addr == self.start_addr + k * size,
                out@ == Seq::new(k as nat, |j: int| spec_chunk(*self, size as nat, j as nat)),
            decreases count - k,
        {
            assert(k * size <= n * size) by (nonlinear_arith)
                requires
                    k <= n,
            ;
            assert((k + 1) * size == k * size + size) by (nonlinear_arith);
            let end = if addr + size <= self.end_addr {
                addr + size
            } else {
                self.end_addr
            };
            out.push(AddressRange { start_addr: addr, end_addr: end });
            assert(out@ =~= Seq::new((k + 1) as nat, |j: int| spec_chunk(*self, size as nat, j as nat)));
            addr = addr + size;
            k = k + 1;
        }
        out
    }

    /// Returns the ranges merged: sorted by their start (stably), each range is merged
    /// into the first range it overlaps among those kept so far, or kept on its own.
    pub fn merge(ranges: &Vec<AddressRange>) -> (r: Vec<AddressRange>)
        requires
            forall|i: int| 0 <= i < ranges@.len() ==> range_wf(#[trigger] ranges@[i]),
        ensures
            r@ == merge_all(sort_by_start(ranges@)),
            separated(r@),
    {
        let sorted = sort_ranges(ranges);
        proof {
            lemma_sort_keeps(ranges@);
            lemma_merge_separates(ranges@);
        }
        let mut out: Vec<AddressRange> = Vec::new();
        let mut i: usize = 0;
        while i < sorted.len()
            invariant
                i <= sorted@.len(),
                sorted@ == sort_by_start(ranges@),
                forall|j: int| 0 <= j < sorted@.len() ==> range_wf(#[trigger] sorted@[j]),
                forall|j: int| 0 <= j < out@.len() ==> range_wf(#[trigger] out@[j]),
                out@ == merge_all(sorted@.subrange(0, i as int)),
            decreases sorted@.len() - i,
        {
            let next = sorted[i];
            let pos = find_overlap(&out, next);
            match pos {
                Some(ind) => {
                    let o = out[ind];
                    let s = if next.start_addr <= o.start_addr {
                        next.start_addr
                    } else {
                        o.start_addr
                    };
                    let e = if next.end_addr >= o.end_addr {
                        next.end_addr
                    } else {
                        o.end_addr
                    };
                    out.set(ind, AddressRange { start_addr: s, end_addr: e });
                },
                None => {
                    out.push(next);
                },
            }
            assert(sorted@.subrange(0, i + 1).drop_last() == sorted@.subrange(0, i as int));
            i = i + 1;
        }
        assert(sorted@.subrange(0, i as int) == sorted@);
        out
    }
}

/// Finds the first range of `out` that `r` overlaps.
fn find_overlap(out: &Vec<AddressRange>, r: AddressRange) -> (p: Option<usize>)
    ensures
        match p {
            Some(i) => first_overlap(out@, r, 0) == Some(i as nat) && i < out@.len(),
            None => first_overlap(out@, r, 0) is None,
        },
{
    let mut i: usize = 0;
    while i < out.len()
        invariant
            i <= out@.len(),
            first_overlap(out@, r, 0) == first_overlap(out@, r, i as nat),
        decreases out@.len() - i,
    {
        if r.overlaps(out[i]) {
            return Some(i);
        }
        i = i + 1;
    }
    None
}

/// Sorts ranges by their start, stably, by insertion.
fn sort_ranges(ranges: &Vec<AddressRange>) -> (r: Vec<AddressRange>)
    ensures
        r@ == sort_by_start(ranges@),
{
    let mut out: Vec<AddressRange> = Vec::new();
    let mut i: usize = 0;
    while i < ranges.len()
        invariant
            i <= ranges@.len(),
            out@ == sort_by_start(ranges@.subrange(0, i as int)),
        decreases ranges@.len() - i,
    {
        let x = ranges[i];
        let mut p: usize = 0;
        assert(out@.subrange(0, out@.len() as int) == out@);
        while p < out.len() && out[p].start_addr <= x.start_addr
            invariant
                p <= out@.len(),
                insert_pos(out@, x.start_addr) == p + insert_pos(out@.subrange(p as int, out@.len() as int), x.start_addr),
            decreases out@.len() - p,
        {
            assert(out@.subrange(p as int, out@.len() as int).drop_first() == out@.subrange(p + 1, out@.len() as int));
            p = p + 1;
        }
        proof {
            if p < out@.len() {
                assert(out@.subrange(p as int, out@.len() as int)[0] == out@[p as int]);
            }
            assert(insert_pos(out@, x.start_addr) == p);
            assert(ranges@.subrange(0, i + 1).drop_last() == ranges@.subrange(0, i as int));
        }
        out.insert(p, x);
        i = i + 1;
    }
    assert(ranges@.subrange(0, i as int) == ranges@);
    out
}

/// Sorting keeps every range, so well-formedness carries over.
proof fn lemma_sort_keeps(s: Seq<AddressRange>)
    requires
        forall|i: int| 0 <= i < s.len() ==> range_wf(#[trigger] s[i]),
    ensures
        sort_by_start(s).len() == s.len(),
        forall|i: int| 0 <= i < s.len() ==> range_wf(#[trigger] sort_by_start(s)[i]),
    decreases s.len(),
{
    if s.len() > 0 {
        lemma_sort_keeps(s.drop_last());
        lemma_insert_pos_bound(sort_by_start(s.drop_last()), s.last().start_addr);
        let sorted = sort_by_start(s.drop_last());
        let p = insert_pos(sorted, s.last().start_addr) as int;
        assert forall|i: int| 0 <= i < s.len() implies range_wf(#[trigger] sort_by_start(s)[i]) by {
            if i < p {
                assert(sort_by_start(s)[i] == sorted[i]);
            } else if i > p {
                assert(sort_by_start(s)[i] == sorted[i - 1]);
            }
        }
    }
}

proof fn lemma_insert_pos_bound(s: Seq<AddressRange>, a: usize)
    ensures
        insert_pos(s, a) <= s.len(),
    decreases s.len(),
{
    if s.len() > 0 {
        lemma_insert_pos_bound(s.drop_first(), a);
    }
}

/// Whether one of the ranges holds `a`.
pub open spec fn covers(s: Seq<AddressRange>, a: int) -> bool {
    exists|i: int| 0 <= i < s.len() && range_has(#[trigger] s[i], a)
}

proof fn lemma_sort_covers(s: Seq<AddressRange>, a: int)
    ensures
        sort_by_start(s).len() == s.len(),
        covers(sort_by_start(s), a) == covers(s, a),
    decreases s.len(),
{
    if s.len() > 0 {
        let t = s.drop_last();
        lemma_sort_covers(t, a);
        let sorted = sort_by_start(t);
        lemma_insert_pos_bound(sorted, s.last().start_addr);
        let p = insert_pos(sorted, s.last().start_addr) as int;
        let u = sort_by_start(s);
        assert(u == sorted.insert(p, s.last()));
        if covers(u, a) {
            let i = choose|i: int| 0 <= i < u.len() && range_has(#[trigger] u[i], a);
            if i < p {
                assert(u[i] == sorted[i]);
                assert(range_has(sorted[i], a));
            } else if i > p {
                assert(u[i] == sorted[i - 1]);
                assert(range_has(sorted[i - 1], a));
            } else {
                assert(range_has(s[s.len() - 1], a));
            }
        }
        if covers(s, a) {
            let i = choose|i: int| 0 <= i < s.len() && range_has(#[trigger] s[i], a);
            if i == s.len() - 1 {
                assert(u[p] == s.last());
            } else {
                assert(t[i] == s[i]);
                assert(covers(sorted, a));
                let j = choose|j: int| 0 <= j < sorted.len() && range_has(#[trigger] sorted[j], a);
                if j < p {
                    assert(u[j] == sorted[j]);
                } else {
                    assert(u[j + 1] == sorted[j]);
                }
            }
        }
    }
}

proof fn lemma_first_overlap(out: Seq<AddressRange>, r: AddressRange, j: nat)
    ensures
        first_overlap(out, r, j) matches Some(i) ==> j <= i < out.len() && spec_overlaps(r, out[i as int]),
        first_overlap(out, r, j) is None ==> forall|k: int| j <= k < out.len() ==> !spec_overlaps(r, #[trigger] out[k]),
    decreases out.len() - j,
{
    if j < out.len() && !spec_overlaps(r, out[j as int]) {
        lemma_first_overlap(out, r, j + 1);
    }
}

proof fn lemma_merge_step_covers(out: Seq<AddressRange>, r: AddressRange, a: int)
    requires
        forall|i: int| 0 <= i < out.len() ==> range_wf(#[trigger] out[i]),
        range_wf(r),
    ensures
        forall|i: int| 0 <= i < merge_step(out, r).len() ==> range_wf(#[trigger] merge_step(out, r)[i]),
        covers(merge_step(out, r), a) == (covers(out, a) || range_has(r, a)),
{
    lemma_first_overlap(out, r, 0);
    let m = merge_step(out, r);
    match first_overlap(out, r, 0) {
        Some(k) => {
            let k = k as int;
            let o = out[k];
            let n = AddressRange {
                start_addr: min_addr(r.start_addr, o.start_addr),
                end_addr: max_addr(r.end_addr, o.end_addr),
            };
            assert(m == out.update(k, n));
            assert(range_has(n, a) == (range_has(o, a) || range_has(r, a)));
            if covers(m, a) {
                let i = choose|i: int| 0 <= i < m.len() && range_has(#[trigger] m[i], a);
                if i != k {
                    assert(m[i] == out[i]);
                }
            }
            if covers(out, a) {
                let i = choose|i: int| 0 <= i < out.len() && range_has(#[trigger] out[i], a);
                if i != k {
                    assert(m[i] == out[i]);
                } else {
                    assert(m[k] == n);
                }
            }
            if range_has(r, a) {
                assert(m[k] == n);
            }
        },
        None => {
            assert(m == out.push(r));
            if covers(m, a) {
                let i = choose|i: int| 0 <= i < m.len() && range_has(#[trigger] m[i], a);
                if i < out.len() {
                    assert(m[i] == out[i]);
                }
            }
            if covers(out, a) {
                let i = choose|i: int| 0 <= i < out.len() && range_has(#[trigger] out[i], a);
                assert(m[i] == out[i]);
            }
            if range_has(r, a) {
                assert(m[out.len() as int] == r);
            }
        },
    }
}

proof fn lemma_merge_all_covers(s: Seq<AddressRange>, a: int)
    requires
        forall|i: int| 0 <= i < s.len() ==> range_wf(#[trigger] s[i]),
    ensures
        forall|i: int| 0 <= i < merge_all(s).len() ==> range_wf(#[trigger] merge_all(s)[i]),
        covers(merge_all(s), a) == covers(s, a),
    decreases s.len(),
{
    if s.len() > 0 {
        let t = s.drop_last();
        assert forall|i: int| 0 <= i < t.len() implies range_wf(#[trigger] t[i]) by {
            assert(t[i] == s[i]);
        }
        lemma_merge_all_covers(t, a);
        assert(range_wf(s[s.len() - 1]));
        lemma_merge_step_covers(merge_all(t), s.last(), a);
        if covers(s, a) {
            let i = choose|i: int| 0 <= i < s.len() && range_has(#[trigger] s[i], a);
            if i < s.len() - 1 {
                assert(t[i] == s[i]);
            }
        }
        if covers(t, a) {
            let i = choose|i: int| 0 <= i < t.len() && range_has(#[trigger] t[i], a);
            assert(s[i] == t[i]);
        }
        if range_has(s.last(), a) {
            assert(s[s.len() - 1] == s.last());
        }
    }
}

/// Merging keeps exactly the addresses the ranges hold: an address lies in a merged
/// range if and only if it lies in one of the ranges merged.
pub proof fn lemma_merge_keeps_coverage(ranges: Seq<AddressRange>, a: int)
    requires
        forall|i: int| 0 <= i < ranges.len() ==> range_wf(#[trigger] ranges[i]),
    ensures
        covers(merge_all(sort_by_start(ranges)), a) == covers(ranges, a),
{
    lemma_sort_keeps(ranges);
    lemma_sort_covers(ranges, a);
    lemma_merge_all_covers(sort_by_start(ranges), a);
}

/// The ranges are in order of their start.
pub open spec fn starts_sorted(s: Seq<AddressRange>) -> bool {
    forall|i: int, j: int| 0 <= i <= j < s.len() ==> (#[trigger] s[i]).start_addr <= (#[trigger] s[j]).start_addr
}

/// Each range ends before the next one starts.
pub open spec fn separated(s: Seq<AddressRange>) -> bool {
    forall|i: int, j: int| 0 <= i < j < s.len() ==> (#[trigger] s[i]).end_addr < (#[trigger] s[j]).start_addr
}

proof fn lemma_insert_pos_sorted(s: Seq<AddressRange>, a: usize)
    requires
        starts_sorted(s),
    ensures
        insert_pos(s, a) <= s.len(),
        forall|k: int| 0 <= k < insert_pos(s, a) ==> (#[trigger] s[k]).start_addr <= a,
        forall|k: int| insert_pos(s, a) <= k < s.len() ==> (#[trigger] s[k]).start_addr > a,
    decreases s.len(),
{
    if s.len() > 0 {
        let t = s.drop_first();
        if s[0].start_addr <= a {
            assert(starts_sorted(t)) by {
                assert forall|i: int, j: int| 0 <= i <= j < t.len() implies (#[trigger] t[i]).start_addr <= (#[trigger] t[j]).start_addr by {
                    assert(t[i] == s[i + 1] && t[j] == s[j + 1]);
                }
            }
            lemma_insert_pos_sorted(t, a);
            assert forall|k: int| 0 <= k < insert_pos(s, a) implies (#[trigger] s[k]).start_addr <= a by {
                if k > 0 {
                    assert(s[k] == t[k - 1]);
                }
            }
            assert forall|k: int| insert_pos(s, a) <= k < s.len() implies (#[trigger] s[k]).start_addr > a by {
                assert(s[k] == t[k - 1]);
            }
        } else {
            assert forall|k: int| 0 <= k < s.len() implies (#[trigger] s[k]).start_addr > a by {
                assert(s[0].start_addr <= s[k].start_addr);
            }
        }
    }
}

proof fn lemma_sort_sorted(s: Seq<AddressRange>)
    ensures
        starts_sorted(sort_by_start(s)),
        sort_by_start(s).len() == s.len(),
    decreases s.len(),
{
    if s.len() > 0 {
        let t = sort_by_start(s.drop_last());
        lemma_sort_sorted(s.drop_last());
        let x = s.last();
        lemma_insert_pos_sorted(t, x.start_addr);
        let p = insert_pos(t, x.start_addr) as int;
        let u = t.insert(p, x);
        assert forall|i: int, j: int| 0 <= i <= j < u.len() implies (#[trigger] u[i]).start_addr <= (#[trigger] u[j]).start_addr by {
            if j < p {
                assert(u[i] == t[i] && u[j] == t[j]);
            } else if j == p {
                if i < p {
                    assert(u[i] == t[i]);
                }
            } else if i > p {
                assert(u[i] == t[i - 1] && u[j] == t[j - 1]);
            } else if i == p {
                assert(u[j] == t[j - 1]);
            } else {
                assert(u[i] == t[i] && u[j] == t[j - 1]);
            }
        }
    }
}

proof fn lemma_merge_all_separated(s: Seq<AddressRange>)
    requires
        starts_sorted(s),
        forall|i: int| 0 <= i < s.len() ==> range_wf(#[trigger] s[i]),
    ensures
        separated(merge_all(s)),
        forall|k: int| 0 <= k < merge_all(s).len() ==> range_wf(#[trigger] merge_all(s)[k]),
        forall|k: int| 0 <= k < merge_all(s).len() ==> (#[trigger] merge_all(s)[k]).start_addr <= s.last().start_addr,
    decreases s.len(),
{
    if s.len() > 0 {
        let t = s.drop_last();
        assert(starts_sorted(t)) by {
            assert forall|i: int, j: int| 0 <= i <= j < t.len() implies (#[trigger] t[i]).start_addr <= (#[trigger] t[j]).start_addr by {
                assert(t[i] == s[i] && t[j] == s[j]);
            }
        }
        assert forall|i: int| 0 <= i < t.len() implies range_wf(#[trigger] t[i]) by {
            assert(t[i] == s[i]);
        }
        lemma_merge_all_separated(t);
        let out = merge_all(t);
        let r = s.last();
        assert(range_wf(s[s.len() - 1]));
        let n = out.len() as int;
        assert forall|k: int| 0 <= k < n implies (#[trigger] out[k]).start_addr <= r.start_addr by {
            assert(t.last() == s[s.len() - 2]);
            assert(s[s.len() - 2].start_addr <= s[s.len() - 1].start_addr);
        }
        assert forall|k: int| 0 <= k < n - 1 implies !spec_overlaps(r, #[trigger] out[k]) by {
            assert(out[k].end_addr < out[n - 1].start_addr);
        }
        lemma_first_overlap(out, r, 0);
        let m = merge_step(out, r);
        match first_overlap(out, r, 0) {
            Some(i) => {
                let i = i as int;
                assert(i == n - 1);
                assert forall|a: int, b: int| 0 <= a < b < m.len() implies (#[trigger] m[a]).end_addr < (#[trigger] m[b]).start_addr by {
                    if b < n - 1 {
                        assert(m[a] == out[a] && m[b] == out[b]);
                    } else {
                        assert(m[a] == out[a]);
                        assert(out[a].end_addr < out[n - 1].start_addr);
                    }
                }
                assert forall|k: int| 0 <= k < m.len() implies range_wf(#[trigger] m[k]) && m[k].start_addr <= r.start_addr by {
                    if k < n - 1 {
                        assert(m[k] == out[k]);
                    }
                }
            },
            None => {
                if n > 0 {
                    assert(!spec_overlaps(r, out[n - 1]));
                    assert(out[n - 1].end_addr < r.start_addr);
                }
                assert forall|a: int, b: int| 0 <= a < b < m.len() implies (#[trigger] m[a]).end_addr < (#[trigger] m[b]).start_addr by {
                    assert(m[a] == out[a]);
                    if b < n {
                        assert(m[b] == out[b]);
                    } else {
                        assert(m[b] == r);
                        if a < n - 1 {
                            assert(out[a].end_addr < out[n - 1].start_addr);
                            assert(range_wf(out[n - 1]));
                        }
                    }
                }
                assert forall|k: int| 0 <= k < m.len() implies range_wf(#[trigger] m[k]) && m[k].start_addr <= r.start_addr by {
                    if k < n {
                        assert(m[k] == out[k]);
                    }
                }
            },
        }
    }
}

/// Merging leaves the ranges in order of their start, each ending before the next one
/// starts: no two merged ranges overlap.
pub proof fn lemma_merge_separates(ranges: Seq<AddressRange>)
    requires
        forall|i: int| 0 <= i < ranges.len() ==> range_wf(#[trigger] ranges[i]),
    ensures
        separated(merge_all(sort_by_start(ranges))),
        forall|i: int, j: int|
            0 <= i < merge_all(sort_by_start(ranges)).len() && 0 <= j < merge_all(sort_by_start(ranges)).len() && i != j
                ==> !spec_overlaps(
                #[trigger] merge_all(sort_by_start(ranges))[i],
                #[trigger] merge_all(sort_by_start(ranges))[j],
            ),
{
    lemma_sort_keeps(ranges);
    lemma_sort_sorted(ranges);
    let m = merge_all(sort_by_start(ranges));
    lemma_merge_all_separated(sort_by_start(ranges));
    assert forall|i: int, j: int| 0 <= i < m.len() && 0 <= j < m.len() && i != j implies !spec_overlaps(#[trigger] m[i], #[trigger] m[j]) by {
        if i < j {
            assert(m[i].end_addr < m[j].start_addr);
        } else {
            assert(m[j].end_addr < m[i].start_addr);
            assert(range_wf(m[i]) && range_wf(m[j]));
        }
    }
}

/// Cutting a range into chunks tiles it: the first chunk starts where the range does,
/// each chunk ends where the next starts, the last ends where the range does, no chunk
/// is longer than the size asked for, and every address of the range lies in a chunk.
pub proof fn lemma_chunks_tile(r: AddressRange, size: nat)
    requires
        range_wf(r),
        size > 0,
        r.start_addr + ((r.end_addr - r.start_addr) as nat / size) * size + size <= usize::MAX,
    ensures
        spec_chunk(r, size, 0).start_addr == r.start_addr,
        spec_chunk(r, size, (chunk_count(r, size) - 1) as nat).end_addr == r.end_addr,
        forall|k: nat| #![trigger spec_chunk(r, size, k)]
            k + 1 < chunk_count(r, size) ==> spec_chunk(r, size, k).end_addr == spec_chunk(r, size, k + 1).start_addr,
        forall|k: nat| #![trigger spec_chunk(r, size, k)]
            k < chunk_count(r, size) ==> spec_chunk(r, size, k).start_addr <= spec_chunk(r, size, k).end_addr
                <= spec_chunk(r, size, k).start_addr + size,
        forall|a: int| range_has(r, a) ==> exists|k: nat| k < chunk_count(r, size) && #[trigger] range_has(spec_chunk(r, size, k), a),
{
    let len = (r.end_addr - r.start_addr) as nat;
    let q = len / size;
    assert(q * size <= len && len < q * size + size) by (nonlinear_arith)
        requires
            q == len / size,
            size > 0,
    ;
    assert forall|k: nat| #![trigger spec_chunk(r, size, k)] k < chunk_count(r, size) implies spec_chunk(r, size, k).start_addr
        <= spec_chunk(r, size, k).end_addr <= spec_chunk(r, size, k).start_addr + size by {
        assert(k * size <= q * size) by (nonlinear_arith)
            requires
                k <= q,
        ;
    }
    assert forall|k: nat| #![trigger spec_chunk(r, size, k)] k + 1 < chunk_count(r, size) implies spec_chunk(r, size, k).end_addr
        == spec_chunk(r, size, k + 1).start_addr by {
        assert((k + 1) * size <= q * size) by (nonlinear_arith)
            requires
                k + 1 <= q,
        ;
        assert((k + 1) * size == k * size + size) by (nonlinear_arith);
    }
    assert forall|a: int| range_has(r, a) implies exists|k: nat| k < chunk_count(r, size) && #[trigger] range_has(spec_chunk(r, size, k), a) by {
        let d = (a - r.start_addr) as nat;
        let k = d / size;
        assert(k * size <= d && d < k * size + size && k <= q) by (nonlinear_arith)
            requires
                k == d / size,
                size > 0,
                d <= len,
                q == len / size,
        ;
        assert(k * size <= q * size) by (nonlinear_arith)
            requires
                k <= q,
        ;
        assert(range_has(spec_chunk(r, size, k), a));
    }
}

} // verus!

verus! {

/// The word that a read into `bytes` gives: the read's error, or the little-endian word
/// the bytes hold.
pub fn word_from_read(read: Result<usize, MemError>, bytes: &[u8]) -> (r: Result<usize, MemError>)
    requires
        bytes@.len() == crate::word_size(),
    ensures
        read matches Err(e) ==> r == Err::<usize, MemError>(e),
        read is Ok ==> r == Ok::<usize, MemError>(crate::word_value(bytes@, 0)),
{
    match read {
        Ok(_) => Ok(read_usize_le(bytes, 0)),
        Err(e) => Err(e),
    }
}

/// The next address of a dereference chain, given what reading the pointer gave: the
/// read's error, [`WinMemError::NullPointer`] for a null pointer, or the pointer.
pub fn follow_pointer(read: Result<usize, MemError>) -> (r: Result<usize, MemError>)
    ensures
        read matches Err(e) ==> r == Err::<usize, MemError>(e),
        read matches Ok(a) ==> (a == 0 ==> r == Err::<usize, MemError>(MemError::Windows(WinMemError::NullPointer))),
        read matches Ok(a) ==> (a != 0 ==> r == Ok::<usize, MemError>(a)),
{
    match read {
        Err(e) => Err(e),
        Ok(0) => Err(MemError::Windows(WinMemError::NullPointer)),
        Ok(a) => Ok(a),
    }
}

/// Whether a read of `size` bytes filled them all.
pub fn read_filled(read: &Result<usize, MemError>, size: usize) -> (r: bool)
    ensures
        r == (read is Ok && read->Ok_0 == size),
{
    match read {
        Ok(n) => *n == size,
        Err(_) => false,
    }
}

/// One read that a reader answered: the address read, the number of bytes asked for,
/// and the answer: the error, or the count the reader reported with the first `size`
/// bytes of the buffer as the read left them.
pub struct ReadEvent {
    pub addr: MemAddress,
    pub size: nat,
    pub answer: Result<(usize, Seq<u8>), MemError>,
}

/// The record of a read of `size` bytes at `addr` that returned `r` and left `bytes` in
/// the buffer.
pub open spec fn read_event(addr: MemAddress, size: nat, r: Result<usize, MemError>, bytes: Seq<u8>) -> ReadEvent {
    ReadEvent {
        addr,
        size,
        answer: match r {
            Ok(n) => Ok((n, bytes)),
            Err(e) => Err(e),
        },
    }
}

/// The bytes a read gave when it succeeded and reported all the bytes asked for.
pub open spec fn read_bytes(e: ReadEvent) -> Option<Seq<u8>> {
    match e.answer {
        Ok((n, b)) => if n == e.size {
            Some(b)
        } else {
            None
        },
        Err(_) => None,
    }
}

/// The reads in `after` that came after those in `before`, where `after` continues
/// `before`.
pub open spec fn new_reads(before: Seq<ReadEvent>, after: Seq<ReadEvent>) -> Seq<ReadEvent> {
    after.subrange(before.len() as int, after.len() as int)
}

/// `after` is `before` followed by further reads.
pub open spec fn log_extends(before: Seq<ReadEvent>, after: Seq<ReadEvent>) -> bool {
    before.len() <= after.len() && after.subrange(0, before.len() as int) == before
}

/// An object that handles reading memory from another process.
///
/// A reader keeps a record of the reads it answered ([`Reader::read_log`]): each read
/// appends what it was asked and what it answered.
pub trait Reader {
    /// The reads this reader answered, oldest first.
    ///
    /// A reader that Verus checks defines its record. The body given here is only a
    /// default for a reader written outside Verus, which is trusted to answer as
    /// [`Reader::read_n_bytes`] states; being closed, it is used by no proof.
    closed spec fn read_log(&self) -> Seq<ReadEvent> {
        vstd::pervasive::arbitrary()
    }

    /// Reads `size` bytes to the front of `buffer`, starting at the given address.
    ///
    /// Returns the number of bytes read.
    fn read_n_bytes(&mut self, base_addr: MemAddress, buffer: &mut [u8], size: usize) -> (r:
        Result<usize, MemError>)
        requires
            size <= old(buffer)@.len(),
        ensures
            final(buffer)@.len() == old(buffer)@.len(),
            r matches Ok(n) ==> n <= size,
            final(self).read_log() == old(self).read_log().push(
                read_event(base_addr, size as nat, r, final(buffer)@.subrange(0, size as int)),
            ),
    ;

    /// Fills the buffer with bytes, starting at the given address.
    fn read_to_buffer(&mut self, base_addr: MemAddress, buffer: &mut [u8]) -> (r: Result<
        usize,
        MemError,
    >)
        ensures
            final(buffer)@.len() == old(buffer)@.len(),
            r matches Ok(n) ==> n <= old(buffer)@.len(),
            final(self).read_log() == old(self).read_log().push(
                read_event(base_addr, old(buffer)@.len(), r, final(buffer)@),
            ),
    {
        let n = buffer.len();
        let r = self.read_n_bytes(base_addr, buffer, n);
        assert(buffer@.subrange(0, n as int) =~= buffer@);
        r
    }

    /// Reads a machine word (little-endian) from the given address: the error of the
    /// read, or the word its bytes hold.
    fn read_word(&mut self, base_addr: MemAddress) -> (r: Result<usize, MemError>)
        ensures
            final(self).read_log().len() == old(self).read_log().len() + 1,
            log_extends(old(self).read_log(), final(self).read_log()),
            ({
                let e = final(self).read_log().last();
                &&& e.addr == base_addr
                &&& e.size == crate::word_size()
                &&& match e.answer {
                    Err(er) => r == Err::<usize, MemError>(er),
                    Ok((_, b)) => b.len() == crate::word_size() && r == Ok::<usize, MemError>(
                        crate::word_value(b, 0),
                    ),
                }
            }),
    {
        let mut buf = fill_bytes(0, core::mem::size_of::<usize>());
        proof {
            broadcast use vstd::layout::layout_of_primitives;
        }
        let read = self.read_to_buffer(base_addr, buf.as_mut_slice());
        proof {
            assert(self.read_log().subrange(0, old(self).read_log().len() as int) =~= old(self).read_log());
        }
        word_from_read(read, buf.as_slice())
    }

    /// Reads the block of memory represented by the given range into the buffer.
    fn read_range(&mut self, range: AddressRange, buffer: &mut [u8]) -> (r: Result<
        usize,
        MemError,
    >)
        requires
            range_wf(range),
            old(buffer)@.len() == range.end_addr - range.start_addr,
        ensures
            final(buffer)@.len() == old(buffer)@.len(),
            r matches Ok(n) ==> n <= old(buffer)@.len(),
            final(self).read_log() == old(self).read_log().push(
                read_event(range.start_addr, old(buffer)@.len(), r, final(buffer)@),
            ),
    {
        self.read_to_buffer(range.start_addr, buffer)
    }

    /// Traverses a dereference chain and returns the end address.
    ///
    /// Start at `start_addr`. For each offset but the last, add it to the address and
    /// read the word there as the new address. Add the last offset at the end.
    /// Addresses wrap around on overflow. A null pointer in the chain is an error
    /// ([`WinMemError::NullPointer`]), and so is a failed read.
    fn deref_chain(&mut self, start_addr: MemAddress, offsets_v: &Vec<MemAddress>) -> (r: Result<
        MemAddress,
        MemError,
    >)
        requires
            offsets_v@.len() > 0,
        ensures
            log_extends(old(self).read_log(), final(self).read_log()),
            chain_reads(start_addr, offsets_v@, new_reads(old(self).read_log(), final(self).read_log())),
            r == chain_outcome(start_addr, offsets_v@, new_reads(old(self).read_log(), final(self).read_log())),
            offsets_v@.len() == 1 ==> r == Ok::<MemAddress, MemError>(
                start_addr.wrapping_add(offsets_v@[0]),
            ),
    {
        let n = offsets_v.len();
        let last_offset = offsets_v[n - 1];
        let mut addr = start_addr;
        let mut i: usize = 0;
        let ghost start_log = self.read_log();
        assert(self.read_log().subrange(0, start_log.len() as int) =~= start_log);
        while i < n - 1
            invariant
                n == offsets_v@.len(),
                n > 0,
                i <= n - 1,
                last_offset == offsets_v@.last(),
                start_log == old(self).read_log(),
                log_extends(start_log, self.read_log()),
                new_reads(start_log, self.read_log()).len() == i,
                chain_steps(start_addr, offsets_v@, new_reads(start_log, self.read_log())),
                forall|q: int| 0 <= q < i ==> good_ptr(#[trigger] new_reads(start_log, self.read_log())[q]),
                addr == chain_addr(start_addr, new_reads(start_log, self.read_log()), i as nat),
            decreases n - 1 - i,
        {
            let ptr_and_off = addr.wrapping_add(offsets_v[i]);
            let ghost before = self.read_log();
            let read = self.read_word(ptr_and_off);
            proof {
                let p0 = new_reads(start_log, before);
                let p1 = new_reads(start_log, self.read_log());
                assert(self.read_log().subrange(0, before.len() as int) =~= before);
                assert(self.read_log().subrange(0, start_log.len() as int) =~= start_log);
                assert(p1 =~= p0.push(self.read_log().last()));
                assert forall|q: int| 0 <= q < i implies #[trigger] p1[q] == p0[q] by {}
            }
            match follow_pointer(read) {
                Ok(new_addy) => {
                    addr = new_addy;
                },
                Err(e) => {
                    return Err(e);
                },
            }
            i = i + 1;
        }
        Ok(addr.wrapping_add(last_offset))
    }
}

/// The pointer a chain read gave: the word its bytes hold (0 where the read failed).
pub open spec fn ptr_value(e: ReadEvent) -> MemAddress {
    match e.answer {
        Ok((_, b)) => crate::word_value(b, 0),
        Err(_) => 0,
    }
}

/// A chain read that gave a pointer that is not null.
pub open spec fn good_ptr(e: ReadEvent) -> bool {
    e.answer is Ok && ptr_value(e) != 0
}

/// The address a chain from `start` has reached after `k` of its reads `evs`.
pub open spec fn chain_addr(start: MemAddress, evs: Seq<ReadEvent>, k: nat) -> MemAddress {
    if k == 0 {
        start
    } else {
        ptr_value(evs[k - 1])
    }
}

/// Each of the reads `evs` of a chain from `start` through `offs` reads a word at the
/// address reached plus the offset of its step.
pub open spec fn chain_steps(start: MemAddress, offs: Seq<MemAddress>, evs: Seq<ReadEvent>) -> bool {
    forall|k: int|
        0 <= k < evs.len() ==> {
            &&& (#[trigger] evs[k]).addr == chain_addr(start, evs, k as nat).wrapping_add(offs[k])
            &&& evs[k].size == crate::word_size()
            &&& evs[k].answer matches Ok((_, b)) ==> b.len() == crate::word_size()
        }
}

/// The reads `evs` are those a chain from `start` through `offs` makes: a word at each
/// address reached plus the offset of its step, for each offset but the last, until a
/// read fails or gives a null pointer.
pub open spec fn chain_reads(start: MemAddress, offs: Seq<MemAddress>, evs: Seq<ReadEvent>) -> bool {
    &&& evs.len() < offs.len()
    &&& chain_steps(start, offs, evs)
    &&& forall|k: int| 0 <= k < evs.len() - 1 ==> good_ptr(#[trigger] evs[k])
    &&& evs.len() < offs.len() - 1 ==> evs.len() > 0 && !good_ptr(evs.last())
}

/// The end of a chain from `start` through `offs` whose reads gave `evs`: the failed
/// read's error, [`WinMemError::NullPointer`] for a null pointer, or the last address
/// reached plus the last offset.
pub open spec fn chain_outcome(start: MemAddress, offs: Seq<MemAddress>, evs: Seq<ReadEvent>) -> Result<MemAddress, MemError> {
    if evs.len() > 0 && !good_ptr(evs.last()) {
        match evs.last().answer {
            Err(e) => Err(e),
            Ok(_) => Err(MemError::Windows(WinMemError::NullPointer)),
        }
    } else {
        Ok(chain_addr(start, evs, evs.len()).wrapping_add(offs.last()))
    }
}

/// One write that a writer answered: the address written, the bytes it was asked to
/// write there, and its answer (the count of bytes written, or the error).
pub struct WriteEvent {
    pub addr: MemAddress,
    pub bytes: Seq<u8>,
    pub answer: Result<usize, MemError>,
}

/// An object that handles editing the memory of another process.
///
/// A writer keeps a record of the writes it answered ([`Writer::write_log`]): each write
/// appends what it was asked and what it answered.
pub trait Writer {
    /// The writes this writer answered, oldest first.
    ///
    /// A writer that Verus checks defines its record. The body given here is only a
    /// default for a writer written outside Verus, which is trusted to answer as
    /// [`Writer::write_n_bytes`] states; being closed, it is used by no proof.
    closed spec fn write_log(&self) -> Seq<WriteEvent> {
        vstd::pervasive::arbitrary()
    }

    /// Writes the first `size` bytes of `bytes` to the given address.
    ///
    /// Returns the number of bytes written.
    fn write_n_bytes(&mut self, base_addr: MemAddress, bytes: &[u8], size: usize) -> (r: Result<
        usize,
        MemError,
    >)
        requires
            size <= bytes@.len(),
        ensures
            r matches Ok(n) ==> n <= size,
            final(self).write_log() == old(self).write_log().push(
                WriteEvent { addr: base_addr, bytes: bytes@.subrange(0, size as int), answer: r },
            ),
    ;

    /// Writes the entire buffer to the given address.
    fn write_from_buffer(&mut self, base_addr: MemAddress, bytes: &[u8]) -> (r: Result<
        usize,
        MemError,
    >)
        ensures
            r matches Ok(n) ==> n <= bytes@.len(),
            final(self).write_log() == old(self).write_log().push(
                WriteEvent { addr: base_addr, bytes: bytes@, answer: r },
            ),
    {
        let r = self.write_n_bytes(base_addr, bytes, bytes.len());
        assert(bytes@.subrange(0, bytes@.len() as int) =~= bytes@);
        r
    }

    /// Writes the little-endian bytes of a value to the given address.
    fn write_from_type<V: crate::pattern_scan::Primitive>(&mut self, base_addr: MemAddress, value: V) -> (r: Result<
        usize,
        MemError,
    >)
        ensures
            r matches Ok(n) ==> n <= value.spec_le_bytes().len(),
            final(self).write_log() == old(self).write_log().push(
                WriteEvent { addr: base_addr, bytes: value.spec_le_bytes(), answer: r },
            ),
    {
        let bytes = value.le_bytes();
        self.write_from_buffer(base_addr, bytes.as_slice())
    }
}

} // verus!
