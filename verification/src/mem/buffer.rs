//! A buffer for memory scans: reads a range of another process's memory a chunk at a
//! time and scans each chunk, keeping the end of the previous chunk in front of the
//! next one so that no match is lost at a chunk boundary.

use vstd::prelude::*;

use crate::boros::{spec_swallow, Boros};
use crate::mem::reader::{log_extends, new_reads, range_wf, read_bytes, read_filled, AddressRange, ReadEvent, Reader};
use crate::pattern_scan::scan_laws::{
    lemma_between_concat, lemma_between_shift, lemma_match_in_piece, lemma_scan_windows_in, lemma_windows_between,
    match_in, scan_between,
};
use crate::pattern_scan::{
    mask_fits, matches_view, spec_scan, window_count, BytePattern, ChunkScanResult, MatchView, ScanMatch, ScanPattern,
    ALIGN_SIZE,
};

verus! {

#[verifier::external_type_specification]
#[verifier::external_body]
pub struct ExInstant(std::time::Instant);

/// `Instant::now` (std): a reading of the monotonic clock. Nothing is stated of it.
#[verifier::external_body]
fn clock_now() -> std::time::Instant {
    std::time::Instant::now()
}

/// `Instant::elapsed` (std), as nanoseconds: the time passed since `start`. Nothing is
/// stated of the value, which depends on the clock.
#[verifier::external_body]
fn nanos_since(start: &std::time::Instant) -> u128 {
    start.elapsed().as_nanos()
}

/// The padding that rounds a pattern of `len` bytes up to a multiple of [`ALIGN_SIZE`].
pub open spec fn align_pad(len: nat) -> nat {
    ((ALIGN_SIZE as int - (len as int % (ALIGN_SIZE as int))) % (ALIGN_SIZE as int)) as nat
}

/// Gets the size of the pattern when padded to align with memory.
/// Returns `(padded_size, padding)`.
pub fn get_aligned_pattern_size<P: ScanPattern>(pattern: &P) -> (r: (usize, usize))
    requires
        pattern.wf(),
        pattern.spec_window().len() + ALIGN_SIZE <= usize::MAX,
    ensures
        r.1 == align_pad(pattern.spec_window().len()),
        r.0 == pattern.spec_window().len() + r.1,
        r.0 % ALIGN_SIZE == 0,
        r.1 < ALIGN_SIZE,
{
    let len = pattern.len();
    let pad = (ALIGN_SIZE - (len % ALIGN_SIZE)) % ALIGN_SIZE;
    (len + pad, pad)
}

/// What one full scan works with: the pattern's window, mask and meaningful length, the
/// range scanned, the read size, the size of the head kept in front of each chunk, and
/// whether the scan stops at the first chunk with a match.
pub struct ScanPlan {
    pub v: Seq<u8>,
    pub m: Option<Seq<bool>>,
    pub tlen: nat,
    pub start: int,
    pub end: int,
    pub rs: nat,
    pub head: nat,
    pub lazy: bool,
}

/// The plan of a scan of `scan_range` for `pattern`, reading `rs` bytes at a time.
pub open spec fn scan_plan<P: ScanPattern>(pattern: &P, scan_range: AddressRange, rs: nat, lazy: bool) -> ScanPlan {
    let len = pattern.spec_window().len();
    let head = (len + align_pad(len) - ALIGN_SIZE) as nat;
    ScanPlan {
        v: pattern.spec_window(),
        m: pattern.spec_window_mask(),
        tlen: pattern.spec_true_len(),
        start: scan_range.start_addr as int,
        end: scan_range.end_addr as int,
        rs,
        head,
        lazy,
    }
}

/// How many chunks of `rs` bytes the range is read in (always at least one).
pub open spec fn plan_chunks(p: ScanPlan) -> nat {
    if p.end - p.start <= p.rs {
        1
    } else {
        ((p.end - p.start - 1) / (p.rs as int) + 1) as nat
    }
}

/// The first address of chunk `j`.
pub open spec fn chunk_start(p: ScanPlan, j: nat) -> int {
    p.start + j * p.rs
}

/// The end of chunk `j`: `rs` bytes on, or the end of the range.
pub open spec fn chunk_end(p: ScanPlan, j: nat) -> int {
    if p.start + (j + 1) * p.rs <= p.end {
        p.start + (j + 1) * p.rs
    } else {
        p.end
    }
}

/// Whether chunk `j` is the last one read.
pub open spec fn is_last_chunk(p: ScanPlan, j: nat) -> bool {
    j + 1 >= plan_chunks(p)
}

/// The address and the bytes scanned for chunk `j`, when it was read.
///
/// The first chunk, and a chunk whose predecessor could not be read, scan their own
/// bytes alone, from their own start. A later chunk whose predecessor was read scans the
/// last `head` bytes of the predecessor followed by its own bytes, starting `head` bytes
/// before its own start.
pub open spec fn chunk_view(p: ScanPlan, loads: Seq<Option<Seq<u8>>>, j: nat) -> (int, Seq<u8>) {
    if j == 0 || loads[j - 1] is None {
        (chunk_start(p, j), loads[j as int].unwrap())
    } else {
        let prev = loads[j - 1].unwrap();
        (
            chunk_start(p, j) - p.head,
            prev.subrange(p.rs - p.head, p.rs as int) + loads[j as int].unwrap(),
        )
    }
}

/// The matches found in chunk `j`: none if it could not be read.
pub open spec fn chunk_found(p: ScanPlan, loads: Seq<Option<Seq<u8>>>, j: nat) -> Seq<MatchView> {
    if loads[j as int] is None {
        Seq::empty()
    } else {
        spec_scan(p.v, p.m, p.tlen, chunk_view(p, loads, j).0, chunk_view(p, loads, j).1)
    }
}

/// The matches of chunks `0..j`, in order.
pub open spec fn found_upto(p: ScanPlan, loads: Seq<Option<Seq<u8>>>, j: nat) -> Seq<MatchView>
    decreases j,
{
    if j == 0 {
        Seq::empty()
    } else {
        found_upto(p, loads, (j - 1) as nat) + chunk_found(p, loads, (j - 1) as nat)
    }
}

/// Whether the scan stops after chunk `j`: it was the last chunk, or the scan is lazy
/// and has found something.
pub open spec fn stops_after(p: ScanPlan, loads: Seq<Option<Seq<u8>>>, j: nat) -> bool {
    is_last_chunk(p, j) || (p.lazy && found_upto(p, loads, j + 1).len() > 0)
}

/// The matches of a whole scan, given what each read put in the buffer.
pub open spec fn scan_from(p: ScanPlan, loads: Seq<Option<Seq<u8>>>, j: nat) -> Seq<MatchView>
    decreases plan_chunks(p) - j,
{
    if j >= plan_chunks(p) || stops_after(p, loads, j) {
        found_upto(p, loads, j + 1)
    } else {
        scan_from(p, loads, j + 1)
    }
}

/// What the reads `evs` gave, as the bytes a scan takes: the bytes of each read that
/// filled its chunk, nothing for the others.
pub open spec fn loads_of(evs: Seq<ReadEvent>) -> Seq<Option<Seq<u8>>> {
    Seq::new(evs.len(), |k: int| read_bytes(evs[k]))
}

/// Read `k` of `evs` asks for chunk `k` of the plan: its first address and its size.
pub open spec fn chunk_reads(p: ScanPlan, evs: Seq<ReadEvent>) -> bool {
    forall|k: int|
        0 <= k < evs.len() ==> (#[trigger] evs[k]).addr == chunk_start(p, k as nat) && evs[k].size
            == chunk_end(p, k as nat) - chunk_start(p, k as nat)
}

/// The reads `evs` are those a scan by plan `p` makes: one read of each chunk, in order,
/// from the first chunk on, up to the chunk after which the scan stops (the last chunk,
/// or for a lazy scan the first that brings the matches found so far above none).
pub open spec fn scan_reads(p: ScanPlan, evs: Seq<ReadEvent>) -> bool {
    &&& 0 < evs.len() <= plan_chunks(p)
    &&& chunk_reads(p, evs)
    &&& forall|k: nat| k + 1 < evs.len() ==> !#[trigger] stops_after(p, loads_of(evs), k)
    &&& stops_after(p, loads_of(evs), (evs.len() - 1) as nat)
}

/// Each read put as many bytes as its chunk holds (or failed).
pub open spec fn loads_fit(p: ScanPlan, loads: Seq<Option<Seq<u8>>>) -> bool {
    forall|j: int|
        0 <= j < loads.len() && #[trigger] loads[j] is Some ==> loads[j].unwrap().len() == chunk_end(
            p,
            j as nat,
        ) - chunk_start(p, j as nat)
}

/// How long each part of a scan took, in nanoseconds.
#[derive(Clone, Debug)]
pub struct ScanTime {
    /// The ranges scanned.
    pub range: Vec<AddressRange>,
    pub init_time: u128,
    pub read_time: u128,
    pub lock_time: u128,
    pub scan_time: u128,
    pub state_time: u128,
}

/// The total number of bytes in the ranges.
pub open spec fn sum_sizes(s: Seq<AddressRange>) -> int
    decreases s.len(),
{
    if s.len() == 0 {
        0
    } else {
        sum_sizes(s.drop_last()) + (s.last().end_addr - s.last().start_addr)
    }
}

impl ScanTime {
    /// The total number of bytes scanned.
    pub fn scan_size(&self) -> (r: usize)
        requires
            forall|i: int| 0 <= i < self.range@.len() ==> range_wf(#[trigger] self.range@[i]),
            forall|i: int| 0 <= i <= self.range@.len() ==> sum_sizes(#[trigger] self.range@.subrange(0, i)) <= usize::MAX,
        ensures
            r == sum_sizes(self.range@),
    {
        let mut total: usize = 0;
        let mut i: usize = 0;
        while i < self.range.len()
            invariant
                i <= self.range@.len(),
                forall|k: int| 0 <= k < self.range@.len() ==> range_wf(#[trigger] self.range@[k]),
                forall|k: int| 0 <= k <= self.range@.len() ==> sum_sizes(#[trigger] self.range@.subrange(0, k)) <= usize::MAX,
                total == sum_sizes(self.range@.subrange(0, i as int)),
            decreases self.range@.len() - i,
        {
            assert(self.range@.subrange(0, i + 1).drop_last() == self.range@.subrange(0, i as int));
            assert(sum_sizes(self.range@.subrange(0, i + 1)) <= usize::MAX);
            total = total + self.range[i].size();
            i = i + 1;
        }
        assert(self.range@.subrange(0, i as int) == self.range@);
        total
    }

    /// The total time.
    pub fn total(&self) -> (r: u128)
        requires
            self.init_time + self.read_time + self.lock_time + self.scan_time + self.state_time
                <= u128::MAX,
        ensures
            r == self.init_time + self.read_time + self.lock_time + self.scan_time
                + self.state_time,
    {
        self.init_time + self.read_time + self.lock_time + self.scan_time + self.state_time
    }

    /// Joins two records: the ranges one after the other, the times added (saturating).
    pub fn combine(self, other: ScanTime) -> (r: ScanTime)
        ensures
            r.range@ == self.range@ + other.range@,
            r.init_time == sat_add(self.init_time, other.init_time),
            r.read_time == sat_add(self.read_time, other.read_time),
            r.lock_time == sat_add(self.lock_time, other.lock_time),
            r.scan_time == sat_add(self.scan_time, other.scan_time),
            r.state_time == sat_add(self.state_time, other.state_time),
    {
        ScanTime {
            range: crate::util::concat_vecs(self.range, other.range),
            init_time: self.init_time.saturating_add(other.init_time),
            read_time: self.read_time.saturating_add(other.read_time),
            lock_time: self.lock_time.saturating_add(other.lock_time),
            scan_time: self.scan_time.saturating_add(other.scan_time),
            state_time: self.state_time.saturating_add(other.state_time),
        }
    }
}

impl Default for ScanTime {
    /// No range scanned, and no time spent.
    fn default() -> (r: ScanTime)
        ensures
            r.range@.len() == 0,
            r.init_time == 0 && r.read_time == 0 && r.lock_time == 0 && r.scan_time == 0
                && r.state_time == 0,
    {
        ScanTime {
            range: Vec::new(),
            init_time: 0,
            read_time: 0,
            lock_time: 0,
            scan_time: 0,
            state_time: 0,
        }
    }
}

/// The decimal digits of `n` as ASCII bytes, most significant first.
pub open spec fn dec_bytes(n: nat) -> Seq<u8>
    decreases n,
{
    if n < 10 {
        seq![(48 + n) as u8]
    } else {
        dec_bytes(n / 10).push((48 + n % 10) as u8)
    }
}

/// The first `i` bytes of `d`, each preceded by a comma where it is not the first and
/// a multiple of three bytes of `d` remain from it on.
pub open spec fn with_commas_upto(d: Seq<u8>, i: nat) -> Seq<u8>
    decreases i,
{
    if i == 0 {
        Seq::empty()
    } else {
        let k = (i - 1) as nat;
        let sep = if k > 0 && (d.len() - k) % 3 == 0 {
            seq![0x2cu8]
        } else {
            Seq::empty()
        };
        with_commas_upto(d, k) + sep + seq![d[k as int]]
    }
}

/// `d` with a comma between each group of three bytes, counted from the end.
pub open spec fn with_commas(d: Seq<u8>) -> Seq<u8> {
    with_commas_upto(d, d.len())
}


proof fn lemma_dec_bytes(n: nat)
    ensures
        dec_bytes(n).len() >= 1,
        forall|i: int| 0 <= i < dec_bytes(n).len() ==> 48 <= #[trigger] dec_bytes(n)[i] <= 57,
    decreases n,
{
    if n >= 10 {
        lemma_dec_bytes(n / 10);
    }
}

proof fn lemma_with_commas_ascii(d: Seq<u8>, i: nat)
    requires
        i <= d.len(),
        forall|j: int| 0 <= j < d.len() ==> #[trigger] d[j] < 128,
    ensures
        forall|j: int| 0 <= j < with_commas_upto(d, i).len() ==> #[trigger] with_commas_upto(d, i)[j] < 128,
    decreases i,
{
    if i > 0 {
        let k = (i - 1) as nat;
        lemma_with_commas_ascii(d, k);
        let prev = with_commas_upto(d, k);
        let sep = if k > 0 && (d.len() - k) % 3 == 0 {
            seq![0x2cu8]
        } else {
            Seq::empty()
        };
        assert forall|j: int| 0 <= j < with_commas_upto(d, i).len() implies #[trigger] with_commas_upto(d, i)[j] < 128 by {
            if j < prev.len() {
                assert(with_commas_upto(d, i)[j] == prev[j]);
            } else if j < prev.len() + sep.len() {
                assert(with_commas_upto(d, i)[j] == sep[j - prev.len()]);
            } else {
                assert(with_commas_upto(d, i)[j] == d[k as int]);
            }
        }
    }
}

/// Writes a number in decimal with a comma between each group of three digits, as in
/// `12,345,678`.
pub fn thousands_separator(i: u128) -> (r: String)
    ensures
        r@ == crate::util::ascii_chars(with_commas(dec_bytes(i as nat))),
{
    let mut m: u128 = i;
    let mut rev: Vec<u8> = Vec::new();
    while m >= 10
        invariant
            dec_bytes(i as nat) == dec_bytes(m as nat) + rev@.reverse(),
        decreases m,
    {
        let ghost old_rev = rev@;
        let digit = (48 + m % 10) as u8;
        rev.push(digit);
        assert(rev@.reverse() =~= seq![digit] + old_rev.reverse());
        assert(dec_bytes(m as nat) == dec_bytes((m / 10) as nat).push(digit));
        assert(dec_bytes((m / 10) as nat).push(digit) + old_rev.reverse() =~= dec_bytes((m / 10) as nat)
            + rev@.reverse());
        m = m / 10;
    }
    let mut d: Vec<u8> = Vec::new();
    d.push((48 + m) as u8);
    let mut j: usize = rev.len();
    assert(rev@.subrange(j as int, rev@.len() as int).reverse() =~= Seq::<u8>::empty());
    while j > 0
        invariant
            j <= rev@.len(),
            m < 10,
            dec_bytes(i as nat) == dec_bytes(m as nat) + rev@.reverse(),
            d@ == dec_bytes(m as nat) + rev@.subrange(j as int, rev@.len() as int).reverse(),
        decreases j,
    {
        j = j - 1;
        let ghost before = d@;
        d.push(rev[j]);
        assert(rev@.subrange(j as int, rev@.len() as int).reverse() =~= rev@.subrange(
            j + 1,
            rev@.len() as int,
        ).reverse().push(rev@[j as int]));
    }
    assert(rev@.subrange(0, rev@.len() as int) =~= rev@);
    assert(d@ == dec_bytes(i as nat));
    let n = d.len();
    let mut out: Vec<u8> = Vec::new();
    let mut k: usize = 0;
    while k < n
        invariant
            k <= n,
            n == d@.len(),
            out@ == with_commas_upto(d@, k as nat),
        decreases n - k,
    {
        if k > 0 && (n - k) % 3 == 0 {
            out.push(0x2c);
        }
        out.push(d[k]);
        assert(out@ =~= with_commas_upto(d@, (k + 1) as nat));
        k = k + 1;
    }
    proof {
        lemma_dec_bytes(i as nat);
        lemma_with_commas_ascii(d@, n as nat);
    }
    crate::util::ascii_string(out)
}

/// Adds two durations, stopping at the largest value.
pub open spec fn sat_add(a: u128, b: u128) -> u128 {
    if a + b > u128::MAX {
        u128::MAX
    } else {
        (a + b) as u128
    }
}

/// Where a scan is in its range.
#[derive(Copy, Clone, Debug, PartialEq, Eq, Structural)]
pub enum ScanStatus {
    Begin,
    /// Whether the previous chunk could not be read.
    Middle(bool),
    /// Whether the previous chunk could not be read.
    Last(bool),
    End,
}

/// State machine data for memory scans.
#[derive(Copy, Clone, Debug)]
pub struct ScanState {
    /// The chunk to read next.
    pub buf_range: AddressRange,
    pub read_size: usize,
    pub scan_range: AddressRange,
    pub status: ScanStatus,
}

/// The status of chunk `j` in a scan where `skipped_prev` tells whether chunk `j - 1`
/// could not be read.
pub open spec fn status_of(p: ScanPlan, j: nat, skipped_prev: bool) -> ScanStatus {
    if j == 0 {
        ScanStatus::Begin
    } else if is_last_chunk(p, j) {
        ScanStatus::Last(skipped_prev)
    } else {
        ScanStatus::Middle(skipped_prev)
    }
}

/// The range and status of chunk `j`.
pub open spec fn state_matches(s: ScanState, p: ScanPlan, j: nat, skipped_prev: bool) -> bool {
    &&& s.buf_range.start_addr == chunk_start(p, j)
    &&& s.buf_range.end_addr == chunk_end(p, j)
    &&& s.read_size == p.rs
    &&& s.scan_range.start_addr == p.start
    &&& s.scan_range.end_addr == p.end
    &&& s.status == status_of(p, j, skipped_prev)
}

/// A scan steps through its range chunk by chunk, whatever its reads gave: from the
/// first state, after `k` steps the state is that of chunk `k` (its range, and its
/// status: first, middle or last, with whether chunk `k - 1` could not be read), and one
/// step after the last chunk the scan has ended.
pub proof fn lemma_scan_walk(p: ScanPlan, skips: Seq<bool>)
    requires
        p.rs > 0,
        0 <= p.start <= p.end <= usize::MAX,
        p.rs <= usize::MAX,
        skips.len() <= plan_chunks(p),
    ensures
        skips.len() < plan_chunks(p) ==> state_matches(
            walk(first_state(p), skips),
            p,
            skips.len(),
            skips.len() > 0 && skips.last(),
        ),
        skips.len() == plan_chunks(p) ==> walk(first_state(p), skips).status == ScanStatus::End,
    decreases skips.len(),
{
    let n = skips.len();
    lemma_chunk_pos(p);
    if n == 0 {
        lemma_chunk_geometry(p, 0);
        assert(chunk_start(p, 0) == p.start) by (nonlinear_arith)
            requires
                chunk_start(p, 0) == p.start + 0 * p.rs,
        ;
    } else {
        let prev = skips.drop_last();
        lemma_scan_walk(p, prev);
        let j = (n - 1) as nat;
        lemma_chunk_geometry(p, j);
        if n < plan_chunks(p) {
            lemma_chunk_geometry(p, n);
        }
    }
}

/// There is at least one chunk.
proof fn lemma_chunk_pos(p: ScanPlan)
    requires
        p.rs > 0,
        p.start <= p.end,
    ensures
        plan_chunks(p) >= 1,
{
    if p.end - p.start > p.rs {
        assert((p.end - p.start - 1) / (p.rs as int) >= 0) by (nonlinear_arith)
            requires
                p.end - p.start - 1 >= 0,
                p.rs > 0,
        ;
    }
}

/// A scan steps through its range in consecutive chunks and ends: the first chunk starts
/// at the start of the range, each chunk starts where the one before it ended, each but
/// the last is `rs` bytes long and ends before the end of the range, and the last (there
/// is one: the number of chunks is finite) ends at the end of the range.
pub proof fn lemma_chunk_geometry(p: ScanPlan, j: nat)
    requires
        p.rs > 0,
        p.start <= p.end,
        j < plan_chunks(p),
    ensures
        chunk_start(p, j) <= chunk_end(p, j) <= p.end,
        chunk_end(p, j) - chunk_start(p, j) <= p.rs,
        !is_last_chunk(p, j) ==> chunk_end(p, j) == chunk_start(p, j) + p.rs && chunk_end(
            p,
            j,
        ) < p.end,
        is_last_chunk(p, j) ==> chunk_end(p, j) == p.end,
        j > 0 ==> chunk_start(p, j) == chunk_end(p, (j - 1) as nat),
        j > 0 ==> chunk_start(p, j) >= p.start + p.rs,
        chunk_start(p, j) >= p.start,
        chunk_start(p, j + 1) == chunk_start(p, j) + p.rs,
        j + 1 < plan_chunks(p) ==> (is_last_chunk(p, j + 1) <==> p.end - chunk_start(p, j + 1)
            <= p.rs),
        j + 1 < plan_chunks(p) ==> p.end - chunk_start(p, j + 1) > 0,
{
    let s = p.end - p.start;
    let r = p.rs as int;
    let n = plan_chunks(p) as int;
    assert((j + 1) * r == j * r + r) by (nonlinear_arith);
    assert(j * r >= 0) by (nonlinear_arith)
        requires
            r > 0,
    ;
    if j > 0 {
        assert(j * r >= r) by (nonlinear_arith)
            requires
                j >= 1,
                r > 0,
        ;
    }
    if s <= r {
        assert(n == 1);
        assert(j == 0);
    } else {
        let q = (s - 1) / r;
        assert(q * r <= s - 1 < (q + 1) * r) by (nonlinear_arith)
            requires
                q == (s - 1) / r,
                r > 0,
                s >= 1,
        ;
        assert(n == q + 1);
        if j + 1 < n {
            assert((j + 1) * r <= q * r) by (nonlinear_arith)
                requires
                    j + 1 <= q,
                    r > 0,
            ;
            assert((j + 2) * r == (j + 1) * r + r) by (nonlinear_arith);
            if j + 2 < n {
                assert((j + 2) * r <= q * r) by (nonlinear_arith)
                    requires
                        j + 2 <= q,
                        r > 0,
                ;
            }
        } else {
            assert(j == q);
            assert(j * r <= s - 1);
        }
    }
}

/// The state after `s`, where `skipped` tells whether the chunk of `s` could not be read:
/// the next chunk starts where the one of `s` ended and is `read_size` bytes long or ends
/// with the range (then the last), or the scan ends when the range is done.
pub open spec fn next_state(s: ScanState, skipped: bool) -> ScanState {
    match s.status {
        ScanStatus::Begin | ScanStatus::Middle(_) => {
            let till = s.scan_range.end_addr - s.buf_range.end_addr;
            let (end, status) = if till == 0 {
                (s.scan_range.end_addr, ScanStatus::End)
            } else if till <= s.read_size {
                (s.scan_range.end_addr, ScanStatus::Last(skipped))
            } else {
                ((s.buf_range.end_addr + s.read_size) as usize, ScanStatus::Middle(skipped))
            };
            ScanState {
                buf_range: AddressRange { start_addr: s.buf_range.end_addr, end_addr: end },
                read_size: s.read_size,
                scan_range: s.scan_range,
                status,
            }
        },
        _ => ScanState { status: ScanStatus::End, ..s },
    }
}

/// The state a scan by plan `p` starts in: its first chunk, at the start of the range.
pub open spec fn first_state(p: ScanPlan) -> ScanState {
    ScanState {
        buf_range: AddressRange { start_addr: p.start as usize, end_addr: chunk_end(p, 0) as usize },
        read_size: p.rs as usize,
        scan_range: AddressRange { start_addr: p.start as usize, end_addr: p.end as usize },
        status: ScanStatus::Begin,
    }
}

/// The state reached from `s` by one step per entry of `skips`, each telling whether the
/// chunk of that step could not be read.
pub open spec fn walk(s: ScanState, skips: Seq<bool>) -> ScanState
    decreases skips.len(),
{
    if skips.len() == 0 {
        s
    } else {
        next_state(walk(s, skips.drop_last()), skips.last())
    }
}

/// What the next chunk is, as the buffer computes it.
fn next_chunk(state: ScanState, skipped_last: bool) -> (r: ScanState)
    requires
        range_wf(state.buf_range),
        range_wf(state.scan_range),
        state.buf_range.end_addr <= state.scan_range.end_addr,
        state.status != ScanStatus::End ==> state.read_size > 0,
    ensures
        r == next_state(state, skipped_last),
{
    match state.status {
        ScanStatus::Begin | ScanStatus::Middle(_) => {
            let new_start = state.buf_range.end_addr;
            let bytes_till_end = state.scan_range.end_addr - state.buf_range.end_addr;
            let (new_end, new_status) = if bytes_till_end == 0 {
                (state.scan_range.end_addr, ScanStatus::End)
            } else if bytes_till_end <= state.read_size {
                (state.scan_range.end_addr, ScanStatus::Last(skipped_last))
            } else {
                (new_start + state.read_size, ScanStatus::Middle(skipped_last))
            };
            ScanState {
                buf_range: AddressRange { start_addr: new_start, end_addr: new_end },
                read_size: state.read_size,
                scan_range: state.scan_range,
                status: new_status,
            }
        },
        _ => ScanState {
            buf_range: state.buf_range,
            read_size: state.read_size,
            scan_range: state.scan_range,
            status: ScanStatus::End,
        },
    }
}

/// A buffer that reads a continuous block of another process's memory.
/// Memory is read and scanned `read_size` bytes at a time.
pub struct Buffer<T: Reader> {
    buf: Boros,
    reader: T,
    read_size: usize,
}

impl<T: Reader> Buffer<T> {
    /// The number of bytes read at a time.
    pub closed spec fn spec_read_size(&self) -> nat {
        self.read_size as nat
    }

    /// The internal buffer.
    pub closed spec fn boros(&self) -> Boros {
        self.buf
    }

    /// The reads the buffer's reader answered, oldest first.
    pub closed spec fn reader_log(&self) -> Seq<ReadEvent> {
        self.reader.read_log()
    }

    /// The buffer's internal state is consistent.
    pub open spec fn wf(&self) -> bool {
        &&& self.spec_read_size() % (ALIGN_SIZE as nat) == 0
        &&& self.boros().wf()
    }

    /// Creates a new Buffer reading from the given reader, `read_size` bytes at a time.
    ///
    /// `read_size` should ideally be in the megabytes.
    pub fn new(reader: T, read_size: usize) -> (b: Buffer<T>)
        requires
            read_size % ALIGN_SIZE == 0,
        ensures
            b.wf(),
            b.spec_read_size() == read_size,
            b.boros().contents() == Seq::new(4, |i: int| 0u8),
            b.boros()@.head_size == 2,
            b.reader_log() == reader.read_log(),
    {
        Buffer { buf: Boros::new(2, 2), reader, read_size }
    }

    /// The plan of a full scan of `scan_range` for `pattern`.
    pub open spec fn plan<P: ScanPattern>(&self, pattern: &P, scan_range: AddressRange, lazy: bool) -> ScanPlan {
        scan_plan(pattern, scan_range, self.spec_read_size(), lazy)
    }

    /// Scans the chunk just read, as its status prescribes.
    fn scan_chunk<P: ScanPattern>(&self, state: &ScanState, pattern: &P) -> (r: Vec<ScanMatch>)
        requires
            self.wf(),
            pattern.wf(),
            0 < pattern.spec_window().len(),
            range_wf(state.buf_range),
            state.status != ScanStatus::End,
            self.boros()@.tail_size >= state.buf_range.end_addr - state.buf_range.start_addr,
            state.status != ScanStatus::Begin ==> state.buf_range.start_addr >= self.boros()@.head_size,
            (state.status is Begin || state.status is Middle) ==> state.buf_range.start_addr
                + self.boros()@.tail_size <= usize::MAX,
            state.status is Last ==> state.buf_range.end_addr <= usize::MAX,
        ensures
            matches_view(r@) == {
                let b = self.boros();
                let size = state.buf_range.end_addr - state.buf_range.start_addr;
                let start = state.buf_range.start_addr as int;
                let (base, buf) = match state.status {
                    ScanStatus::Begin => (start, b.spec_tail().subrange(0, size)),
                    ScanStatus::Middle(true) => (start, b.spec_tail().subrange(0, size)),
                    ScanStatus::Middle(false) => (start - b@.head_size, b.contents()),
                    ScanStatus::Last(true) => (start, b.spec_tail().subrange(0, size)),
                    _ => (start - b@.head_size, b.contents().subrange(0, b@.head_size + size)),
                };
                spec_scan(
                    pattern.spec_window(),
                    pattern.spec_window_mask(),
                    pattern.spec_true_len(),
                    base,
                    buf,
                )
            },
    {
        let start = state.buf_range.start_addr;
        let size = state.buf_range.size();
        let h = self.buf.head_len();
        let (base_addr, buf): (usize, &[u8]) = match state.status {
            ScanStatus::Begin => (start, self.buf.tail_immut().split_at(size).0),
            ScanStatus::Middle(skipped_last) => {
                if skipped_last {
                    (start, self.buf.tail_immut().split_at(size).0)
                } else {
                    (start - h, self.buf.full())
                }
            },
            ScanStatus::Last(skipped_last) => {
                if skipped_last {
                    (start, self.buf.tail_immut().split_at(size).0)
                } else {
                    let f = self.buf.full();
                    (start - h, f.split_at(h + size).0)
                }
            },
            ScanStatus::End => (start, self.buf.full()),
        };
        proof {
            pattern.lemma_wf();
        }
        if buf.len() < pattern.len() {
            return Vec::new();
        }
        pattern.scan_buffer(base_addr, buf)
    }

    /// Reads `range` into the front of the tail. Returns whether the read succeeded and
    /// filled the whole range.
    fn load_chunk(&mut self, range: AddressRange) -> (loaded: bool)
        requires
            old(self).wf(),
            range_wf(range),
            range.end_addr - range.start_addr <= old(self).boros()@.tail_size,
        ensures
            final(self).wf(),
            final(self).spec_read_size() == old(self).spec_read_size(),
            final(self).boros()@.head_size == old(self).boros()@.head_size,
            final(self).boros()@.tail_size == old(self).boros()@.tail_size,
            final(self).boros().spec_head() == old(self).boros().spec_head(),
            final(self).boros().spec_tail().subrange(
                range.end_addr - range.start_addr,
                old(self).boros()@.tail_size as int,
            ) == old(self).boros().spec_tail().subrange(
                range.end_addr - range.start_addr,
                old(self).boros()@.tail_size as int,
            ),
            final(self).reader_log().len() == old(self).reader_log().len() + 1,
            log_extends(old(self).reader_log(), final(self).reader_log()),
            final(self).reader_log().last().addr == range.start_addr,
            final(self).reader_log().last().size == range.end_addr - range.start_addr,
            loaded <==> read_bytes(final(self).reader_log().last()) is Some,
            loaded ==> read_bytes(final(self).reader_log().last()) == Some(
                final(self).boros().spec_tail().subrange(0, range.end_addr - range.start_addr),
            ),
    {
        let size = range.size();
        let tail = self.buf.tail();
        let (dst, rest) = tail.split_at_mut(size);
        let res = self.reader.read_range(range, dst);
        let _ = rest;
        proof {
            assert(self.reader_log().subrange(0, old(self).reader_log().len() as int) =~= old(self).reader_log());
        }
        read_filled(&res, size)
    }


    /// Scans the entire range for the given pattern, returning all results.
    ///
    /// The range is read `read_size` bytes at a time. Each chunk is scanned together
    /// with the end of the previous one, so that matches across chunk boundaries are
    /// found. If `lazy` is set, the scan returns as soon as a chunk yields a match.
    ///
    /// A chunk that cannot be read (an error, or fewer bytes than asked for) is skipped
    /// and yields nothing. Only windows that lie in the range are looked at.
    ///
    /// The reader is asked for each chunk in turn, and the matches are those that
    /// [`scan_loads`] finds for the bytes the reads gave. Over reads that return the
    /// memory, they are those of a scan of the whole range at once
    /// ([`lemma_scan_of_memory`]), and a lazy scan's are a first part of them
    /// ([`lemma_lazy_scan_of_same_memory`]); where some reads fail, each match still
    /// holds the memory at its address ([`lemma_scan_matches_memory`]).
    #[verifier::spinoff_prover]
    #[verifier::rlimit(40)]
    pub fn full_scan<P: ScanPattern>(&mut self, pattern: &P, scan_range: AddressRange, lazy: bool) -> (r: (
        ChunkScanResult,
        ScanTime,
    ))
        requires
            old(self).wf(),
            pattern.wf(),
            0 < pattern.spec_window().len() <= old(self).spec_read_size(),
            range_wf(scan_range),
            scan_range.start_addr % ALIGN_SIZE == 0,
            scan_range.start_addr + old(self).spec_read_size() <= usize::MAX,
            old(self).plan(pattern, scan_range, lazy).head + old(self).spec_read_size() <= usize::MAX,
        ensures
            final(self).wf(),
            final(self).spec_read_size() == old(self).spec_read_size(),
            r.0.range == scan_range,
            r.0.pattern.wf(),
            r.0.pattern@.0 == pattern.spec_window().subrange(0, pattern.spec_true_len() as int),
            r.0.pattern@.1 == match pattern.spec_window_mask() {
                None => None,
                Some(m) => Some(m.subrange(0, pattern.spec_true_len() as int)),
            },
            r.1.range@ == seq![scan_range],
            log_extends(old(self).reader_log(), final(self).reader_log()),
            scan_reads(
                old(self).plan(pattern, scan_range, lazy),
                new_reads(old(self).reader_log(), final(self).reader_log()),
            ),
            matches_view(r.0.matches@) == scan_from(
                old(self).plan(pattern, scan_range, lazy),
                loads_of(new_reads(old(self).reader_log(), final(self).reader_log())),
                0,
            ),
    {
        let init_start = clock_now();
        proof {
            pattern.lemma_wf();
        }
        let ghost p = self.plan(pattern, scan_range, lazy);
        let (padded_pattern_size, _) = get_aligned_pattern_size(pattern);
        let head_size = padded_pattern_size - ALIGN_SIZE;
        let read_size = self.read_size;
        if self.buf.head_len() != head_size || self.buf.tail_len() != read_size {
            self.buf = Boros::new(head_size, read_size);
        }
        let mut results: Vec<ScanMatch> = Vec::new();
        let first_end = if scan_range.end_addr <= scan_range.start_addr + read_size {
            scan_range.end_addr
        } else {
            scan_range.start_addr + read_size
        };
        let mut state = ScanState {
            buf_range: AddressRange { start_addr: scan_range.start_addr, end_addr: first_end },
            read_size,
            scan_range,
            status: ScanStatus::Begin,
        };
        let init_time = nanos_since(&init_start);
        let mut load_time: u128 = 0;
        let mut scan_time: u128 = 0;
        let mut state_time: u128 = 0;
        let ghost mut loads: Seq<Option<Seq<u8>>> = Seq::empty();
        let ghost mut j: nat = 0;
        let ghost start_log = self.reader_log();
        proof {
            assert(self.reader_log().subrange(0, start_log.len() as int) =~= start_log);
            assert(loads =~= loads_of(new_reads(start_log, self.reader_log())));
            lemma_chunk_geometry(p, 0);
            assert(chunk_end(p, 0) == first_end) by (nonlinear_arith)
                requires
                    chunk_end(p, 0) == (if p.start + (0 + 1) * p.rs <= p.end {
                        p.start + (0 + 1) * p.rs
                    } else {
                        p.end
                    }),
                    p.start == scan_range.start_addr,
                    p.end == scan_range.end_addr,
                    p.rs == read_size,
                    first_end as int == (if scan_range.end_addr <= scan_range.start_addr + read_size {
                        scan_range.end_addr as int
                    } else {
                        scan_range.start_addr + read_size
                    }),
            ;
        }
        loop
            invariant_except_break
                self.wf(),
                pattern.wf(),
                0 < pattern.spec_window().len() <= p.rs,
                mask_fits_window(pattern),
                p == old(self).plan(pattern, scan_range, lazy),
                p.rs > 0,
                p.start <= p.end,
                p.start + p.rs <= usize::MAX,
                p.head < p.rs,
                self.spec_read_size() == p.rs,
                read_size == p.rs,
                self.boros()@.head_size == p.head,
                self.boros()@.tail_size == p.rs,
                j < plan_chunks(p),
                loads.len() == j,
                loads_fit(p, loads),
                state_matches(state, p, j, j > 0 && loads[j - 1] is None),
                j > 0 && loads[j - 1] is Some ==> self.boros().spec_head() == loads[j - 1].unwrap().subrange(
                    p.rs - p.head,
                    p.rs as int,
                ),
                matches_view(results@) == found_upto(p, loads, j),
                forall|i: nat| i < j ==> !#[trigger] stops_after(p, loads, i),
                start_log == old(self).reader_log(),
                log_extends(start_log, self.reader_log()),
                loads == loads_of(new_reads(start_log, self.reader_log())),
                chunk_reads(p, new_reads(start_log, self.reader_log())),
            ensures
                self.wf(),
                self.spec_read_size() == old(self).spec_read_size(),
                log_extends(start_log, self.reader_log()),
                scan_reads(p, new_reads(start_log, self.reader_log())),
                matches_view(results@) == scan_from(p, loads_of(new_reads(start_log, self.reader_log())), 0),
            decreases plan_chunks(p) - j,
        {
            proof {
                lemma_chunk_geometry(p, j);
            }
            let load_start = clock_now();
            let ghost before = self.boros();
            let ghost before_log = self.reader_log();
            let loaded = self.load_chunk(state.buf_range);
            let load_duration = nanos_since(&load_start);
            let ghost size = chunk_end(p, j) - chunk_start(p, j);
            let ghost data = self.boros().spec_tail().subrange(0, size);
            let ghost old_loads = loads;
            proof {
                lemma_log_push(start_log, before_log, self.reader_log());
                lemma_chunk_reads_push(p, new_reads(start_log, before_log), self.reader_log().last());
                loads = loads.push(if loaded { Some(data) } else { None });
                lemma_found_upto_prefix(p, old_loads, loads, j);
                assert forall|i: nat| i < j implies !#[trigger] stops_after(p, loads, i) by {
                    assert(!stops_after(p, old_loads, i));
                    lemma_found_upto_prefix(p, old_loads, loads, i + 1);
                }
                assert(loads_fit(p, loads));
            }
            let scan_start = clock_now();
            let mut chunk_scan: Vec<ScanMatch> = if loaded {
                self.scan_chunk(&state, pattern)
            } else {
                Vec::new()
            };
            proof {
                if loaded {
                    lemma_tail_split(before.spec_tail(), self.boros().spec_tail(), size as nat);
                    self.boros_parts();
                    if j > 0 && loads[j - 1] is Some {
                        assert(self.boros().contents().subrange(0, p.head + size) == loads[j - 1].unwrap().subrange(
                            p.rs - p.head,
                            p.rs as int,
                        ) + data);
                    }
                }
            }
            let scan_duration = nanos_since(&scan_start);
            let ghost prev_results = results@;
            results.append(&mut chunk_scan);
            proof {
                assert(matches_view(results@) =~= matches_view(prev_results) + chunk_found(p, loads, j));
            }
            let state_start = clock_now();
            state = next_chunk(state, !loaded);
            proof {
                if j + 1 < plan_chunks(p) {
                    lemma_chunk_geometry(p, j + 1);
                }
            }
            let swallow = match state.status {
                ScanStatus::Begin => true,
                ScanStatus::Middle(skipped_last) => !skipped_last,
                ScanStatus::Last(skipped_last) => !skipped_last,
                ScanStatus::End => false,
            };
            if state.status == ScanStatus::End {
                proof {
                    lemma_scan_from_stop(p, loads, j);
                }
                break ;
            }
            if swallow {
                let ghost pre = self.boros();
                self.buf.swallow_tail();
                proof {
                    lemma_swallow_head(pre.contents(), p.head, p.rs);
                }
            }
            let state_duration = nanos_since(&state_start);
            load_time = load_time.saturating_add(load_duration);
            scan_time = scan_time.saturating_add(scan_duration);
            state_time = state_time.saturating_add(state_duration);
            if lazy && results.len() > 0 {
                proof {
                    lemma_scan_from_stop(p, loads, j);
                }
                break ;
            }
            proof {
                j = j + 1;
            }
        }
        let mut range: Vec<AddressRange> = Vec::new();
        range.push(scan_range);
        (
            ChunkScanResult {
                pattern: BytePattern::from_pattern(pattern),
                matches: results,
                range: scan_range,
            },
            ScanTime {
                range,
                init_time,
                read_time: load_time,
                lock_time: 0,
                scan_time,
                state_time,
            },
        )
    }

    /// The parts of the internal buffer.
    proof fn boros_parts(&self)
        requires
            self.boros().wf(),
        ensures
            self.boros().contents() == self.boros().spec_head() + self.boros().spec_tail(),
    {
        crate::boros::lemma_boros_parts(self.boros());
    }

    /// Finds the first match in the range: a lazy scan, keeping its first match, which is
    /// the first match a full scan of the same memory finds
    /// ([`lemma_lazy_scan_of_same_memory`]).
    pub fn find_one<P: ScanPattern>(&mut self, pattern: &P, scan_range: AddressRange) -> (r: (
        Option<ScanMatch>,
        ScanTime,
    ))
        requires
            old(self).wf(),
            pattern.wf(),
            0 < pattern.spec_window().len() <= old(self).spec_read_size(),
            range_wf(scan_range),
            scan_range.start_addr % ALIGN_SIZE == 0,
            scan_range.start_addr + old(self).spec_read_size() <= usize::MAX,
            old(self).plan(pattern, scan_range, true).head + old(self).spec_read_size() <= usize::MAX,
        ensures
            final(self).wf(),
            final(self).spec_read_size() == old(self).spec_read_size(),
            r.1.range@ == seq![scan_range],
            log_extends(old(self).reader_log(), final(self).reader_log()),
            scan_reads(
                old(self).plan(pattern, scan_range, true),
                new_reads(old(self).reader_log(), final(self).reader_log()),
            ),
            ({
                let found = scan_from(
                    old(self).plan(pattern, scan_range, true),
                    loads_of(new_reads(old(self).reader_log(), final(self).reader_log())),
                    0,
                );
                match r.0 {
                    Some(m) => found.len() > 0 && m@ == found[0],
                    None => found.len() == 0,
                }
            }),
    {
        let (chunk_scan_result, scan_time) = self.full_scan(pattern, scan_range, true);
        let ghost found = matches_view(chunk_scan_result.matches@);
        assert(found.len() == chunk_scan_result.matches@.len());
        if chunk_scan_result.matches.len() > 0 {
            assert(found[0] == chunk_scan_result.matches@[0]@);
            let mut matches = chunk_scan_result.matches;
            let first = matches.remove(0);
            (Some(first), scan_time)
        } else {
            (None, scan_time)
        }
    }

}


/// A well-formed pattern's mask fits its window.
pub open spec fn mask_fits_window<P: ScanPattern>(pattern: &P) -> bool {
    &&& crate::pattern_scan::mask_fits(pattern.spec_window(), pattern.spec_window_mask())
    &&& pattern.spec_true_len() <= pattern.spec_window().len()
}

/// The matches of the first `j` chunks depend only on the first `j` reads.
proof fn lemma_found_upto_prefix(
    p: ScanPlan,
    l1: Seq<Option<Seq<u8>>>,
    l2: Seq<Option<Seq<u8>>>,
    j: nat,
)
    requires
        l1.len() >= j,
        l2.len() >= j,
        forall|k: int| 0 <= k < j ==> l1[k] == l2[k],
    ensures
        found_upto(p, l1, j) == found_upto(p, l2, j),
    decreases j,
{
    if j > 0 {
        lemma_found_upto_prefix(p, l1, l2, (j - 1) as nat);
        let i = (j - 1) as nat;
        assert(l1[i as int] == l2[i as int]);
        if i > 0 {
            assert(l1[i - 1] == l2[i - 1]);
        }
        assert(l1[0] == l2[0]);
        assert(chunk_found(p, l1, i) == chunk_found(p, l2, i));
    }
}

/// A scan that did not stop before chunk `j` and stops after it found exactly the
/// matches of chunks `0..=j`.
proof fn lemma_scan_from_stop(p: ScanPlan, loads: Seq<Option<Seq<u8>>>, j: nat)
    requires
        j < plan_chunks(p),
        forall|i: nat| i < j ==> !#[trigger] stops_after(p, loads, i),
        stops_after(p, loads, j),
    ensures
        scan_from(p, loads, 0) == found_upto(p, loads, j + 1),
{
    lemma_scan_from_at(p, loads, 0, j);
}

proof fn lemma_scan_from_at(p: ScanPlan, loads: Seq<Option<Seq<u8>>>, k: nat, j: nat)
    requires
        k <= j < plan_chunks(p),
        forall|i: nat| i < j ==> !#[trigger] stops_after(p, loads, i),
        stops_after(p, loads, j),
    ensures
        scan_from(p, loads, k) == found_upto(p, loads, j + 1),
    decreases j - k,
{
    if k < j {
        assert(!stops_after(p, loads, k));
        lemma_scan_from_at(p, loads, k + 1, j);
    }
}

/// After a read of `size` bytes into the front of the tail, the tail is what was read
/// followed by what was there before.
proof fn lemma_tail_split(before: Seq<u8>, after: Seq<u8>, size: nat)
    requires
        before.len() == after.len(),
        size <= after.len(),
        after.subrange(size as int, after.len() as int) == before.subrange(
            size as int,
            before.len() as int,
        ),
    ensures
        after == after.subrange(0, size as int) + before.subrange(size as int, before.len() as int),
{
    assert(after =~= after.subrange(0, size as int) + before.subrange(size as int, before.len() as int));
}

/// Swallowing the tail puts the last `h` bytes of the tail in the head.
proof fn lemma_swallow_head(c: Seq<u8>, h: nat, rs: nat)
    requires
        c.len() == h + rs,
        h <= rs,
    ensures
        spec_swallow(c, h).subrange(0, h as int) == c.subrange(h as int, c.len() as int).subrange(
            rs - h,
            rs as int,
        ),
        spec_swallow(c, h).subrange(h as int, c.len() as int) == c.subrange(h as int, c.len() as int),
{
    assert(spec_swallow(c, h).subrange(0, h as int) =~= c.subrange(h as int, c.len() as int).subrange(
        rs - h,
        rs as int,
    ));
    assert(spec_swallow(c, h).subrange(h as int, c.len() as int) =~= c.subrange(h as int, c.len() as int));
}


/// The index of the first aligned window (of the whole range) that chunk `j` looks at.
pub open spec fn chunk_lo(p: ScanPlan, j: nat) -> nat {
    if j == 0 {
        0
    } else {
        ((j * p.rs - p.head) / (ALIGN_SIZE as int)) as nat
    }
}

/// How many bytes are scanned for chunk `j` when every read succeeds and fills its chunk.
pub open spec fn chunk_buf_len(p: ScanPlan, j: nat) -> nat {
    if j == 0 {
        p.rs
    } else {
        (p.head + (chunk_end(p, j) - chunk_start(p, j))) as nat
    }
}

/// One past the index of the last aligned window that chunk `j` looks at.
pub open spec fn chunk_hi(p: ScanPlan, j: nat) -> nat {
    chunk_lo(p, j) + window_count(chunk_buf_len(p, j), p.v.len())
}

/// The reads of a scan in which every chunk was read in full from `mem`, the bytes of
/// the range.
pub open spec fn reads_of(p: ScanPlan, mem: Seq<u8>, loads: Seq<Option<Seq<u8>>>) -> bool {
    &&& loads.len() >= plan_chunks(p)
    &&& forall|j: int|
        0 <= j < plan_chunks(p) ==> #[trigger] loads[j] == Some(
            mem.subrange(chunk_start(p, j as nat) - p.start, chunk_end(p, j as nat) - p.start),
        )
}

/// The shape of a plan that [`Buffer::full_scan`] makes: the head is the pattern's
/// length rounded up to the alignment, less one word, and fits in a chunk.
pub open spec fn plan_shape(p: ScanPlan) -> bool {
    &&& mask_fits(p.v, p.m)
    &&& p.tlen <= p.v.len()
    &&& 0 < p.v.len() <= p.rs
    &&& p.rs % (ALIGN_SIZE as nat) == 0
    &&& p.head + (ALIGN_SIZE as nat) == p.v.len() + align_pad(p.v.len())
    &&& p.start <= p.end
}

/// Where chunk `j`'s windows start and end, in windows of the whole range.
#[verifier::spinoff_prover]
#[verifier::rlimit(50)]
proof fn lemma_chunk_windows(p: ScanPlan, j: nat)
    requires
        plan_shape(p),
        p.end - p.start >= p.rs,
        j < plan_chunks(p),
    ensures
        j > 0 ==> j * p.rs >= p.head && (j * p.rs - p.head) == (ALIGN_SIZE as int) * chunk_lo(p, j),
        chunk_lo(p, j) <= chunk_hi(p, j),
        j + 1 < plan_chunks(p) ==> chunk_hi(p, j) == chunk_lo(p, j + 1),
        j + 1 == plan_chunks(p) ==> chunk_hi(p, j) == window_count(
            (p.end - p.start) as nat,
            p.v.len(),
        ),
        chunk_hi(p, j) > chunk_lo(p, j) ==> (ALIGN_SIZE as int) * (chunk_hi(p, j) - chunk_lo(p, j) - 1)
            + p.v.len() <= chunk_buf_len(p, j),
{
    lemma_chunk_geometry(p, j);
    let r = p.rs as int;
    let len = p.v.len() as int;
    let pad = align_pad(p.v.len()) as int;
    let padded = len + pad;
    let h = p.head as int;
    let s = p.end - p.start;
    let x = j * r;
    let t = r / 4;
    assert(r == 4 * t);
    assert(x == 4 * (j * t) && j * t >= 0) by (nonlinear_arith)
        requires
            r == 4 * t,
            x == j * r,
            j >= 0,
            t >= 0,
    ;
    assert(x % 4 == 0 && x >= 0);
    assert(padded % 4 == 0 && 0 <= pad < 4);
    assert(r >= padded);
    assert((j + 1) * r == x + r) by (nonlinear_arith)
        requires
            x == j * r,
    ;
    if j > 0 {
        assert(x >= r) by (nonlinear_arith)
            requires
                x == j * r,
                j >= 1,
                r > 0,
        ;
    }
    // chunk j's buffer length and window count
    let lbuf = chunk_buf_len(p, j) as int;
    let cnt = window_count(chunk_buf_len(p, j), p.v.len()) as int;
    if lbuf >= len {
        assert(4 * ((lbuf - len) / 4) <= lbuf - len);
    }
    if j + 1 < plan_chunks(p) {
        let y = x + r;
        assert(y % 4 == 0);
        assert((y - h) / 4 == (y - padded) / 4 + 1);
        assert((y - len) / 4 == (y - padded) / 4);
        if j == 0 {
            assert(lbuf == r);
            assert(cnt == (r - len) / 4 + 1);
        } else {
            assert(lbuf == h + r);
            assert((x - h) % 4 == 0);
            assert(cnt == (h + r - len) / 4 + 1);
            assert((x - h) / 4 + (h + r - len) / 4 == (y - len) / 4);
        }
    } else {
        assert(chunk_end(p, j) == p.end);
        if j == 0 {
            assert(s == r) by {
                assert(plan_chunks(p) == 1);
            }
        } else {
            assert(lbuf == h + (s - x));
            assert(x <= s);
            assert((x - h) % 4 == 0);
            if lbuf >= len {
                assert((x - h) / 4 + (lbuf - len) / 4 == (s - len) / 4);
            } else {
                assert(s - len < x - h);
                assert((s - len) / 4 + 1 <= (x - h) / 4);
                assert((x - padded) <= s - len);
                assert((x - h) / 4 == (x - padded) / 4 + 1);
                assert((x - padded) / 4 <= (s - len) / 4);
            }
        }
    }
}

/// Chunk `j` of a scan whose reads are correct finds the matches of its windows of the
/// whole range.
proof fn lemma_chunk_found_between(p: ScanPlan, loads: Seq<Option<Seq<u8>>>, mem: Seq<u8>, j: nat)
    requires
        plan_shape(p),
        p.end - p.start >= p.rs,
        mem.len() == p.end - p.start,
        reads_of(p, mem, loads),
        j < plan_chunks(p),
    ensures
        chunk_found(p, loads, j) == scan_between(
            p.v,
            p.m,
            p.tlen,
            p.start,
            mem,
            chunk_lo(p, j),
            chunk_hi(p, j),
        ),
{
    lemma_chunk_geometry(p, j);
    lemma_chunk_windows(p, j);
    let lo = chunk_lo(p, j);
    let hi = chunk_hi(p, j);
    let n = (hi - lo) as nat;
    assert(loads[j as int] == Some(
        mem.subrange(chunk_start(p, j) - p.start, chunk_end(p, j) - p.start),
    ));
    if j == 0 {
        assert(chunk_start(p, 0) == p.start) by (nonlinear_arith)
            requires
                chunk_start(p, 0) == p.start + 0 * p.rs,
        ;
        let buf = loads[0].unwrap();
        assert(buf =~= mem.subrange(0, p.rs as int));
        lemma_windows_between(p.v, p.m, p.tlen, p.start, buf, n);
        lemma_between_shift(p.v, p.m, p.tlen, p.start, mem, buf, 0, n);
        assert(p.start + (ALIGN_SIZE as int) * 0 == p.start);
    } else {
        assert(loads[j - 1] == Some(
            mem.subrange(chunk_start(p, (j - 1) as nat) - p.start, chunk_end(p, (j - 1) as nat) - p.start),
        ));
        lemma_chunk_geometry(p, (j - 1) as nat);
        let prev = loads[j - 1].unwrap();
        if j - 1 == 0 {
            assert(prev =~= loads[0].unwrap());
        }
        let o = chunk_start(p, j) - p.start - p.head;
        let buf = chunk_view(p, loads, j).1;
        assert(chunk_start(p, j) - p.start == j * p.rs);
        assert(buf =~= mem.subrange(o, chunk_end(p, j) - p.start));
        assert(o == (ALIGN_SIZE as int) * lo);
        lemma_windows_between(p.v, p.m, p.tlen, chunk_view(p, loads, j).0, buf, n);
        lemma_between_shift(p.v, p.m, p.tlen, p.start, mem, buf, lo, n);
    }
}

/// The matches of the first `j + 1` chunks are those of the windows `0..chunk_hi(j)`.
proof fn lemma_found_upto_between(p: ScanPlan, loads: Seq<Option<Seq<u8>>>, mem: Seq<u8>, j: nat)
    requires
        plan_shape(p),
        p.end - p.start >= p.rs,
        mem.len() == p.end - p.start,
        reads_of(p, mem, loads),
        j < plan_chunks(p),
    ensures
        found_upto(p, loads, j + 1) == scan_between(p.v, p.m, p.tlen, p.start, mem, 0, chunk_hi(p, j)),
    decreases j,
{
    lemma_chunk_found_between(p, loads, mem, j);
    lemma_chunk_windows(p, j);
    if j == 0 {
        assert(found_upto(p, loads, 0) == Seq::<MatchView>::empty());
        assert(found_upto(p, loads, 1) =~= chunk_found(p, loads, 0));
    } else {
        lemma_found_upto_between(p, loads, mem, (j - 1) as nat);
        lemma_chunk_windows(p, (j - 1) as nat);
        lemma_between_concat(p.v, p.m, p.tlen, p.start, mem, 0, chunk_lo(p, j), chunk_hi(p, j));
    }
}

/// A full scan (not lazy) whose reads all succeed and return the memory of the range
/// finds exactly what a scan of the whole range at once finds: reading in chunks loses
/// no match, finds none twice, and finds none outside the range.
pub proof fn lemma_full_scan_is_whole_scan(p: ScanPlan, loads: Seq<Option<Seq<u8>>>, mem: Seq<u8>)
    requires
        plan_shape(p),
        !p.lazy,
        mem.len() == p.end - p.start,
        reads_of(p, mem, loads),
    ensures
        scan_from(p, loads, 0) == spec_scan(p.v, p.m, p.tlen, p.start, mem),
{
    if p.end - p.start < p.rs {
        assert(plan_chunks(p) == 1);
        assert(stops_after(p, loads, 0));
        assert(chunk_start(p, 0) == p.start) by (nonlinear_arith)
            requires
                chunk_start(p, 0) == p.start + 0 * p.rs,
        ;
        assert(chunk_end(p, 0) == p.end) by (nonlinear_arith)
            requires
                chunk_end(p, 0) == (if p.start + (0 + 1) * p.rs <= p.end {
                    p.start + (0 + 1) * p.rs
                } else {
                    p.end
                }),
                p.end - p.start < p.rs,
        ;
        assert(loads[0] == Some(mem.subrange(0, p.end - p.start)));
        assert(mem.subrange(0, p.end - p.start) =~= mem);
        assert(found_upto(p, loads, 0) == Seq::<MatchView>::empty());
        assert(found_upto(p, loads, 1) =~= chunk_found(p, loads, 0));
    } else {
        let n = plan_chunks(p);
        assert(n >= 1);
        assert forall|i: nat| i < (n - 1) as nat implies !#[trigger] stops_after(p, loads, i) by {}
        lemma_scan_from_stop(p, loads, (n - 1) as nat);
        lemma_found_upto_between(p, loads, mem, (n - 1) as nat);
        lemma_chunk_windows(p, (n - 1) as nat);
        lemma_windows_between(p.v, p.m, p.tlen, p.start, mem, window_count(mem.len(), p.v.len()));
    }
}

/// What the reads of a scan gave, as bytes: the bytes read, or nothing where a read
/// failed.
pub open spec fn loads_view(loads: Seq<Option<Vec<u8>>>) -> Seq<Option<Seq<u8>>> {
    Seq::new(
        loads.len(),
        |i: int|
            match loads[i] {
                Some(v) => Some(v@),
                None => None,
            },
    )
}

/// The matches that a scan of `scan_range` for `pattern`, reading `read_size` bytes at a
/// time, finds when its reads gave `loads` (`None` where a read failed): what
/// [`Buffer::full_scan`] returns after those reads.
pub fn scan_loads<P: ScanPattern>(
    pattern: &P,
    scan_range: AddressRange,
    read_size: usize,
    lazy: bool,
    loads: &Vec<Option<Vec<u8>>>,
) -> (r: Vec<ScanMatch>)
    requires
        pattern.wf(),
        0 < pattern.spec_window().len() <= read_size,
        read_size % ALIGN_SIZE == 0,
        range_wf(scan_range),
        scan_range.start_addr + read_size <= usize::MAX,
        loads@.len() >= plan_chunks(scan_plan(pattern, scan_range, read_size as nat, lazy)),
        loads_fit(scan_plan(pattern, scan_range, read_size as nat, lazy), loads_view(loads@)),
    ensures
        matches_view(r@) == scan_from(scan_plan(pattern, scan_range, read_size as nat, lazy), loads_view(loads@), 0),
{
    proof {
        pattern.lemma_wf();
    }
    let ghost p = scan_plan(pattern, scan_range, read_size as nat, lazy);
    let ghost lv = loads_view(loads@);
    let plen = pattern.len();
    let pad = (ALIGN_SIZE - plen % ALIGN_SIZE) % ALIGN_SIZE;
    assert(pad == align_pad(plen as nat));
    assert(plen + pad <= read_size);
    let head = plen + pad - ALIGN_SIZE;
    let end = scan_range.end_addr;
    let mut cs: usize = scan_range.start_addr;
    let mut j: usize = 0;
    let mut results: Vec<ScanMatch> = Vec::new();
    loop
        invariant_except_break
            pattern.wf(),
            0 < pattern.spec_window().len() <= p.rs,
            plen == pattern.spec_window().len(),
            p == scan_plan(pattern, scan_range, read_size as nat, lazy),
            lv == loads_view(loads@),
            head == p.head,
            p.head < p.rs,
            p.rs == read_size,
            p.rs > 0,
            p.start <= p.end,
            p.start + p.rs <= usize::MAX,
            end == p.end,
            loads@.len() >= plan_chunks(p),
            loads_fit(p, lv),
            j < plan_chunks(p),
            cs == chunk_start(p, j as nat),
            matches_view(results@) == found_upto(p, lv, j as nat),
            forall|i: nat| i < j ==> !#[trigger] stops_after(p, lv, i),
        ensures
            matches_view(results@) == scan_from(p, lv, 0),
        decreases plan_chunks(p) - j,
    {
        proof {
            lemma_chunk_geometry(p, j as nat);
            if j == 0 {
                assert(plan_chunks(p) == 1 <==> p.end - p.start <= p.rs);
            } else {
                lemma_chunk_geometry(p, (j - 1) as nat);
            }
        }
        let last = end - cs <= read_size;
        proof {
            if j == 0 {
                assert(is_last_chunk(p, 0) <==> last);
            } else {
                assert(is_last_chunk(p, j as nat) <==> last);
            }
        }
        let ce = if last { end } else { cs + read_size };
        assert(ce == chunk_end(p, j as nat));
        let chunk: Vec<ScanMatch> = match &loads[j] {
            None => Vec::new(),
            Some(data) => {
                assert(lv[j as int] == Some(data@));
                assert(data@.len() == ce - cs);
                let fresh = j == 0 || loads[j - 1].is_none();
                if fresh {
                    if data.len() < plen {
                        Vec::new()
                    } else {
                        pattern.scan_buffer(cs, data.as_slice())
                    }
                } else {
                    let prev = match &loads[j - 1] {
                        Some(v) => v,
                        None => data,
                    };
                    assert(lv[j - 1] == Some(prev@));
                    assert(prev@.len() == p.rs);
                    let tail_part = crate::util::copy_range(prev.as_slice(), read_size - head, read_size);
                    let buf = crate::util::concat_vecs(tail_part, crate::util::slice_to_vec(data.as_slice()));
                    if buf.len() < plen {
                        Vec::new()
                    } else {
                        pattern.scan_buffer(cs - head, buf.as_slice())
                    }
                }
            },
        };
        let ghost prev_results = results@;
        let mut chunk = chunk;
        results.append(&mut chunk);
        proof {
            assert(matches_view(results@) =~= matches_view(prev_results) + chunk_found(p, lv, j as nat));
        }
        if last || (lazy && results.len() > 0) {
            proof {
                assert(stops_after(p, lv, j as nat));
                lemma_scan_from_stop(p, lv, j as nat);
            }
            break;
        }
        proof {
            assert(!stops_after(p, lv, j as nat));
        }
        cs = cs + read_size;
        j = j + 1;
    }
    results
}

proof fn lemma_found_upto_ignores_lazy(p: ScanPlan, q: ScanPlan, loads: Seq<Option<Seq<u8>>>, j: nat)
    requires
        q == (ScanPlan { lazy: q.lazy, ..p }),
    ensures
        found_upto(p, loads, j) == found_upto(q, loads, j),
    decreases j,
{
    if j > 0 {
        lemma_found_upto_ignores_lazy(p, q, loads, (j - 1) as nat);
        assert(chunk_found(p, loads, (j - 1) as nat) == chunk_found(q, loads, (j - 1) as nat));
    }
}

proof fn lemma_found_upto_grows(p: ScanPlan, loads: Seq<Option<Seq<u8>>>, a: nat, b: nat)
    requires
        a <= b,
    ensures
        found_upto(p, loads, a).len() <= found_upto(p, loads, b).len(),
        found_upto(p, loads, a) == found_upto(p, loads, b).subrange(0, found_upto(p, loads, a).len() as int),
    decreases b,
{
    if a < b {
        lemma_found_upto_grows(p, loads, a, (b - 1) as nat);
        let x = found_upto(p, loads, (b - 1) as nat);
        let y = found_upto(p, loads, b);
        assert(y == x + chunk_found(p, loads, (b - 1) as nat));
        assert(x == y.subrange(0, x.len() as int));
        assert(found_upto(p, loads, a) =~= y.subrange(0, found_upto(p, loads, a).len() as int));
    } else {
        assert(found_upto(p, loads, a) =~= found_upto(p, loads, b).subrange(0, found_upto(p, loads, a).len() as int));
    }
}

proof fn lemma_full_scan_from(p: ScanPlan, loads: Seq<Option<Seq<u8>>>, j: nat)
    requires
        !p.lazy,
        j < plan_chunks(p),
    ensures
        scan_from(p, loads, j) == found_upto(p, loads, plan_chunks(p)),
    decreases plan_chunks(p) - j,
{
    if !is_last_chunk(p, j) {
        lemma_full_scan_from(p, loads, j + 1);
    }
}

proof fn lemma_lazy_from(pl: ScanPlan, pf: ScanPlan, loads: Seq<Option<Seq<u8>>>, j: nat)
    requires
        pl.lazy,
        pf == (ScanPlan { lazy: false, ..pl }),
        j < plan_chunks(pl),
    ensures
        scan_from(pl, loads, j).len() <= found_upto(pf, loads, plan_chunks(pf)).len(),
        scan_from(pl, loads, j) == found_upto(pf, loads, plan_chunks(pf)).subrange(0, scan_from(pl, loads, j).len() as int),
        scan_from(pl, loads, j).len() == 0 ==> found_upto(pf, loads, plan_chunks(pf)).len() == 0
            || found_upto(pf, loads, j).len() > 0,
    decreases plan_chunks(pl) - j,
{
    let n = plan_chunks(pl);
    lemma_found_upto_ignores_lazy(pl, pf, loads, j + 1);
    lemma_found_upto_ignores_lazy(pl, pf, loads, j);
    lemma_found_upto_grows(pf, loads, j + 1, n);
    lemma_found_upto_grows(pf, loads, j, j + 1);
    if !stops_after(pl, loads, j) {
        lemma_lazy_from(pl, pf, loads, j + 1);
    }
}

/// A lazy scan finds a first part of what the full scan finds over the same reads, and
/// nothing only where the full scan finds nothing: the two agree on the first match.
pub proof fn lemma_lazy_scan_is_prefix(pl: ScanPlan, loads: Seq<Option<Seq<u8>>>)
    requires
        pl.lazy,
        pl.rs > 0,
    ensures
        ({
            let pf = ScanPlan { lazy: false, ..pl };
            let l = scan_from(pl, loads, 0);
            let f = scan_from(pf, loads, 0);
            &&& l.len() <= f.len()
            &&& l == f.subrange(0, l.len() as int)
            &&& (l.len() == 0 <==> f.len() == 0)
            &&& l.len() > 0 ==> l[0] == f[0]
        }),
{
    let pf = ScanPlan { lazy: false, ..pl };
    assert(plan_chunks(pf) == plan_chunks(pl));
    if pl.end - pl.start > pl.rs {
        assert((pl.end - pl.start - 1) / (pl.rs as int) >= 0) by (nonlinear_arith)
            requires
                pl.end - pl.start - 1 >= 0,
                pl.rs > 0,
        ;
    }
    assert(plan_chunks(pl) >= 1);
    lemma_lazy_from(pl, pf, loads, 0);
    lemma_full_scan_from(pf, loads, 0);
    assert(found_upto(pf, loads, 0).len() == 0);
    let l = scan_from(pl, loads, 0);
    let f = scan_from(pf, loads, 0);
    if l.len() > 0 {
        assert(l[0] == f.subrange(0, l.len() as int)[0]);
    }
}

} // verus!

verus! {

/// A log that continues another by one read: the reads since a start are those of
/// before, followed by the new one.
proof fn lemma_log_push(start: Seq<ReadEvent>, before: Seq<ReadEvent>, after: Seq<ReadEvent>)
    requires
        log_extends(start, before),
        log_extends(before, after),
        after.len() == before.len() + 1,
    ensures
        log_extends(start, after),
        new_reads(start, after) == new_reads(start, before).push(after.last()),
{
    assert(after.subrange(0, start.len() as int) =~= before.subrange(0, start.len() as int));
    assert(new_reads(start, after) =~= new_reads(start, before).push(after.last()));
}

/// One more read, of the next chunk, keeps the reads those of the plan's chunks, and
/// adds its bytes to what the reads gave.
proof fn lemma_chunk_reads_push(p: ScanPlan, evs: Seq<ReadEvent>, e: ReadEvent)
    requires
        chunk_reads(p, evs),
        e.addr == chunk_start(p, evs.len()),
        e.size == chunk_end(p, evs.len()) - chunk_start(p, evs.len()),
    ensures
        chunk_reads(p, evs.push(e)),
        loads_of(evs.push(e)) == loads_of(evs).push(read_bytes(e)),
{
    let e1 = evs.push(e);
    assert forall|k: int| 0 <= k < e1.len() implies (#[trigger] e1[k]).addr == chunk_start(p, k as nat)
        && e1[k].size == chunk_end(p, k as nat) - chunk_start(p, k as nat) by {
        if k < evs.len() {
            assert(e1[k] == evs[k]);
        }
    }
    assert(loads_of(e1) =~= loads_of(evs).push(read_bytes(e)));
}

/// The plan of a scan of a well-formed pattern, read in chunks of a multiple of
/// [`ALIGN_SIZE`] bytes no shorter than the pattern, has the shape the scan laws need.
proof fn lemma_plan_shape<P: ScanPattern>(pattern: &P, scan_range: AddressRange, rs: nat, lazy: bool)
    requires
        pattern.wf(),
        0 < pattern.spec_window().len() <= rs,
        rs % (ALIGN_SIZE as nat) == 0,
        range_wf(scan_range),
    ensures
        plan_shape(scan_plan(pattern, scan_range, rs, lazy)),
{
    pattern.lemma_wf();
    let len = pattern.spec_window().len();
    assert(len + align_pad(len) >= ALIGN_SIZE) by (nonlinear_arith)
        requires
            len > 0,
            align_pad(len) == (if len % (ALIGN_SIZE as nat) == 0 {
                0nat
            } else {
                ((ALIGN_SIZE as nat) - len % (ALIGN_SIZE as nat)) as nat
            }),
    ;
}

/// Every read of `evs` filled its chunk with the bytes of `mem`, the memory of the range
/// that starts at `start`.
pub open spec fn reads_return(evs: Seq<ReadEvent>, start: int, mem: Seq<u8>) -> bool {
    forall|k: int|
        0 <= k < evs.len() ==> read_bytes(#[trigger] evs[k]) == Some(
            mem.subrange(evs[k].addr - start, evs[k].addr - start + evs[k].size),
        )
}

/// A reader answers a read of the same bytes alike in `a` and in `b`.
pub open spec fn same_answers(a: Seq<ReadEvent>, b: Seq<ReadEvent>) -> bool {
    forall|i: int, k: int|
        0 <= i < a.len() && 0 <= k < b.len() && (#[trigger] a[i]).addr == (#[trigger] b[k]).addr
            && a[i].size == b[k].size ==> a[i].answer == b[k].answer
}

/// A full scan (not lazy) whose reads all return the memory of the range reads every
/// chunk, and finds exactly what a scan of the whole range at once finds: reading in
/// chunks loses no match, finds none twice, and finds none outside the range.
pub proof fn lemma_scan_of_memory<P: ScanPattern>(
    pattern: &P,
    scan_range: AddressRange,
    rs: nat,
    evs: Seq<ReadEvent>,
    mem: Seq<u8>,
)
    requires
        pattern.wf(),
        0 < pattern.spec_window().len() <= rs,
        rs % (ALIGN_SIZE as nat) == 0,
        range_wf(scan_range),
        mem.len() == scan_range.end_addr - scan_range.start_addr,
        scan_reads(scan_plan(pattern, scan_range, rs, false), evs),
        reads_return(evs, scan_range.start_addr as int, mem),
    ensures
        evs.len() == plan_chunks(scan_plan(pattern, scan_range, rs, false)),
        scan_from(scan_plan(pattern, scan_range, rs, false), loads_of(evs), 0) == spec_scan(
            pattern.spec_window(),
            pattern.spec_window_mask(),
            pattern.spec_true_len(),
            scan_range.start_addr as int,
            mem,
        ),
{
    let p = scan_plan(pattern, scan_range, rs, false);
    lemma_plan_shape(pattern, scan_range, rs, false);
    let loads = loads_of(evs);
    assert(stops_after(p, loads, (evs.len() - 1) as nat));
    assert(evs.len() == plan_chunks(p));
    assert forall|j: int| 0 <= j < plan_chunks(p) implies #[trigger] loads[j] == Some(
        mem.subrange(chunk_start(p, j as nat) - p.start, chunk_end(p, j as nat) - p.start),
    ) by {
        assert(evs[j].addr == chunk_start(p, j as nat));
    }
    lemma_full_scan_is_whole_scan(p, loads, mem);
}

/// Two scans of one range, one lazy and one full, over readers that answer a read of
/// the same bytes alike: the lazy scan finds a first part of what the full scan finds,
/// and nothing only where the full scan finds nothing, so the two agree on the first
/// match.
pub proof fn lemma_lazy_scan_of_same_memory<P: ScanPattern>(
    pattern: &P,
    scan_range: AddressRange,
    rs: nat,
    evl: Seq<ReadEvent>,
    evf: Seq<ReadEvent>,
)
    requires
        rs > 0,
        scan_reads(scan_plan(pattern, scan_range, rs, true), evl),
        scan_reads(scan_plan(pattern, scan_range, rs, false), evf),
        same_answers(evl, evf),
    ensures
        ({
            let l = scan_from(scan_plan(pattern, scan_range, rs, true), loads_of(evl), 0);
            let f = scan_from(scan_plan(pattern, scan_range, rs, false), loads_of(evf), 0);
            &&& l.len() <= f.len()
            &&& l == f.subrange(0, l.len() as int)
            &&& (l.len() == 0 <==> f.len() == 0)
            &&& l.len() > 0 ==> l[0] == f[0]
        }),
{
    let pl = scan_plan(pattern, scan_range, rs, true);
    let pf = scan_plan(pattern, scan_range, rs, false);
    assert(pf == (ScanPlan { lazy: false, ..pl }));
    let ll = loads_of(evl);
    let lf = loads_of(evf);
    let n = evl.len();
    assert(plan_chunks(pf) == plan_chunks(pl));
    assert(stops_after(pf, lf, (evf.len() - 1) as nat));
    assert(evf.len() == plan_chunks(pf));
    assert forall|k: int| 0 <= k < n implies ll[k] == lf[k] by {
        assert(evl[k].addr == evf[k].addr);
        assert(evl[k].size == evf[k].size);
        assert(evl[k].answer == evf[k].answer);
    }
    assert forall|i: nat| i < n implies #[trigger] stops_after(pl, lf, i) == stops_after(pl, ll, i) by {
        lemma_found_upto_prefix(pl, ll, lf, i + 1);
    }
    assert forall|i: nat| i < (n - 1) as nat implies !#[trigger] stops_after(pl, lf, i) by {
        assert(stops_after(pl, lf, i) == stops_after(pl, ll, i));
    }
    assert(stops_after(pl, lf, (n - 1) as nat) == stops_after(pl, ll, (n - 1) as nat));
    lemma_scan_from_stop(pl, lf, (n - 1) as nat);
    lemma_scan_from_stop(pl, ll, (n - 1) as nat);
    lemma_found_upto_prefix(pl, ll, lf, n);
    lemma_lazy_scan_is_prefix(pl, lf);
}

/// Each read of `evs` that filled its chunk gave the bytes of `mem`, the memory of the
/// range that starts at `start`; the others failed or fell short.
pub open spec fn reads_return_or_fail(evs: Seq<ReadEvent>, start: int, mem: Seq<u8>) -> bool {
    forall|k: int|
        0 <= k < evs.len() && (#[trigger] read_bytes(evs[k])) is Some ==> read_bytes(evs[k]) == Some(
            mem.subrange(evs[k].addr - start, evs[k].addr - start + evs[k].size),
        )
}

/// The loads of chunks `0..=j` that were read are the memory of their chunks.
pub open spec fn loads_from(p: ScanPlan, loads: Seq<Option<Seq<u8>>>, mem: Seq<u8>, j: nat) -> bool {
    &&& loads.len() > j
    &&& forall|k: int|
        0 <= k <= j && (#[trigger] loads[k]) is Some ==> loads[k] == Some(
            mem.subrange(chunk_start(p, k as nat) - p.start, chunk_end(p, k as nat) - p.start),
        )
}

/// The head that follows the pattern is a multiple of [`ALIGN_SIZE`].
proof fn lemma_head_aligned(p: ScanPlan)
    requires
        plan_shape(p),
    ensures
        (p.head as int) % (ALIGN_SIZE as int) == 0,
{
    let len = p.v.len() as int;
    let a = ALIGN_SIZE as int;
    assert((len + (a - len % a) % a) % a == 0) by (nonlinear_arith)
        requires
            a == 4,
            len >= 0,
    ;
    assert(((p.head + a) as int) % a == 0);
    assert((p.head as int) % a == 0) by (nonlinear_arith)
        requires
            (p.head + a) % a == 0,
            a == 4,
    ;
}

/// The matches found in a chunk whose bytes (and those of the chunk before, where it
/// was read) are the memory of the range lie in that memory.
proof fn lemma_chunk_found_in(p: ScanPlan, loads: Seq<Option<Seq<u8>>>, mem: Seq<u8>, j: nat)
    requires
        plan_shape(p),
        j < plan_chunks(p),
        mem.len() == p.end - p.start,
        loads_from(p, loads, mem, j),
    ensures
        forall|i: int|
            0 <= i < chunk_found(p, loads, j).len() ==> match_in(
                #[trigger] chunk_found(p, loads, j)[i],
                p.v,
                p.m,
                p.tlen,
                p.start,
                mem,
            ),
{
    if loads[j as int] is Some {
        lemma_chunk_geometry(p, j);
        lemma_head_aligned(p);
        let (base, buf) = chunk_view(p, loads, j);
        let a = ALIGN_SIZE as int;
        let cs = chunk_start(p, j);
        let ce = chunk_end(p, j);
        let q = (p.rs / 4) as int;
        assert(p.rs == 4 * q);
        assert(j * p.rs == (j * q) * 4) by (nonlinear_arith)
            requires
                p.rs == 4 * q,
        ;
        vstd::arithmetic::div_mod::lemma_mod_multiples_basic(j * q, 4);
        assert(cs - p.start == j * p.rs);
        assert((cs - p.start) % a == 0);
        if j == 0 || loads[j - 1] is None {
            assert(buf == mem.subrange(cs - p.start, ce - p.start));
            assert(buf =~= mem.subrange(base - p.start, base - p.start + buf.len()));
        } else {
            let i = (j - 1) as nat;
            lemma_chunk_geometry(p, i);
            assert(p.head < p.rs);
            let prev = loads[i as int].unwrap();
            assert(prev == mem.subrange(chunk_start(p, i) - p.start, chunk_end(p, i) - p.start));
            assert(prev.len() == p.rs);
            assert(buf =~= mem.subrange(cs - p.head - p.start, ce - p.start));
            assert(((cs - p.start) - p.head) % a == 0) by (nonlinear_arith)
                requires
                    (cs - p.start) % a == 0,
                    (p.head as int) % a == 0,
                    a == 4,
            ;
        }
        lemma_scan_windows_in(p.v, p.m, p.tlen, base, buf, window_count(buf.len(), p.v.len()));
        let found = chunk_found(p, loads, j);
        assert forall|i: int| 0 <= i < found.len() implies match_in(#[trigger] found[i], p.v, p.m, p.tlen, p.start, mem) by {
            assert(match_in(found[i], p.v, p.m, p.tlen, base, buf));
            lemma_match_in_piece(found[i], p.v, p.m, p.tlen, p.start, base - p.start, buf, mem);
        }
    }
}

/// The matches of chunks `0..n`, whose bytes are the memory of the range where they were
/// read, lie in that memory.
proof fn lemma_found_upto_in(p: ScanPlan, loads: Seq<Option<Seq<u8>>>, mem: Seq<u8>, n: nat)
    requires
        plan_shape(p),
        0 < n <= plan_chunks(p),
        mem.len() == p.end - p.start,
        loads_from(p, loads, mem, (n - 1) as nat),
    ensures
        forall|i: int|
            0 <= i < found_upto(p, loads, n).len() ==> match_in(
                #[trigger] found_upto(p, loads, n)[i],
                p.v,
                p.m,
                p.tlen,
                p.start,
                mem,
            ),
    decreases n,
{
    let j = (n - 1) as nat;
    lemma_chunk_found_in(p, loads, mem, j);
    let prev = found_upto(p, loads, j);
    let cur = found_upto(p, loads, n);
    let c = chunk_found(p, loads, j);
    if j > 0 {
        lemma_found_upto_in(p, loads, mem, j);
    }
    assert forall|i: int| 0 <= i < cur.len() implies match_in(#[trigger] cur[i], p.v, p.m, p.tlen, p.start, mem) by {
        if i < prev.len() {
            assert(cur[i] == prev[i]);
        } else {
            assert(cur[i] == c[i - prev.len()]);
        }
    }
}

/// A scan (lazy or not) whose reads each either return the memory of their chunk or fail
/// (or fall short) reports only matches of that memory: each at an aligned offset in the
/// range, with the pattern's window inside the range and matching it, and the value the
/// memory at its address. A chunk whose read failed contributes no bytes to any match.
pub proof fn lemma_scan_matches_memory<P: ScanPattern>(
    pattern: &P,
    scan_range: AddressRange,
    rs: nat,
    lazy: bool,
    evs: Seq<ReadEvent>,
    mem: Seq<u8>,
)
    requires
        pattern.wf(),
        0 < pattern.spec_window().len() <= rs,
        rs % (ALIGN_SIZE as nat) == 0,
        range_wf(scan_range),
        mem.len() == scan_range.end_addr - scan_range.start_addr,
        scan_reads(scan_plan(pattern, scan_range, rs, lazy), evs),
        reads_return_or_fail(evs, scan_range.start_addr as int, mem),
    ensures
        forall|i: int|
            0 <= i < scan_from(scan_plan(pattern, scan_range, rs, lazy), loads_of(evs), 0).len() ==> match_in(
                #[trigger] scan_from(scan_plan(pattern, scan_range, rs, lazy), loads_of(evs), 0)[i],
                pattern.spec_window(),
                pattern.spec_window_mask(),
                pattern.spec_true_len(),
                scan_range.start_addr as int,
                mem,
            ),
{
    let p = scan_plan(pattern, scan_range, rs, lazy);
    lemma_plan_shape(pattern, scan_range, rs, lazy);
    let loads = loads_of(evs);
    let n = evs.len();
    assert forall|k: int| 0 <= k <= n - 1 && (#[trigger] loads[k]) is Some implies loads[k] == Some(
        mem.subrange(chunk_start(p, k as nat) - p.start, chunk_end(p, k as nat) - p.start),
    ) by {
        assert(loads[k] == read_bytes(evs[k]));
        assert(evs[k].addr == chunk_start(p, k as nat));
    }
    lemma_scan_from_stop(p, loads, (n - 1) as nat);
    lemma_found_upto_in(p, loads, mem, n);
}

} // verus!
