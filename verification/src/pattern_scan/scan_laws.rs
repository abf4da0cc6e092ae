//! Facts about scanning: a scan can be cut into pieces and put back together.

use vstd::prelude::*;

use super::{masked_match, scan_windows, window_count, MatchView, ALIGN_SIZE};

verus! {

/// The matches among the aligned windows `lo..hi` of `buf` (window `k` starts at byte
/// `ALIGN_SIZE * k`), in order.
pub open spec fn scan_between(
    v: Seq<u8>,
    m: Option<Seq<bool>>,
    tlen: nat,
    base: int,
    buf: Seq<u8>,
    lo: nat,
    hi: nat,
) -> Seq<MatchView>
    decreases hi,
{
    if hi <= lo {
        Seq::empty()
    } else {
        let prev = scan_between(v, m, tlen, base, buf, lo, (hi - 1) as nat);
        let off = (ALIGN_SIZE as int) * (hi - 1);
        if masked_match(v, m, buf.subrange(off, off + v.len())) {
            prev.push(MatchView { addr: base + off, value: buf.subrange(off, off + tlen) })
        } else {
            prev
        }
    }
}

/// The first `n` windows are the windows `0..n`.
pub proof fn lemma_windows_between(
    v: Seq<u8>,
    m: Option<Seq<bool>>,
    tlen: nat,
    base: int,
    buf: Seq<u8>,
    n: nat,
)
    ensures
        scan_windows(v, m, tlen, base, buf, n) == scan_between(v, m, tlen, base, buf, 0, n),
    decreases n,
{
    if n > 0 {
        lemma_windows_between(v, m, tlen, base, buf, (n - 1) as nat);
    }
}

/// Scanning a piece of `mem` that starts at byte `ALIGN_SIZE * a` finds the matches of
/// the windows of `mem` from `a` on.
pub proof fn lemma_between_shift(
    v: Seq<u8>,
    m: Option<Seq<bool>>,
    tlen: nat,
    base: int,
    mem: Seq<u8>,
    buf: Seq<u8>,
    a: nat,
    n: nat,
)
    requires
        tlen <= v.len(),
        (ALIGN_SIZE as int) * a + buf.len() <= mem.len(),
        buf == mem.subrange((ALIGN_SIZE as int) * a, (ALIGN_SIZE as int) * a + buf.len()),
        n > 0 ==> (ALIGN_SIZE as int) * (n - 1) + v.len() <= buf.len(),
    ensures
        scan_between(v, m, tlen, base + (ALIGN_SIZE as int) * a, buf, 0, n) == scan_between(
            v,
            m,
            tlen,
            base,
            mem,
            a,
            a + n,
        ),
    decreases n,
{
    if n > 0 {
        lemma_between_shift(v, m, tlen, base, mem, buf, a, (n - 1) as nat);
        let off = (ALIGN_SIZE as int) * (n - 1);
        let o = (ALIGN_SIZE as int) * a;
        assert((ALIGN_SIZE as int) * (a + n - 1) == o + off);
        assert(buf.subrange(off, off + v.len()) =~= mem.subrange(o + off, o + off + v.len()));
        assert(buf.subrange(off, off + tlen) =~= mem.subrange(o + off, o + off + tlen));
    }
}

/// Windows `lo..mid` followed by windows `mid..hi` are windows `lo..hi`.
pub proof fn lemma_between_concat(
    v: Seq<u8>,
    m: Option<Seq<bool>>,
    tlen: nat,
    base: int,
    buf: Seq<u8>,
    lo: nat,
    mid: nat,
    hi: nat,
)
    requires
        lo <= mid <= hi,
    ensures
        scan_between(v, m, tlen, base, buf, lo, mid) + scan_between(v, m, tlen, base, buf, mid, hi)
            == scan_between(v, m, tlen, base, buf, lo, hi),
    decreases hi,
{
    if hi > mid {
        lemma_between_concat(v, m, tlen, base, buf, lo, mid, (hi - 1) as nat);
        let a = scan_between(v, m, tlen, base, buf, lo, mid);
        let b = scan_between(v, m, tlen, base, buf, mid, (hi - 1) as nat);
        let off = (ALIGN_SIZE as int) * (hi - 1);
        let w = MatchView { addr: base + off, value: buf.subrange(off, off + tlen) };
        assert(a + b.push(w) =~= (a + b).push(w));
    } else {
        assert(scan_between(v, m, tlen, base, buf, mid, hi) =~= Seq::<MatchView>::empty());
        assert(hi == mid);
        assert(scan_between(v, m, tlen, base, buf, lo, mid) + Seq::<MatchView>::empty() =~= scan_between(v, m, tlen, base, buf, lo, mid));
    }
}

/// The match `x` of value `v` and mask `m` (reporting `tlen` bytes) lies in `buf`, whose
/// first byte is at address `base`: at an aligned offset, with its window inside `buf`
/// and matching, and its value the first `tlen` bytes of the window.
pub open spec fn match_in(x: MatchView, v: Seq<u8>, m: Option<Seq<bool>>, tlen: nat, base: int, buf: Seq<u8>) -> bool {
    let off = x.addr - base;
    &&& 0 <= off
    &&& off % (ALIGN_SIZE as int) == 0
    &&& off + v.len() <= buf.len()
    &&& x.value == buf.subrange(off, off + tlen)
    &&& masked_match(v, m, buf.subrange(off, off + v.len()))
}

/// Each match a scan of `buf` reports lies in `buf`.
pub proof fn lemma_scan_windows_in(v: Seq<u8>, m: Option<Seq<bool>>, tlen: nat, base: int, buf: Seq<u8>, n: nat)
    requires
        tlen <= v.len(),
        n <= window_count(buf.len(), v.len()),
    ensures
        forall|i: int|
            0 <= i < scan_windows(v, m, tlen, base, buf, n).len() ==> match_in(
                #[trigger] scan_windows(v, m, tlen, base, buf, n)[i],
                v,
                m,
                tlen,
                base,
                buf,
            ),
    decreases n,
{
    if n > 0 {
        lemma_scan_windows_in(v, m, tlen, base, buf, (n - 1) as nat);
        let a = ALIGN_SIZE as int;
        let off = a * (n - 1);
        assert(buf.len() >= v.len());
        assert(off + v.len() <= buf.len()) by (nonlinear_arith)
            requires
                off == a * (n - 1),
                a == 4,
                n - 1 <= (buf.len() - v.len()) as nat / (a as nat),
                buf.len() >= v.len(),
        ;
        assert(off % a == 0) by (nonlinear_arith)
            requires
                off == a * (n - 1),
                a == 4,
                n >= 1,
        ;
        let prev = scan_windows(v, m, tlen, base, buf, (n - 1) as nat);
        let cur = scan_windows(v, m, tlen, base, buf, n);
        assert forall|i: int| 0 <= i < cur.len() implies match_in(#[trigger] cur[i], v, m, tlen, base, buf) by {
            if i < prev.len() {
                assert(cur[i] == prev[i]);
            } else {
                assert(cur[i] == MatchView { addr: base + off, value: buf.subrange(off, off + tlen) });
            }
        }
    }
}

/// A match that lies in `buf`, a piece of `mem` starting `d` bytes (a multiple of
/// [`ALIGN_SIZE`]) into it, lies in `mem`.
pub proof fn lemma_match_in_piece(
    x: MatchView,
    v: Seq<u8>,
    m: Option<Seq<bool>>,
    tlen: nat,
    start: int,
    d: int,
    buf: Seq<u8>,
    mem: Seq<u8>,
)
    requires
        match_in(x, v, m, tlen, start + d, buf),
        tlen <= v.len(),
        0 <= d,
        d % (ALIGN_SIZE as int) == 0,
        d + buf.len() <= mem.len(),
        buf == mem.subrange(d, d + buf.len()),
    ensures
        match_in(x, v, m, tlen, start, mem),
{
    let a = ALIGN_SIZE as int;
    let off = x.addr - (start + d);
    assert((off + d) % a == 0) by (nonlinear_arith)
        requires
            off % a == 0,
            d % a == 0,
            a == 4,
    ;
    assert(buf.subrange(off, off + tlen) =~= mem.subrange(off + d, off + d + tlen));
    assert(buf.subrange(off, off + v.len()) =~= mem.subrange(off + d, off + d + v.len()));
}

} // verus!
