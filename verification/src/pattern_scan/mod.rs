//! Scanning bytes in a buffer. Includes the [`ScanPattern`] trait and three structs that
//! implement it: [`BytePattern`], [`WordPattern`], and [`Simd32Pattern`].
//!
//! Also includes the [`ScanMatch`] and [`ChunkScanResult`] data types for storing scan data.
//!
//! A pattern is a sequence of bytes with an optional mask of the same length; where the
//! mask holds `false`, the byte is ignored when comparing.

mod byte_pattern;
pub mod scan_laws;
mod word_match;
mod simd32_pattern;
pub mod text;
mod word_pattern;

pub use byte_pattern::{lemma_concat_matches, spec_concat, BytePattern};
pub use simd32_pattern::{lemma_simd_matches_source, lemma_simd_scan_is_byte_scan, simd_mask_of, simd_window, simd_window_mask, Simd32Pattern};
pub use word_pattern::{lemma_word_scan_is_byte_scan, word_size_bytes, WordPattern};

use vstd::prelude::*;
use vstd::string::StringSliceAdditionalSpecFns;

use crate::mem::AddressRange;
use crate::util::{copy_range, fill_bools, fill_bytes, opt_slice_view, opt_vec_view, slice_to_vec};

verus! {

/// The alignment at which patterns are looked for in memory.
pub const ALIGN_SIZE: usize = 4;

/// Whether the mask keeps (compares) the byte at `i`; no mask keeps every byte.
pub open spec fn mask_at(m: Option<Seq<bool>>, i: int) -> bool {
    match m {
        None => true,
        Some(s) => s[i],
    }
}

/// A mask, when present, is as long as the value.
pub open spec fn mask_fits(v: Seq<u8>, m: Option<Seq<bool>>) -> bool {
    match m {
        None => true,
        Some(s) => s.len() == v.len(),
    }
}

/// `buf` agrees with `v` at every position the mask keeps.
pub open spec fn masked_match(v: Seq<u8>, m: Option<Seq<bool>>, buf: Seq<u8>) -> bool {
    forall|i: int| 0 <= i < v.len() && mask_at(m, i) ==> #[trigger] buf[i] == v[i]
}

/// What a match reports: its address and the bytes found there.
pub struct MatchView {
    pub addr: int,
    pub value: Seq<u8>,
}

/// How many windows of `len` bytes a scan of `buf_len` bytes looks at: one at every
/// multiple of [`ALIGN_SIZE`] where the window still fits.
pub open spec fn window_count(buf_len: nat, len: nat) -> nat {
    if buf_len < len {
        0
    } else {
        ((buf_len - len) as nat / (ALIGN_SIZE as nat) + 1) as nat
    }
}

/// The matches among the first `n` aligned windows of `buf`, in order. Each window is
/// compared against the value `v` and mask `m`; a match reports `tlen` bytes.
pub open spec fn scan_windows(
    v: Seq<u8>,
    m: Option<Seq<bool>>,
    tlen: nat,
    base: int,
    buf: Seq<u8>,
    n: nat,
) -> Seq<MatchView>
    decreases n,
{
    if n == 0 {
        Seq::empty()
    } else {
        let prev = scan_windows(v, m, tlen, base, buf, (n - 1) as nat);
        let off = (ALIGN_SIZE as int) * (n - 1);
        if masked_match(v, m, buf.subrange(off, off + v.len())) {
            prev.push(MatchView { addr: base + off, value: buf.subrange(off, off + tlen) })
        } else {
            prev
        }
    }
}

/// The result of scanning all of `buf` (whose first byte is at address `base`).
pub open spec fn spec_scan(
    v: Seq<u8>,
    m: Option<Seq<bool>>,
    tlen: nat,
    base: int,
    buf: Seq<u8>,
) -> Seq<MatchView> {
    scan_windows(v, m, tlen, base, buf, window_count(buf.len(), v.len()))
}

/// A value that can be turned into a scan pattern which finds it.
///
/// For a primitive value, [`FromBytes::from_primitive`] builds a pattern of its bytes.
pub trait Scannable<T: ScanPattern> {
    /// The pattern that finds this value.
    fn to_pattern(&self) -> T;
}

/// A pattern of bytes that can be scanned for in a buffer.
///
/// A pattern compares windows of `len()` bytes. Its `value()` and `mask()` describe the
/// bytes it looks for; a pattern that pads itself to a fixed width reports only its
/// `true_len()` meaningful bytes there.
pub trait ScanPattern {
    /// The bytes compared, over the whole window.
    spec fn spec_window(&self) -> Seq<u8>;

    /// The mask over the whole window.
    spec fn spec_window_mask(&self) -> Option<Seq<bool>>;

    /// How many bytes of each window are meaningful.
    spec fn spec_true_len(&self) -> nat;

    /// The internal representation is consistent.
    spec fn wf(&self) -> bool;

    /// A well-formed pattern has a mask (if any) as long as its window, and no more
    /// meaningful bytes than its window holds.
    proof fn lemma_wf(&self)
        requires
            self.wf(),
        ensures
            mask_fits(self.spec_window(), self.spec_window_mask()),
            self.spec_true_len() <= self.spec_window().len(),
            self.spec_window().len() <= usize::MAX,
    ;

    /// Returns the length of the pattern (the window it compares).
    fn len(&self) -> (r: usize)
        requires
            self.wf(),
        ensures
            r == self.spec_window().len(),
    ;

    /// Returns the true length of the underlying data.
    fn true_len(&self) -> (r: usize)
        requires
            self.wf(),
        ensures
            r == self.spec_true_len(),
    ;

    /// Returns the bytes that are being scanned for (the meaningful ones).
    fn value(&self) -> (r: &[u8])
        requires
            self.wf(),
        ensures
            r@ == self.spec_window().subrange(0, self.spec_true_len() as int),
    ;

    /// Returns the mask of the meaningful bytes; `false` marks a byte that is ignored.
    fn mask(&self) -> (r: Option<&[bool]>)
        requires
            self.wf(),
        ensures
            opt_slice_view(r) == match self.spec_window_mask() {
                None => None,
                Some(m) => Some(m.subrange(0, self.spec_true_len() as int)),
            },
    ;

    /// Describes the pattern as text: `Scan Pattern [`, then each meaningful byte as
    /// `0x41` (no mask), `0041` (a compared byte) or `????` (an ignored one), separated
    /// by spaces, and `]`.
    fn describe(&self) -> (r: String)
        requires
            self.wf(),
        ensures
            r@ == crate::util::ascii_chars(
                text::pattern_text(
                    self.spec_window().subrange(0, self.spec_true_len() as int),
                    match self.spec_window_mask() {
                        None => None,
                        Some(m) => Some(m.subrange(0, self.spec_true_len() as int)),
                    },
                ),
            ),
    {
        proof {
            self.lemma_wf();
        }
        let v = self.value();
        let m = self.mask();
        text::describe_pattern(v, m)
    }

    /// Checks the pattern against a slice of the same length.
    fn matches(&self, buf: &[u8]) -> (r: bool)
        requires
            self.wf(),
            buf@.len() == self.spec_window().len(),
        ensures
            r == masked_match(self.spec_window(), self.spec_window_mask(), buf@),
    ;

    /// Scans the entire buffer for the pattern.
    ///
    /// Only windows starting at multiples of [`ALIGN_SIZE`] are checked, so the buffer
    /// should start at a word-aligned address. Each match carries its address (counted
    /// from `base_addr`) and the meaningful bytes of its window.
    fn scan_buffer(&self, base_addr: usize, buf: &[u8]) -> (r: Vec<ScanMatch>)
        requires
            self.wf(),
            0 < self.spec_window().len() <= buf@.len(),
            base_addr + buf@.len() <= usize::MAX,
        ensures
            matches_view(r@) == spec_scan(
                self.spec_window(),
                self.spec_window_mask(),
                self.spec_true_len(),
                base_addr as int,
                buf@,
            ),
    {
        proof {
            self.lemma_wf();
        }
        let pattern_len = self.len();
        let tlen = self.true_len();
        let count = (buf.len() - pattern_len) / ALIGN_SIZE + 1;
        let mut matches: Vec<ScanMatch> = Vec::new();
        let mut k: usize = 0;
        while k < count
            invariant
                self.wf(),
                pattern_len == self.spec_window().len(),
                tlen == self.spec_true_len(),
                tlen <= pattern_len,
                0 < pattern_len <= buf@.len(),
                base_addr + buf@.len() <= usize::MAX,
                count == window_count(buf@.len(), pattern_len as nat),
                k <= count,
                matches_view(matches@) == scan_windows(
                    self.spec_window(),
                    self.spec_window_mask(),
                    tlen as nat,
                    base_addr as int,
                    buf@,
                    k as nat,
                ),
            decreases count - k,
        {
            let off = k * ALIGN_SIZE;
            assert(off + pattern_len <= buf@.len()) by (nonlinear_arith)
                requires
                    k < count,
                    count == (buf@.len() - pattern_len) / 4 + 1,
                    off == k * 4,
                    pattern_len <= buf@.len(),
            ;
            let window = &buf[off..off + pattern_len];
            if self.matches(window) {
                let value = copy_range(buf, off, off + tlen);
                let ghost prev = matches@;
                matches.push(ScanMatch { addr: base_addr + off, value });
                assert(matches@ == prev.push(ScanMatch { addr: (base_addr + off) as usize, value }));
                assert(matches_view(matches@) =~= matches_view(prev).push(
                    MatchView { addr: base_addr + off, value: buf@.subrange(off as int, off + tlen) },
                ));
            }
            k = k + 1;
        }
        matches
    }
}

/// A value whose in-memory bytes can be turned into a pattern.
pub trait Primitive {
    /// The bytes of the value, in little-endian order.
    spec fn spec_le_bytes(&self) -> Seq<u8>;

    /// Returns the bytes of the value, in little-endian order.
    fn le_bytes(&self) -> (r: Vec<u8>)
        ensures
            r@ == self.spec_le_bytes(),
    ;
}

impl Primitive for u8 {
    open spec fn spec_le_bytes(&self) -> Seq<u8> {
        seq![*self]
    }

    fn le_bytes(&self) -> (r: Vec<u8>) {
        let mut r: Vec<u8> = Vec::new();
        r.push(*self);
        r
    }
}

impl Primitive for u32 {
    open spec fn spec_le_bytes(&self) -> Seq<u8> {
        crate::util::le_bytes_u32(*self)
    }

    fn le_bytes(&self) -> (r: Vec<u8>) {
        crate::util::u32_to_bytes(*self)
    }
}

impl Primitive for u64 {
    open spec fn spec_le_bytes(&self) -> Seq<u8> {
        crate::util::le_bytes_u64(*self)
    }

    fn le_bytes(&self) -> (r: Vec<u8>) {
        crate::util::u64_to_bytes(*self)
    }
}

impl Primitive for usize {
    open spec fn spec_le_bytes(&self) -> Seq<u8> {
        crate::word_bytes(*self)
    }

    fn le_bytes(&self) -> (r: Vec<u8>) {
        crate::util::usize_to_bytes(*self)
    }
}

/// Patterns that can be built from a byte vector and a mask.
pub trait FromBytes: ScanPattern + Sized {
    /// The lengths a pattern of this kind can be built with.
    spec fn accepts_len(len: nat) -> bool;

    /// Creates a new pattern from the byte vector and mask.
    fn new(bytes: Vec<u8>, mask: Option<Vec<bool>>) -> (r: Self)
        requires
            Self::accepts_len(bytes@.len()),
            mask_fits(bytes@, opt_vec_view(mask)),
        ensures
            r.wf(),
            r.spec_window() == bytes@,
            r.spec_window_mask() == opt_vec_view(mask),
            r.spec_true_len() == bytes@.len(),
    ;

    /// Creates a new pattern from a byte slice and mask.
    fn from_bytes(bytes: &[u8], mask: Option<Vec<bool>>) -> (r: Self)
        requires
            Self::accepts_len(bytes@.len()),
            mask_fits(bytes@, opt_vec_view(mask)),
        ensures
            r.wf(),
            r.spec_window() == bytes@,
            r.spec_window_mask() == opt_vec_view(mask),
            r.spec_true_len() == bytes@.len(),
    {
        Self::new(slice_to_vec(bytes), mask)
    }

    /// Creates a new pattern from the bytes of a string and a mask.
    fn from_str(string: &str, mask: Option<Vec<bool>>) -> (r: Self)
        requires
            Self::accepts_len(string.spec_bytes().len()),
            mask_fits(string.spec_bytes(), opt_vec_view(mask)),
        ensures
            r.wf(),
            r.spec_window() == string.spec_bytes(),
            r.spec_window_mask() == opt_vec_view(mask),
            r.spec_true_len() == string.spec_bytes().len(),
    {
        Self::new(slice_to_vec(string.as_bytes()), mask)
    }

    /// Creates a new pattern from the little-endian bytes of a primitive value.
    fn from_primitive<T: Primitive>(val: T, mask: Option<Vec<bool>>) -> (r: Self)
        requires
            Self::accepts_len(val.spec_le_bytes().len()),
            mask_fits(val.spec_le_bytes(), opt_vec_view(mask)),
        ensures
            r.wf(),
            r.spec_window() == val.spec_le_bytes(),
            r.spec_window_mask() == opt_vec_view(mask),
            r.spec_true_len() == val.spec_le_bytes().len(),
    {
        Self::new(val.le_bytes(), mask)
    }

    /// A pattern of `n` null bytes with no mask.
    fn null(n: usize) -> (r: Self)
        requires
            Self::accepts_len(n as nat),
        ensures
            r.wf(),
            r.spec_window() == Seq::new(n as nat, |i: int| 0u8),
            r.spec_window_mask() == None::<Seq<bool>>,
            r.spec_true_len() == n,
    {
        Self::new(fill_bytes(0, n), None)
    }

    /// A pattern of `n` ignored bytes.
    fn ignore(n: usize) -> (r: Self)
        requires
            Self::accepts_len(n as nat),
        ensures
            r.wf(),
            r.spec_window() == Seq::new(n as nat, |i: int| 0u8),
            r.spec_window_mask() == Some(Seq::new(n as nat, |i: int| false)),
            r.spec_true_len() == n,
    {
        Self::new(fill_bytes(0, n), Some(fill_bools(false, n)))
    }

    /// Creates a new pattern with the value of the given pattern, but with the given mask.
    fn with_mask<P: ScanPattern>(pattern: &P, mask: Option<Vec<bool>>) -> (r: Self)
        requires
            pattern.wf(),
            Self::accepts_len(pattern.spec_true_len()),
            mask_fits(
                pattern.spec_window().subrange(0, pattern.spec_true_len() as int),
                opt_vec_view(mask),
            ),
        ensures
            r.wf(),
            r.spec_window() == pattern.spec_window().subrange(0, pattern.spec_true_len() as int),
            r.spec_window_mask() == opt_vec_view(mask),
            r.spec_true_len() == pattern.spec_true_len(),
    {
        proof {
            pattern.lemma_wf();
        }
        Self::new(slice_to_vec(pattern.value()), mask)
    }
}

/// The views of a sequence of matches.
pub open spec fn matches_view(s: Seq<ScanMatch>) -> Seq<MatchView> {
    s.map_values(|m: ScanMatch| m@)
}

/// Builds a byte mask from a string; any byte other than `'?'` is kept (`true`).
pub fn str_mask(s: &str) -> (r: Vec<bool>)
    ensures
        r@ == s.spec_bytes().map_values(|c: u8| c != 63u8),
{
    bytes_to_mask(s.as_bytes(), 63)
}

/// Builds a byte mask from a byte slice; any non-zero byte is kept (`true`).
pub fn bytes_mask(bytes: &[u8]) -> (r: Vec<bool>)
    ensures
        r@ == bytes@.map_values(|c: u8| c != 0u8),
{
    bytes_to_mask(bytes, 0)
}

/// Marks every byte that differs from `hole` as kept.
fn bytes_to_mask(bytes: &[u8], hole: u8) -> (r: Vec<bool>)
    ensures
        r@ == bytes@.map_values(|c: u8| c != hole),
{
    let mut r: Vec<bool> = Vec::with_capacity(bytes.len());
    let mut i: usize = 0;
    while i < bytes.len()
        invariant
            i <= bytes@.len(),
            r@ == bytes@.subrange(0, i as int).map_values(|c: u8| c != hole),
        decreases bytes@.len() - i,
    {
        r.push(bytes[i] != hole);
        i = i + 1;
        assert(r@ =~= bytes@.subrange(0, i as int).map_values(|c: u8| c != hole));
    }
    assert(bytes@.subrange(0, i as int) == bytes@);
    r
}

/* Scan Data */

/// An address in memory at which a pattern was matched, as well as the bytes that
/// triggered the match.
#[derive(Clone, Debug, PartialEq)]
pub struct ScanMatch {
    /// The match address.
    pub addr: usize,
    /// The bytes matched.
    pub value: Vec<u8>,
}

/// The text of a match: `Matched Value [`, its bytes as `0x41, 0x42`, `] at 0x` and
/// its address in at least six hexadecimal digits.
pub open spec fn match_text(value: Seq<u8>, addr: nat) -> Seq<u8> {
    seq![77u8, 97u8, 116u8, 99u8, 104u8, 101u8, 100u8, 32u8, 86u8, 97u8, 108u8, 117u8, 101u8, 32u8, 91u8]
        + text::bytes_text(value, value.len()) + seq![93u8, 32u8, 97u8, 116u8, 32u8, 48u8, 120u8]
        + text::padded_hex(addr, 6)
}

impl ScanMatch {
    /// Describes the match as text, as in `Matched Value [0x41, 0x42] at 0x001000`.
    pub fn describe(&self) -> (r: String)
        ensures
            r@ == crate::util::ascii_chars(match_text(self.value@, self.addr as nat)),
    {
        let out: Vec<u8> = vec![77u8, 97u8, 116u8, 99u8, 104u8, 101u8, 100u8, 32u8, 86u8, 97u8, 108u8, 117u8, 101u8, 32u8, 91u8];
        let ghost head = out@;
        let body = text::describe_bytes(self.value.as_slice());
        let tail: Vec<u8> = vec![93u8, 32u8, 97u8, 116u8, 32u8, 48u8, 120u8];
        let ghost mid = tail@;
        let addr = text::hex_padded(self.addr, 6);
        let r1 = crate::util::concat_vecs(out, body);
        let r2 = crate::util::concat_vecs(r1, tail);
        let r3 = crate::util::concat_vecs(r2, addr);
        proof {
            assert(r3@ =~= match_text(self.value@, self.addr as nat));
            assert forall|k: int| 0 <= k < r3@.len() implies #[trigger] r3@[k] < 128 by {
                let a = head.len() as int;
                let b = a + text::bytes_text(self.value@, self.value@.len()).len();
                let c = b + mid.len();
                if k < a {
                    assert(r3@[k] == head[k]);
                } else if k < b {
                    assert(r3@[k] == text::bytes_text(self.value@, self.value@.len())[k - a]);
                } else if k < c {
                    assert(r3@[k] == mid[k - b]);
                } else {
                    assert(r3@[k] == text::padded_hex(self.addr as nat, 6)[k - c]);
                }
            }
        }
        crate::util::ascii_string(r3)
    }
}

impl View for ScanMatch {
    type V = MatchView;

    open spec fn view(&self) -> MatchView {
        MatchView { addr: self.addr as int, value: self.value@ }
    }
}

/// The result of scanning a chunk of memory.
#[derive(Clone, Debug)]
pub struct ChunkScanResult {
    /// The pattern that was scanned for.
    pub pattern: BytePattern,
    /// The scan range.
    pub range: AddressRange,
    /// A vector of matches.
    pub matches: Vec<ScanMatch>,
}

impl ChunkScanResult {
    /// Returns `true` if the result contains any matches.
    pub fn has_matches(&self) -> (r: bool)
        ensures
            r == (self.matches@.len() > 0),
    {
        self.matches.len() > 0
    }

    /// Describes the result as text, as in
    /// `2 matches for pattern Scan Pattern [0x41] in range [00001000 - 00002000]`.
    pub fn describe(&self) -> (r: String)
        requires
            self.pattern.wf(),
        ensures
            r@ == crate::util::ascii_chars(
                crate::mem::buffer::dec_bytes(self.matches@.len()) + seq![
                    32u8, 109u8, 97u8, 116u8, 99u8, 104u8, 101u8, 115u8, 32u8, 102u8, 111u8, 114u8,
                    32u8, 112u8, 97u8, 116u8, 116u8, 101u8, 114u8, 110u8, 32u8,
                ] + text::pattern_text(self.pattern@.0, self.pattern@.1) + seq![
                    32u8, 105u8, 110u8, 32u8, 114u8, 97u8, 110u8, 103u8, 101u8, 32u8,
                ] + crate::mem::reader::range_text(self.range),
            ),
    {
        let count = text::decimal(self.matches.len());
        let words: Vec<u8> = vec![32u8, 109u8, 97u8, 116u8, 99u8, 104u8, 101u8, 115u8, 32u8, 102u8, 111u8, 114u8, 32u8, 112u8, 97u8, 116u8, 116u8, 101u8, 114u8, 110u8, 32u8];
        proof {
            self.pattern.lemma_wf();
        }
        let v = self.pattern.value();
        let m = self.pattern.mask();
        proof {
            assert(v@ =~= self.pattern@.0);
            match self.pattern@.1 {
                Some(ms) => {
                    assert(ms.subrange(0, self.pattern@.0.len() as int) =~= ms);
                },
                None => {},
            }
            assert(crate::util::opt_slice_view(m) == self.pattern@.1);
        }
        let pat = text::pattern_text_bytes(v, m);
        let in_range: Vec<u8> = vec![32u8, 105u8, 110u8, 32u8, 114u8, 97u8, 110u8, 103u8, 101u8, 32u8];
        let range = self.range.describe_bytes();
        let ghost (c, w, p, i, g) = (count@, words@, pat@, in_range@, range@);
        let r = crate::util::concat_vecs(
            crate::util::concat_vecs(crate::util::concat_vecs(crate::util::concat_vecs(count, words), pat), in_range),
            range,
        );
        proof {
            assert(w =~= seq![
                32u8, 109u8, 97u8, 116u8, 99u8, 104u8, 101u8, 115u8, 32u8, 102u8, 111u8, 114u8,
                32u8, 112u8, 97u8, 116u8, 116u8, 101u8, 114u8, 110u8, 32u8,
            ]);
            assert(i =~= seq![32u8, 105u8, 110u8, 32u8, 114u8, 97u8, 110u8, 103u8, 101u8, 32u8]);
            assert(r@ =~= c + w + p + i + g);
            assert forall|k: int| 0 <= k < r@.len() implies #[trigger] r@[k] < 128 by {
                let a = c.len() as int;
                let b = a + w.len();
                let d = b + p.len();
                let e = d + i.len();
                if k < a {
                    assert(r@[k] == c[k]);
                } else if k < b {
                    assert(r@[k] == w[k - a]);
                } else if k < d {
                    assert(r@[k] == p[k - b]);
                } else if k < e {
                    assert(r@[k] == i[k - d]);
                } else {
                    assert(r@[k] == g[k - e]);
                }
            }
        }
        crate::util::ascii_string(r)
    }
}

} // verus!
