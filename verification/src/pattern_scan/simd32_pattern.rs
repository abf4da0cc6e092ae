//! A pattern over a fixed window of 32 bytes.

use vstd::prelude::*;

use super::word_match::{build_matcher, WordMatcher};
use super::{mask_at, mask_fits, masked_match, BytePattern, FromBytes, ScanPattern};
use crate::util::{
    all_true, concat_masks, concat_vecs, fill_bools, fill_bytes, opt_vec_view,
    slice_to_vec,
};

verus! {

/// The window of a 32-byte pattern whose meaningful bytes are `v`: `v` padded with zeros.
pub open spec fn simd_window(v: Seq<u8>) -> Seq<u8> {
    v + Seq::new((32 - v.len()) as nat, |i: int| 0u8)
}

/// The window mask of a 32-byte pattern whose meaningful mask is `m`: `m` padded with
/// ignored bytes.
pub open spec fn simd_window_mask(m: Option<Seq<bool>>) -> Option<Seq<bool>> {
    match m {
        None => None,
        Some(s) => Some(s + Seq::new((32 - s.len()) as nat, |i: int| false)),
    }
}

/// A pattern consisting of a single 32-byte window, compared a word at a time.
///
/// A shorter pattern is padded with ignored bytes up to 32, and reports only its own
/// bytes in matches.
#[derive(Clone, Debug)]
pub struct Simd32Pattern {
    matcher: WordMatcher,
    true_len: usize,
    value_bytes: Vec<u8>,
    mask_bools: Option<Vec<bool>>,
}

impl View for Simd32Pattern {
    type V = (Seq<u8>, Option<Seq<bool>>);

    closed spec fn view(&self) -> (Seq<u8>, Option<Seq<bool>>) {
        (self.value_bytes@, opt_vec_view(self.mask_bools))
    }
}

impl Simd32Pattern {
    /// The matcher stands for the padded window, and the lengths agree.
    pub closed spec fn inner_wf(&self) -> bool {
        &&& self.true_len == self.value_bytes@.len()
        &&& self.true_len <= 32
        &&& mask_fits(self@.0, self@.1)
        &&& (self@.1 is None ==> self.true_len == 32)
        &&& self.matcher.represents(simd_window(self@.0), simd_window_mask(self@.1))
    }

    fn with_true_len(p_value: Vec<u8>, mask: Option<Vec<bool>>, true_len: usize) -> (r: Self)
        requires
            p_value@.len() == 32,
            mask_fits(p_value@, opt_vec_view(mask)),
            true_len <= 32,
            mask is None ==> true_len == 32,
            p_value@.subrange(true_len as int, 32) == Seq::new((32 - true_len) as nat, |i: int| 0u8),
            mask is Some ==> mask.unwrap()@.subrange(true_len as int, 32) == Seq::new(
                (32 - true_len) as nat,
                |i: int| false,
            ),
        ensures
            r.wf(),
            r@.0 == p_value@.subrange(0, true_len as int),
            r@.1 == match opt_vec_view(mask) {
                None => None,
                Some(m) => Some(m.subrange(0, true_len as int)),
            },
    {
        let matcher = build_matcher(
            p_value.as_slice(),
            match &mask {
                None => None,
                Some(m) => Some(m.as_slice()),
            },
        );
        let value_bytes = crate::util::copy_range(p_value.as_slice(), 0, true_len);
        let mask_bools = match &mask {
            None => None,
            Some(m) => Some(crate::util::copy_range(m.as_slice(), 0, true_len)),
        };
        let r = Simd32Pattern { matcher, true_len, value_bytes, mask_bools };
        assert(simd_window(r@.0) =~= p_value@);
        proof {
            if let Some(m) = opt_vec_view(mask) {
                assert(simd_window_mask(r@.1).unwrap() =~= m);
            }
        }
        r
    }
}

impl ScanPattern for Simd32Pattern {
    open spec fn spec_window(&self) -> Seq<u8> {
        simd_window(self@.0)
    }

    open spec fn spec_window_mask(&self) -> Option<Seq<bool>> {
        simd_window_mask(self@.1)
    }

    open spec fn spec_true_len(&self) -> nat {
        self@.0.len()
    }

    open spec fn wf(&self) -> bool {
        self.inner_wf()
    }

    proof fn lemma_wf(&self) {
    }

    fn len(&self) -> (r: usize) {
        32
    }

    fn true_len(&self) -> (r: usize) {
        self.true_len
    }

    fn value(&self) -> (r: &[u8]) {
        let r = self.value_bytes.as_slice();
        assert(simd_window(self@.0).subrange(0, self@.0.len() as int) =~= r@);
        r
    }

    fn mask(&self) -> (r: Option<&[bool]>) {
        match &self.mask_bools {
            None => None,
            Some(m) => {
                let s = m.as_slice();
                assert(simd_window_mask(self@.1).unwrap().subrange(0, self@.0.len() as int) =~= s@);
                Some(s)
            },
        }
    }

    fn matches(&self, buf: &[u8]) -> (r: bool) {
        self.matcher.check(buf, Ghost(simd_window(self@.0)), Ghost(simd_window_mask(self@.1)))
    }
}

impl FromBytes for Simd32Pattern {
    open spec fn accepts_len(len: nat) -> bool {
        len == 32
    }

    fn new(value: Vec<u8>, mask: Option<Vec<bool>>) -> (r: Self) {
        assert(value@.subrange(32, 32) =~= Seq::new((32 - 32) as nat, |i: int| 0u8));
        proof {
            if let Some(m) = opt_vec_view(mask) {
                assert(m.subrange(32, 32) =~= Seq::new((32 - 32) as nat, |i: int| false));
            }
        }
        let r = Self::with_true_len(value, mask, 32);
        proof {
            assert(r@.0 =~= value@);
            assert(simd_window(r@.0) =~= value@);
            if let Some(m) = opt_vec_view(mask) {
                assert(r@.1.unwrap() =~= m);
                assert(simd_window_mask(r@.1).unwrap() =~= m);
            }
        }
        r
    }
}

/// The meaningful mask of a 32-byte pattern built from a shorter one: its own mask, or
/// (if it had none) all `true`.
pub open spec fn simd_mask_of(m: Option<Seq<bool>>, len: nat) -> Option<Seq<bool>> {
    match m {
        None => Some(all_true(len)),
        Some(s) => Some(s),
    }
}

impl Simd32Pattern {
    /// A 32-byte pattern from another pattern of at most 32 bytes. A shorter pattern is
    /// padded with ignored zero bytes; its meaningful bytes stay those of the other
    /// pattern.
    pub fn from_pattern<P: ScanPattern>(other: &P) -> (r: Self)
        requires
            other.wf(),
            other.spec_true_len() == other.spec_window().len(),
            other.spec_window().len() <= 32,
        ensures
            r.wf(),
            r@.0 == other.spec_window(),
            other.spec_window().len() == 32 ==> r@.1 == other.spec_window_mask(),
            other.spec_window().len() < 32 ==> r@.1 == simd_mask_of(
                other.spec_window_mask(),
                other.spec_window().len(),
            ),
    {
        proof {
            other.lemma_wf();
        }
        let len = other.len();
        let value = other.value();
        let mask = other.mask();
        assert(other.spec_window().subrange(0, len as int) == other.spec_window());
        proof {
            if let Some(m) = other.spec_window_mask() {
                assert(m.subrange(0, len as int) == m);
            }
        }
        if len < 32 {
            let padded_val = concat_vecs(slice_to_vec(value), fill_bytes(0, 32 - len));
            let pad_mask = fill_bools(false, 32 - len);
            let padded_mask = concat_masks(mask, Some(pad_mask.as_slice()), 32);
            proof {
                assert(padded_val@.subrange(0, len as int) =~= other.spec_window());
                assert(padded_val@.subrange(len as int, 32) =~= Seq::new((32 - len) as nat, |i: int| 0u8));
                let pm = opt_vec_view(padded_mask).unwrap();
                assert(pm.subrange(len as int, 32) =~= Seq::new((32 - len) as nat, |i: int| false));
            }
            let r = Self::with_true_len(padded_val, padded_mask, len);
            proof {
                let pm = opt_vec_view(padded_mask).unwrap();
                match other.spec_window_mask() {
                    None => assert(pm.subrange(0, len as int) =~= all_true(len as nat)),
                    Some(m) => assert(pm.subrange(0, len as int) =~= m),
                }
            }
            r
        } else {
            Self::new(slice_to_vec(value), match mask {
                None => None,
                Some(m) => Some(slice_to_vec(m)),
            })
        }
    }

    /// A 32-byte pattern from a byte pattern of at most 32 bytes.
    pub fn from_byte_pattern(other: BytePattern) -> (r: Self)
        requires
            other.wf(),
            other@.0.len() <= 32,
        ensures
            r.wf(),
            r@.0 == other@.0,
            other@.0.len() == 32 ==> r@.1 == other@.1,
            other@.0.len() < 32 ==> r@.1 == simd_mask_of(other@.1, other@.0.len()),
    {
        Self::from_pattern(&other)
    }
}

/// A 32-byte pattern built from a shorter pattern matches a 32-byte window exactly when
/// the shorter pattern matches the window's first bytes.
pub proof fn lemma_simd_matches_source(v: Seq<u8>, m: Option<Seq<bool>>, buf: Seq<u8>)
    requires
        v.len() <= 32,
        mask_fits(v, m),
        buf.len() == 32,
    ensures
        masked_match(simd_window(v), simd_window_mask(simd_mask_of(m, v.len())), buf)
            <==> masked_match(v, m, buf.subrange(0, v.len() as int)),
{
    let w = simd_window(v);
    let wm = simd_window_mask(simd_mask_of(m, v.len()));
    let b = buf.subrange(0, v.len() as int);
    assert forall|i: int| 0 <= i < v.len() implies mask_at(wm, i) == mask_at(m, i) && w[i] == v[i]
        && b[i] == buf[i] by {}
    assert forall|i: int| v.len() <= i < 32 implies !mask_at(wm, i) by {}
    if masked_match(w, wm, buf) {
        assert forall|i: int| 0 <= i < v.len() && mask_at(m, i) implies #[trigger] b[i] == v[i] by {
            assert(buf[i] == w[i]);
        }
    }
    if masked_match(v, m, b) {
        assert forall|i: int| 0 <= i < w.len() && mask_at(wm, i) implies #[trigger] buf[i] == w[i] by {
            if i < v.len() {
                assert(b[i] == v[i]);
            }
        }
    }
}

proof fn lemma_simd_windows(v: Seq<u8>, m: Option<Seq<bool>>, base: int, buf: Seq<u8>, n: nat)
    requires
        v.len() <= 32,
        mask_fits(v, m),
        buf.len() >= 32,
        n <= super::window_count(buf.len(), 32),
    ensures
        super::scan_windows(simd_window(v), simd_window_mask(simd_mask_of(m, v.len())), v.len(), base, buf, n)
            == super::scan_windows(v, m, v.len(), base, buf.subrange(0, buf.len() - 32 + v.len()), n),
    decreases n,
{
    if n > 0 {
        lemma_simd_windows(v, m, base, buf, (n - 1) as nat);
        let off = 4 * (n - 1);
        let short = buf.subrange(0, buf.len() - 32 + v.len());
        assert(off + 32 <= buf.len());
        let win = buf.subrange(off, off + 32);
        lemma_simd_matches_source(v, m, win);
        assert(simd_window(v).len() == 32);
        assert(win.subrange(0, v.len() as int) =~= short.subrange(off, off + v.len()));
        assert(buf.subrange(off, off + v.len()) =~= short.subrange(off, off + v.len()));
    }
}

/// Over a buffer of at least 32 bytes, a 32-byte pattern built from a shorter pattern
/// finds what the shorter pattern finds in the buffer without its last `32 - len` bytes:
/// the same addresses and the same reported bytes (a window is only looked at where all
/// 32 bytes fit).
pub proof fn lemma_simd_scan_is_byte_scan(v: Seq<u8>, m: Option<Seq<bool>>, base: int, buf: Seq<u8>)
    requires
        v.len() <= 32,
        mask_fits(v, m),
        buf.len() >= 32,
    ensures
        super::spec_scan(simd_window(v), simd_window_mask(simd_mask_of(m, v.len())), v.len(), base, buf)
            == super::spec_scan(v, m, v.len(), base, buf.subrange(0, buf.len() - 32 + v.len())),
{
    assert(simd_window(v).len() == 32);
    lemma_simd_windows(v, m, base, buf, super::window_count(buf.len(), 32));
}

} // verus!
