//! Comparing a pattern against a buffer four bytes at a time.

use vstd::prelude::*;

use super::{mask_at, mask_fits, masked_match};
use crate::util::{le_u32_at, read_u32_le};

verus! {

/// The byte that stands for a mask entry in a word mask: all ones where the byte is
/// kept, zero where it is ignored.
pub open spec fn mask_byte(m: Option<Seq<bool>>, i: int) -> u8 {
    if mask_at(m, i) {
        0xffu8
    } else {
        0u8
    }
}

/// The value byte with ignored positions cleared.
pub open spec fn masked_byte(v: Seq<u8>, m: Option<Seq<bool>>, i: int) -> u8 {
    if mask_at(m, i) {
        v[i]
    } else {
        0u8
    }
}

/// The masked value bytes.
pub open spec fn masked_bytes(v: Seq<u8>, m: Option<Seq<bool>>) -> Seq<u8> {
    Seq::new(v.len(), |i: int| masked_byte(v, m, i))
}

/// The mask bytes.
pub open spec fn mask_bytes(v: Seq<u8>, m: Option<Seq<bool>>) -> Seq<u8> {
    Seq::new(v.len(), |i: int| mask_byte(m, i))
}

/// A pattern cut into little-endian 32-bit words: the masked value and (if there is a
/// mask) the mask, one word per four bytes.
#[derive(Clone, Debug)]
pub struct WordMatcher {
    pub words: Vec<u32>,
    pub mask: Option<Vec<u32>>,
}

impl WordMatcher {
    /// The words stand for the value `v` and mask `m`.
    pub open spec fn represents(&self, v: Seq<u8>, m: Option<Seq<bool>>) -> bool {
        &&& v.len() == 4 * self.words@.len()
        &&& mask_fits(v, m)
        &&& (m is None <==> self.mask is None)
        &&& forall|k: int|
            0 <= k < self.words@.len() ==> #[trigger] self.words@[k] == le_u32_at(
                masked_bytes(v, m),
                4 * k,
            )
        &&& match self.mask {
            None => true,
            Some(mw) => mw@.len() == self.words@.len() && forall|k: int|
                0 <= k < mw@.len() ==> #[trigger] mw@[k] == le_u32_at(mask_bytes(v, m), 4 * k),
        }
    }
}

/// Cuts a value and mask of a multiple of four bytes into words.
pub fn build_matcher(v: &[u8], m: Option<&[bool]>) -> (r: WordMatcher)
    requires
        v@.len() % 4 == 0,
        mask_fits(v@, crate::util::opt_slice_view(m)),
    ensures
        r.represents(v@, crate::util::opt_slice_view(m)),
{
    let ghost mv = crate::util::opt_slice_view(m);
    let n = v.len();
    let mut mvals: Vec<u8> = Vec::with_capacity(n);
    let mut mbytes: Vec<u8> = Vec::with_capacity(n);
    let mut i: usize = 0;
    while i < n
        invariant
            n == v@.len(),
            mask_fits(v@, mv),
            mv == crate::util::opt_slice_view(m),
            i <= n,
            mvals@ == masked_bytes(v@, mv).subrange(0, i as int),
            mbytes@ == mask_bytes(v@, mv).subrange(0, i as int),
        decreases n - i,
    {
        let keep = match m {
            None => true,
            Some(ms) => ms[i],
        };
        if keep {
            mvals.push(v[i]);
            mbytes.push(0xff);
        } else {
            mvals.push(0);
            mbytes.push(0);
        }
        i = i + 1;
        assert(mvals@ =~= masked_bytes(v@, mv).subrange(0, i as int));
        assert(mbytes@ =~= mask_bytes(v@, mv).subrange(0, i as int));
    }
    assert(mvals@ =~= masked_bytes(v@, mv));
    assert(mbytes@ =~= mask_bytes(v@, mv));
    let nw = n / 4;
    let mut words: Vec<u32> = Vec::with_capacity(nw);
    let mut mwords: Vec<u32> = Vec::with_capacity(nw);
    let mut k: usize = 0;
    while k < nw
        invariant
            nw == n / 4,
            n == v@.len(),
            n % 4 == 0,
            mvals@ == masked_bytes(v@, mv),
            mbytes@ == mask_bytes(v@, mv),
            k <= nw,
            words@.len() == k,
            mwords@.len() == k,
            forall|j: int| 0 <= j < k ==> #[trigger] words@[j] == le_u32_at(mvals@, 4 * j),
            forall|j: int| 0 <= j < k ==> #[trigger] mwords@[j] == le_u32_at(mbytes@, 4 * j),
        decreases nw - k,
    {
        words.push(read_u32_le(mvals.as_slice(), 4 * k));
        mwords.push(read_u32_le(mbytes.as_slice(), 4 * k));
        k = k + 1;
    }
    let mask = match m {
        None => None,
        Some(_) => Some(mwords),
    };
    WordMatcher { words, mask }
}

/// The low byte of each of four words, put together.
pub open spec fn le4(b0: u8, b1: u8, b2: u8, b3: u8) -> u32 {
    (b0 as u32) | ((b1 as u32) << 8u32) | ((b2 as u32) << 16u32) | ((b3 as u32) << 24u32)
}

proof fn lemma_le4_and(b0: u8, b1: u8, b2: u8, b3: u8, m0: u8, m1: u8, m2: u8, m3: u8)
    ensures
        le4(b0, b1, b2, b3) & le4(m0, m1, m2, m3) == le4(b0 & m0, b1 & m1, b2 & m2, b3 & m3),
{
    assert(((b0 as u32) | ((b1 as u32) << 8u32) | ((b2 as u32) << 16u32) | ((b3 as u32) << 24u32))
        & ((m0 as u32) | ((m1 as u32) << 8u32) | ((m2 as u32) << 16u32) | ((m3 as u32) << 24u32))
        == (((b0 & m0) as u32) | (((b1 & m1) as u32) << 8u32) | (((b2 & m2) as u32) << 16u32) | (((b3
        & m3) as u32) << 24u32))) by (bit_vector);
}

proof fn lemma_le4_eq(c0: u8, c1: u8, c2: u8, c3: u8, d0: u8, d1: u8, d2: u8, d3: u8)
    ensures
        (le4(c0, c1, c2, c3) == le4(d0, d1, d2, d3)) <==> (c0 == d0 && c1 == d1 && c2 == d2 && c3
            == d3),
{
    assert((((c0 as u32) | ((c1 as u32) << 8u32) | ((c2 as u32) << 16u32) | ((c3 as u32) << 24u32))
        == ((d0 as u32) | ((d1 as u32) << 8u32) | ((d2 as u32) << 16u32) | ((d3 as u32) << 24u32)))
        <==> (c0 == d0 && c1 == d1 && c2 == d2 && c3 == d3)) by (bit_vector);
}

proof fn lemma_byte_mask(b: u8, v: u8, keep: bool)
    ensures
        (b & (if keep { 0xffu8 } else { 0u8 })) == (if keep { v } else { 0u8 }) <==> (keep ==> b
            == v),
{
    assert(b & 0xffu8 == b) by (bit_vector);
    assert(b & 0u8 == 0u8) by (bit_vector);
}

/// The four bytes of word `k` of `buf`, compared under the mask, agree with the value
/// exactly when the word comparison says so.
proof fn lemma_word_check(v: Seq<u8>, m: Option<Seq<bool>>, buf: Seq<u8>, k: int)
    requires
        mask_fits(v, m),
        buf.len() == v.len(),
        0 <= k,
        4 * k + 4 <= v.len(),
    ensures
        ((le_u32_at(buf, 4 * k) & le_u32_at(mask_bytes(v, m), 4 * k)) == le_u32_at(
            masked_bytes(v, m),
            4 * k,
        )) <==> (forall|i: int|
            4 * k <= i < 4 * k + 4 && mask_at(m, i) ==> #[trigger] buf[i] == v[i]),
        m is None ==> ((le_u32_at(buf, 4 * k) == le_u32_at(masked_bytes(v, m), 4 * k)) <==> (
        forall|i: int| 4 * k <= i < 4 * k + 4 && mask_at(m, i) ==> #[trigger] buf[i] == v[i])),
{
    let i = 4 * k;
    let mb = mask_bytes(v, m);
    let mv = masked_bytes(v, m);
    assert(le_u32_at(buf, i) == le4(buf[i], buf[i + 1], buf[i + 2], buf[i + 3]));
    assert(le_u32_at(mb, i) == le4(mb[i], mb[i + 1], mb[i + 2], mb[i + 3]));
    assert(le_u32_at(mv, i) == le4(mv[i], mv[i + 1], mv[i + 2], mv[i + 3]));
    lemma_le4_and(buf[i], buf[i + 1], buf[i + 2], buf[i + 3], mb[i], mb[i + 1], mb[i + 2], mb[i + 3]);
    lemma_le4_eq(
        buf[i] & mb[i],
        buf[i + 1] & mb[i + 1],
        buf[i + 2] & mb[i + 2],
        buf[i + 3] & mb[i + 3],
        mv[i],
        mv[i + 1],
        mv[i + 2],
        mv[i + 3],
    );
    lemma_le4_eq(buf[i], buf[i + 1], buf[i + 2], buf[i + 3], mv[i], mv[i + 1], mv[i + 2], mv[i + 3]);
    lemma_byte_mask(buf[i], v[i], mask_at(m, i));
    lemma_byte_mask(buf[i + 1], v[i + 1], mask_at(m, i + 1));
    lemma_byte_mask(buf[i + 2], v[i + 2], mask_at(m, i + 2));
    lemma_byte_mask(buf[i + 3], v[i + 3], mask_at(m, i + 3));
    assert forall|j: int| i <= j < i + 4 && mask_at(m, j) && (forall|t: int|
        4 * k <= t < 4 * k + 4 && mask_at(m, t) ==> #[trigger] buf[t] == v[t]) implies buf[j]
        == v[j] by {}
}

impl WordMatcher {
    /// Compares `buf` against the pattern the words stand for, a word at a time.
    pub fn check(&self, buf: &[u8], Ghost(v): Ghost<Seq<u8>>, Ghost(m): Ghost<Option<Seq<bool>>>) -> (r: bool)
        requires
            self.represents(v, m),
            buf@.len() == v.len(),
        ensures
            r == masked_match(v, m, buf@),
    {
        let n = self.words.len();
        let blen = buf.len();
        let mut k: usize = 0;
        while k < n
            invariant
                self.represents(v, m),
                blen == buf@.len(),
                buf@.len() == v.len(),
                n == self.words@.len(),
                k <= n,
                forall|i: int| 0 <= i < 4 * k && mask_at(m, i) ==> #[trigger] buf@[i] == v[i],
            decreases n - k,
        {
            let bw = read_u32_le(buf, 4 * k);
            proof {
                lemma_word_check(v, m, buf@, k as int);
            }
            let ok = match &self.mask {
                None => bw == self.words[k],
                Some(mw) => (bw & mw[k]) == self.words[k],
            };
            if !ok {
                assert(!masked_match(v, m, buf@));
                return false;
            }
            k = k + 1;
        }
        true
    }
}

} // verus!
