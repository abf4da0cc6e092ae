//! The simplest scan pattern: a vector of bytes and an optional mask.

use vstd::prelude::*;

use super::{mask_at, mask_fits, masked_match, FromBytes, ScanPattern};
use crate::util::{concat_masks, concat_vecs, opt_vec_view, slice_to_vec, spec_concat_masks};

verus! {

/// The simplest scan pattern: a vector of bytes and an optional mask of the same length.
///
/// Can scan for data of any length.
#[derive(Clone, Debug, PartialEq)]
pub struct BytePattern {
    value: Vec<u8>,
    mask: Option<Vec<bool>>,
}

impl View for BytePattern {
    type V = (Seq<u8>, Option<Seq<bool>>);

    closed spec fn view(&self) -> (Seq<u8>, Option<Seq<bool>>) {
        (self.value@, opt_vec_view(self.mask))
    }
}

/// The value and mask of a concatenation: the values are joined, and the masks are
/// joined with a missing mask standing for `true`s.
pub open spec fn spec_concat(
    a: (Seq<u8>, Option<Seq<bool>>),
    b: (Seq<u8>, Option<Seq<bool>>),
) -> (Seq<u8>, Option<Seq<bool>>) {
    (a.0 + b.0, spec_concat_masks(a.1, b.1, a.0.len() + b.0.len()))
}

impl ScanPattern for BytePattern {
    open spec fn spec_window(&self) -> Seq<u8> {
        self@.0
    }

    open spec fn spec_window_mask(&self) -> Option<Seq<bool>> {
        self@.1
    }

    open spec fn spec_true_len(&self) -> nat {
        self@.0.len()
    }

    open spec fn wf(&self) -> bool {
        &&& mask_fits(self@.0, self@.1)
        &&& self@.0.len() <= usize::MAX
    }

    proof fn lemma_wf(&self) {
    }

    fn len(&self) -> (r: usize) {
        self.value.len()
    }

    fn true_len(&self) -> (r: usize) {
        self.value.len()
    }

    fn value(&self) -> (r: &[u8]) {
        let r = self.value.as_slice();
        assert(r@.subrange(0, r@.len() as int) == r@);
        r
    }

    fn mask(&self) -> (r: Option<&[bool]>) {
        match &self.mask {
            None => None,
            Some(m) => {
                let s = m.as_slice();
                assert(s@.subrange(0, s@.len() as int) == s@);
                Some(s)
            },
        }
    }

    fn matches(&self, buf: &[u8]) -> (r: bool) {
        let n = self.value.len();
        let mut i: usize = 0;
        while i < n
            invariant
                self.wf(),
                n == self@.0.len(),
                buf@.len() == n,
                i <= n,
                forall|j: int| 0 <= j < i && mask_at(self@.1, j) ==> buf@[j] == self@.0[j],
            decreases n - i,
        {
            let keep = match &self.mask {
                None => true,
                Some(m) => m[i],
            };
            if keep && buf[i] != self.value[i] {
                return false;
            }
            i = i + 1;
        }
        true
    }
}

impl FromBytes for BytePattern {
    open spec fn accepts_len(len: nat) -> bool {
        true
    }

    fn new(value: Vec<u8>, mask: Option<Vec<bool>>) -> (r: BytePattern) {
        // Asking for the length tells Verus that it fits a `usize`.
        let _len: usize = value.len();
        BytePattern { value, mask }
    }
}

impl BytePattern {
    /// A byte pattern with the value and mask of the meaningful bytes of another pattern.
    pub fn from_pattern<P: ScanPattern>(pattern: &P) -> (r: BytePattern)
        requires
            pattern.wf(),
        ensures
            r.wf(),
            r@.0 == pattern.spec_window().subrange(0, pattern.spec_true_len() as int),
            r@.1 == match pattern.spec_window_mask() {
                None => None,
                Some(m) => Some(m.subrange(0, pattern.spec_true_len() as int)),
            },
    {
        proof {
            pattern.lemma_wf();
        }
        let value = slice_to_vec(pattern.value());
        let _ = value.len();
        let mask = match pattern.mask() {
            None => None,
            Some(m) => Some(slice_to_vec(m)),
        };
        BytePattern { value, mask }
    }

    /// Concatenates two patterns.
    ///
    /// If either pattern has a mask, the result has one too, in which the bytes of the
    /// unmasked pattern are all kept.
    pub fn concat(self, other: BytePattern) -> (r: BytePattern)
        requires
            self.wf(),
            other.wf(),
            self@.0.len() + other@.0.len() <= usize::MAX,
        ensures
            r.wf(),
            r@ == spec_concat(self@, other@),
    {
        let new_len = self.value.len() + other.value.len();
        let new_mask = concat_masks(
            match &self.mask {
                None => None,
                Some(m) => Some(m.as_slice()),
            },
            match &other.mask {
                None => None,
                Some(m) => Some(m.as_slice()),
            },
            new_len,
        );
        let new_value = concat_vecs(self.value, other.value);
        BytePattern { value: new_value, mask: new_mask }
    }
}

impl core::ops::Add for BytePattern {
    type Output = Self;

    /// Same as [`BytePattern::concat`].
    fn add(self, other: Self) -> (r: Self)
        ensures
            r.wf(),
            r@ == spec_concat(self@, other@),
    {
        self.concat(other)
    }
}

impl vstd::std_specs::ops::AddSpecImpl for BytePattern {
    open spec fn obeys_add_spec() -> bool {
        false
    }

    open spec fn add_req(self, rhs: BytePattern) -> bool {
        &&& self.wf()
        &&& rhs.wf()
        &&& self@.0.len() + rhs@.0.len() <= usize::MAX
    }

    /// A well-formed pattern whose value and mask are those of `self` followed by those of
    /// `rhs`, as `+` returns.
    closed spec fn add_spec(self, rhs: BytePattern) -> BytePattern {
        choose|r: BytePattern| r.wf() && r@ == spec_concat(self@, rhs@)
    }
}

/// A concatenation matches two windows side by side exactly when each part matches
/// its own window.
pub proof fn lemma_concat_matches(
    a: (Seq<u8>, Option<Seq<bool>>),
    b: (Seq<u8>, Option<Seq<bool>>),
    w1: Seq<u8>,
    w2: Seq<u8>,
)
    requires
        mask_fits(a.0, a.1),
        mask_fits(b.0, b.1),
        w1.len() == a.0.len(),
        w2.len() == b.0.len(),
    ensures
        masked_match(spec_concat(a, b).0, spec_concat(a, b).1, w1 + w2) <==> (masked_match(
            a.0,
            a.1,
            w1,
        ) && masked_match(b.0, b.1, w2)),
{
    let c = spec_concat(a, b);
    let w = w1 + w2;
    assert forall|i: int| 0 <= i < a.0.len() implies mask_at(c.1, i) == mask_at(a.1, i) && w[i]
        == w1[i] && c.0[i] == a.0[i] by {}
    assert forall|i: int| 0 <= i < b.0.len() implies mask_at(c.1, a.0.len() + i) == mask_at(
        b.1,
        i,
    ) && w[a.0.len() + i] == w2[i] && c.0[a.0.len() + i] == b.0[i] by {}
    if masked_match(c.0, c.1, w) {
        assert forall|i: int| 0 <= i < a.0.len() && mask_at(a.1, i) implies #[trigger] w1[i]
            == a.0[i] by {
            assert(w[i] == c.0[i]);
        }
        assert forall|i: int| 0 <= i < b.0.len() && mask_at(b.1, i) implies #[trigger] w2[i]
            == b.0[i] by {
            assert(w[a.0.len() + i] == c.0[a.0.len() + i]);
        }
    }
    if masked_match(a.0, a.1, w1) && masked_match(b.0, b.1, w2) {
        assert forall|i: int| 0 <= i < c.0.len() && mask_at(c.1, i) implies #[trigger] w[i]
            == c.0[i] by {
            if i < a.0.len() {
                assert(w1[i] == a.0[i]);
            } else {
                let j = i - a.0.len();
                assert(mask_at(c.1, a.0.len() + j) == mask_at(b.1, j));
                assert(w2[j] == b.0[j]);
            }
        }
    }
}

} // verus!
