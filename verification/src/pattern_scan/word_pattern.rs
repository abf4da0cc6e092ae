//! A pattern compared a word at a time.

use vstd::prelude::*;

use super::byte_pattern::spec_concat;
use super::word_match::{build_matcher, WordMatcher};
use super::{BytePattern, FromBytes, ScanPattern};
use super::text::{word_pattern_text, word_pattern_text_bytes};
use crate::util::{ascii_chars, ascii_string, concat_masks, concat_vecs, opt_vec_view, slice_to_vec};

verus! {

/// The size of a machine word in bytes.
pub fn word_size_bytes() -> (r: usize)
    ensures
        r == crate::word_size(),
        r == 4 || r == 8,
{
    proof {
        broadcast use vstd::layout::layout_of_primitives;
    }
    core::mem::size_of::<usize>()
}

/// A pattern whose length is a whole number of machine words, compared a word at a time.
#[derive(Clone, Debug)]
pub struct WordPattern {
    matcher: WordMatcher,
    true_len: usize,
    value_bytes: Vec<u8>,
    mask_bools: Option<Vec<bool>>,
}

impl View for WordPattern {
    type V = (Seq<u8>, Option<Seq<bool>>);

    closed spec fn view(&self) -> (Seq<u8>, Option<Seq<bool>>) {
        (self.value_bytes@, opt_vec_view(self.mask_bools))
    }
}

impl WordPattern {
    /// The matcher stands for the value and mask, and the lengths agree.
    pub closed spec fn inner_wf(&self) -> bool {
        &&& self.matcher.represents(self.value_bytes@, opt_vec_view(self.mask_bools))
        &&& self.true_len == self.value_bytes@.len()
        &&& self.value_bytes@.len() <= usize::MAX
        &&& self.value_bytes@.len() % crate::word_size() == 0
    }
}

impl ScanPattern for WordPattern {
    open spec fn spec_window(&self) -> Seq<u8> {
        self@.0
    }

    open spec fn spec_window_mask(&self) -> Option<Seq<bool>> {
        self@.1
    }

    open spec fn spec_true_len(&self) -> nat {
        self@.0.len()
    }

    open spec fn wf(&self) -> bool {
        self.inner_wf()
    }

    proof fn lemma_wf(&self) {
    }

    fn len(&self) -> (r: usize) {
        self.value_bytes.len()
    }

    fn true_len(&self) -> (r: usize) {
        self.true_len
    }

    fn value(&self) -> (r: &[u8]) {
        let r = self.value_bytes.as_slice();
        assert(r@.subrange(0, r@.len() as int) == r@);
        r
    }

    fn mask(&self) -> (r: Option<&[bool]>) {
        match &self.mask_bools {
            None => None,
            Some(m) => {
                let s = m.as_slice();
                assert(s@.subrange(0, s@.len() as int) == s@);
                Some(s)
            },
        }
    }

    fn matches(&self, buf: &[u8]) -> (r: bool) {
        self.matcher.check(buf, Ghost(self@.0), Ghost(self@.1))
    }
}

impl FromBytes for WordPattern {
    open spec fn accepts_len(len: nat) -> bool {
        len % crate::word_size() == 0
    }

    fn new(bytes: Vec<u8>, mask: Option<Vec<bool>>) -> (r: WordPattern) {
        let _ = word_size_bytes();
        let len = bytes.len();
        let matcher = build_matcher(
            bytes.as_slice(),
            match &mask {
                None => None,
                Some(m) => Some(m.as_slice()),
            },
        );
        WordPattern { matcher, true_len: len, value_bytes: bytes, mask_bools: mask }
    }
}

impl WordPattern {
    /// A word pattern with the value and mask of the meaningful bytes of another pattern.
    pub fn from_pattern<P: ScanPattern>(pattern: &P) -> (r: WordPattern)
        requires
            pattern.wf(),
            pattern.spec_true_len() % crate::word_size() == 0,
        ensures
            r.wf(),
            r@.0 == pattern.spec_window().subrange(0, pattern.spec_true_len() as int),
            r@.1 == match pattern.spec_window_mask() {
                None => None,
                Some(m) => Some(m.subrange(0, pattern.spec_true_len() as int)),
            },
    {
        proof {
            pattern.lemma_wf();
        }
        let value = slice_to_vec(pattern.value());
        let mask = match pattern.mask() {
            None => None,
            Some(m) => Some(slice_to_vec(m)),
        };
        WordPattern::new(value, mask)
    }

    /// A word pattern with the value and mask of a byte pattern.
    pub fn from_byte_pattern(pattern: BytePattern) -> (r: WordPattern)
        requires
            pattern.wf(),
            pattern@.0.len() % crate::word_size() == 0,
        ensures
            r.wf(),
            r@ == pattern@,
    {
        let r = WordPattern::from_pattern(&pattern);
        assert(pattern@.0.subrange(0, pattern@.0.len() as int) == pattern@.0);
        proof {
            if let Some(m) = pattern@.1 {
                assert(m.subrange(0, pattern@.0.len() as int) == m);
            }
        }
        r
    }

    /// The text that shows this pattern for debugging: with a mask, each word's bytes
    /// together (a compared byte as two hexadecimal digits, an ignored one as `??`) and
    /// the words separated by spaces; without, each byte as `0x` and its digits.
    pub fn debug_text(&self) -> (r: String)
        requires
            self.wf(),
        ensures
            r@ == ascii_chars(word_pattern_text(self@.0, self@.1, crate::word_size())),
    {
        let w = word_size_bytes();
        let v = self.value();
        let m = self.mask();
        proof {
            assert(self@.0.subrange(0, self@.0.len() as int) =~= self@.0);
            if let Some(ms) = self@.1 {
                assert(ms.subrange(0, self@.0.len() as int) =~= ms);
            }
        }
        let bytes = word_pattern_text_bytes(v, m, w);
        ascii_string(bytes)
    }

    /// Concatenates two word patterns, as [`BytePattern::concat`] does.
    pub fn concat(self, other: WordPattern) -> (r: WordPattern)
        requires
            self.wf(),
            other.wf(),
            self@.0.len() + other@.0.len() <= usize::MAX,
        ensures
            r.wf(),
            r@ == spec_concat(self@, other@),
    {
        let new_len = self.value_bytes.len() + other.value_bytes.len();
        let new_mask = concat_masks(
            match &self.mask_bools {
                None => None,
                Some(m) => Some(m.as_slice()),
            },
            match &other.mask_bools {
                None => None,
                Some(m) => Some(m.as_slice()),
            },
            new_len,
        );
        let new_value = concat_vecs(self.value_bytes, other.value_bytes);
        proof {
            let w = crate::word_size();
            assert(w == 4 || w == 8);
            if w == 4 {
                assert((self@.0.len() + other@.0.len()) % 4 == 0);
            } else {
                assert((self@.0.len() + other@.0.len()) % 8 == 0);
            }
        }
        WordPattern::new(new_value, new_mask)
    }
}

impl core::ops::Add for WordPattern {
    type Output = Self;

    /// Same as [`WordPattern::concat`].
    fn add(self, other: Self) -> (r: Self)
        ensures
            r.wf(),
            r@ == spec_concat(self@, other@),
    {
        self.concat(other)
    }
}

impl vstd::std_specs::ops::AddSpecImpl for WordPattern {
    open spec fn obeys_add_spec() -> bool {
        false
    }

    open spec fn add_req(self, rhs: WordPattern) -> bool {
        &&& self.wf()
        &&& rhs.wf()
        &&& self@.0.len() + rhs@.0.len() <= usize::MAX
    }

    /// A well-formed pattern whose value and mask are those of `self` followed by those of
    /// `rhs`, as `+` returns.
    closed spec fn add_spec(self, rhs: WordPattern) -> WordPattern {
        choose|r: WordPattern| r.wf() && r@ == spec_concat(self@, rhs@)
    }
}

/// A word pattern with the value and mask of a byte pattern finds what the byte pattern
/// finds, in any buffer: comparing a word at a time changes no match.
pub proof fn lemma_word_scan_is_byte_scan(w: WordPattern, b: BytePattern, base: int, buf: Seq<u8>)
    requires
        w@ == b@,
    ensures
        super::spec_scan(w.spec_window(), w.spec_window_mask(), w.spec_true_len(), base, buf)
            == super::spec_scan(b.spec_window(), b.spec_window_mask(), b.spec_true_len(), base, buf),
{
}

} // verus!
