//! Patterns, matches, regions and modules in the plain forms that the Elixir bindings
//! hand across: a pattern is chosen among the three kinds by its length, and a mask
//! travels as bytes.

use vstd::prelude::*;

use crate::mem::{MemAddress, Module};
use crate::pattern_scan::{
    masked_match, simd_mask_of, BytePattern, ScanMatch, ScanPattern, Simd32Pattern,
    WordPattern,
};
use crate::util::opt_slice_view;

verus! {

/// The kind of pattern a byte pattern is scanned with.
#[derive(Copy, Clone, Debug, PartialEq, Eq, Structural)]
pub enum PatternType {
    Byte,
    Word,
    Simd,
}

/// The kind a pattern of `len` bytes is scanned with: 32 bytes or fewer fit one SIMD
/// comparison; a whole number of words is compared word by word; anything else byte by
/// byte.
pub open spec fn spec_pattern_type(len: nat) -> PatternType {
    if len <= 32 {
        PatternType::Simd
    } else if len % crate::word_size() == 0 {
        PatternType::Word
    } else {
        PatternType::Byte
    }
}

/// A pattern of one of the three kinds.
#[derive(Clone, Debug)]
pub enum OptimizedPattern {
    Byte(BytePattern),
    Word(WordPattern),
    Simd(Simd32Pattern),
}

impl ScanPattern for OptimizedPattern {
    open spec fn spec_window(&self) -> Seq<u8> {
        match self {
            OptimizedPattern::Byte(p) => p.spec_window(),
            OptimizedPattern::Word(p) => p.spec_window(),
            OptimizedPattern::Simd(p) => p.spec_window(),
        }
    }

    open spec fn spec_window_mask(&self) -> Option<Seq<bool>> {
        match self {
            OptimizedPattern::Byte(p) => p.spec_window_mask(),
            OptimizedPattern::Word(p) => p.spec_window_mask(),
            OptimizedPattern::Simd(p) => p.spec_window_mask(),
        }
    }

    open spec fn spec_true_len(&self) -> nat {
        match self {
            OptimizedPattern::Byte(p) => p.spec_true_len(),
            OptimizedPattern::Word(p) => p.spec_true_len(),
            OptimizedPattern::Simd(p) => p.spec_true_len(),
        }
    }

    open spec fn wf(&self) -> bool {
        match self {
            OptimizedPattern::Byte(p) => p.wf(),
            OptimizedPattern::Word(p) => p.wf(),
            OptimizedPattern::Simd(p) => p.wf(),
        }
    }

    proof fn lemma_wf(&self) {
        match self {
            OptimizedPattern::Byte(p) => p.lemma_wf(),
            OptimizedPattern::Word(p) => p.lemma_wf(),
            OptimizedPattern::Simd(p) => p.lemma_wf(),
        }
    }

    fn len(&self) -> (r: usize) {
        match self {
            OptimizedPattern::Byte(p) => p.len(),
            OptimizedPattern::Word(p) => p.len(),
            OptimizedPattern::Simd(p) => p.len(),
        }
    }

    fn true_len(&self) -> (r: usize) {
        match self {
            OptimizedPattern::Byte(p) => p.true_len(),
            OptimizedPattern::Word(p) => p.true_len(),
            OptimizedPattern::Simd(p) => p.true_len(),
        }
    }

    fn value(&self) -> (r: &[u8]) {
        match self {
            OptimizedPattern::Byte(p) => p.value(),
            OptimizedPattern::Word(p) => p.value(),
            OptimizedPattern::Simd(p) => p.value(),
        }
    }

    fn mask(&self) -> (r: Option<&[bool]>) {
        match self {
            OptimizedPattern::Byte(p) => p.mask(),
            OptimizedPattern::Word(p) => p.mask(),
            OptimizedPattern::Simd(p) => p.mask(),
        }
    }

    fn matches(&self, buf: &[u8]) -> (r: bool) {
        match self {
            OptimizedPattern::Byte(p) => p.matches(buf),
            OptimizedPattern::Word(p) => p.matches(buf),
            OptimizedPattern::Simd(p) => p.matches(buf),
        }
    }
}

/// The kind a pattern of `len` bytes is scanned with.
pub fn pattern_type_for(len: usize) -> (r: PatternType)
    ensures
        r == spec_pattern_type(len as nat),
{
    if len <= 32 {
        PatternType::Simd
    } else if len % crate::pattern_scan::word_size_bytes() == 0 {
        PatternType::Word
    } else {
        PatternType::Byte
    }
}

/// Turns a byte pattern into the kind its length calls for; the bytes it looks for and
/// its mask stay those of the byte pattern.
pub fn optimize_pattern(byte_pattern: BytePattern) -> (r: (PatternType, OptimizedPattern))
    requires
        byte_pattern.wf(),
    ensures
        r.0 == spec_pattern_type(byte_pattern@.0.len()),
        r.1.wf(),
        r.1.spec_true_len() == byte_pattern@.0.len(),
        r.1.spec_window().subrange(0, byte_pattern@.0.len() as int) == byte_pattern@.0,
        match r.1 {
            OptimizedPattern::Byte(p) => r.0 == PatternType::Byte && p@ == byte_pattern@,
            OptimizedPattern::Word(p) => r.0 == PatternType::Word && p@ == byte_pattern@,
            OptimizedPattern::Simd(p) => r.0 == PatternType::Simd && p@.0 == byte_pattern@.0
                && (byte_pattern@.0.len() == 32 ==> p@.1 == byte_pattern@.1)
                && (byte_pattern@.0.len() < 32 ==> p@.1 == simd_mask_of(byte_pattern@.1, byte_pattern@.0.len())),
        },
        forall|buf: Seq<u8>|
            buf.len() == r.1.spec_window().len() ==> (masked_match(
                r.1.spec_window(),
                r.1.spec_window_mask(),
                buf,
            ) <==> #[trigger] masked_match(byte_pattern@.0, byte_pattern@.1, buf.subrange(0, byte_pattern@.0.len() as int))),
{
    let len = byte_pattern.len();
    let kind = pattern_type_for(len);
    match kind {
        PatternType::Simd => {
            let ghost v = byte_pattern@;
            proof {
                byte_pattern.lemma_wf();
            }
            let p = Simd32Pattern::from_byte_pattern(byte_pattern);
            proof {
                assert(crate::pattern_scan::simd_window(p@.0).subrange(0, p@.0.len() as int) =~= p@.0);
                assert forall|buf: Seq<u8>| buf.len() == p.spec_window().len() implies (masked_match(
                    p.spec_window(),
                    p.spec_window_mask(),
                    buf,
                ) <==> #[trigger] masked_match(v.0, v.1, buf.subrange(0, v.0.len() as int))) by {
                    p.lemma_wf();
                    if v.0.len() < 32 {
                        crate::pattern_scan::lemma_simd_matches_source(v.0, v.1, buf);
                    } else {
                        assert(buf.subrange(0, v.0.len() as int) =~= buf);
                    }
                }
            }
            (PatternType::Simd, OptimizedPattern::Simd(p))
        },
        PatternType::Word => {
            let p = WordPattern::from_byte_pattern(byte_pattern);
            proof {
                p.lemma_wf();
                assert(p.spec_window().subrange(0, p@.0.len() as int) =~= p.spec_window());
                assert forall|buf: Seq<u8>| buf.len() == p.spec_window().len() implies buf.subrange(0, buf.len() as int) == buf by {
                    assert(buf.subrange(0, buf.len() as int) =~= buf);
                }
            }
            (PatternType::Word, OptimizedPattern::Word(p))
        },
        PatternType::Byte => {
            assert(byte_pattern@.0.subrange(0, byte_pattern@.0.len() as int) =~= byte_pattern@.0);
            assert forall|buf: Seq<u8>| buf.len() == byte_pattern@.0.len() implies buf.subrange(0, buf.len() as int) == buf by {
                assert(buf.subrange(0, buf.len() as int) =~= buf);
            }
            (PatternType::Byte, OptimizedPattern::Byte(byte_pattern))
        },
    }
}

/// A mask as bytes: `0xFF` for a compared byte, `0x00` for an ignored one.
pub fn mask_to_bytes(mask: Option<&[bool]>) -> (r: Option<Vec<u8>>)
    ensures
        match opt_slice_view(mask) {
            None => r is None,
            Some(m) => r matches Some(b) && b@ == m.map_values(|x: bool| if x { 0xFFu8 } else { 0x00u8 }),
        },
{
    match mask {
        None => None,
        Some(m) => {
            let mut out: Vec<u8> = Vec::new();
            let mut i: usize = 0;
            while i < m.len()
                invariant
                    i <= m@.len(),
                    out@ == m@.subrange(0, i as int).map_values(|x: bool| if x { 0xFFu8 } else { 0x00u8 }),
                decreases m@.len() - i,
            {
                out.push(if m[i] { 0xFF } else { 0x00 });
                assert(m@.subrange(0, i + 1).map_values(|x: bool| if x { 0xFFu8 } else { 0x00u8 })
                    =~= out@);
                i = i + 1;
            }
            assert(m@.subrange(0, i as int) =~= m@);
            Some(out)
        },
    }
}

/// A match as it is handed across: its address and the bytes matched.
#[derive(Clone, Debug, PartialEq)]
pub struct MatchStruct {
    pub addr: MemAddress,
    pub value: Vec<u8>,
}

impl MatchStruct {
    /// The match's address and bytes.
    pub fn from_match(s: ScanMatch) -> (r: MatchStruct)
        ensures
            r.addr == s.addr,
            r.value@ == s.value@,
    {
        MatchStruct { addr: s.addr, value: s.value }
    }
}

/// A module as it is handed across: its name and the ends of its range.
#[derive(Clone, Debug)]
pub struct ModuleMap {
    pub name: String,
    pub range_start: MemAddress,
    pub range_end: MemAddress,
}

impl ModuleMap {
    /// The module's name and the ends of its range.
    pub fn from_module(m: Module) -> (r: ModuleMap)
        ensures
            r.name@ == m.name@,
            r.range_start == m.range.start_addr,
            r.range_end == m.range.end_addr,
    {
        ModuleMap { name: m.name, range_start: m.range.start_addr, range_end: m.range.end_addr }
    }
}

/// A byte pattern of the same meaning as one of the three kinds.
pub fn to_byte_pattern(p: &OptimizedPattern) -> (r: BytePattern)
    requires
        p.wf(),
    ensures
        r.wf(),
        r@.0 == p.spec_window().subrange(0, p.spec_true_len() as int),
        r@.1 == match p.spec_window_mask() {
            None => None,
            Some(m) => Some(m.subrange(0, p.spec_true_len() as int)),
        },
{
    BytePattern::from_pattern(p)
}

} // verus!
