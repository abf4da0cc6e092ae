//! Wide strings of the Windows API: UTF-16 code units, null-terminated where the API
//! wants one.

use vstd::prelude::*;

verus! {

/// A wide string (`wchar_t[]`).
pub type WSTR = Vec<u16>;

/// A leading (high) surrogate.
pub open spec fn is_high_surrogate(u: u16) -> bool {
    0xD800 <= u < 0xDC00
}

/// A trailing (low) surrogate.
pub open spec fn is_low_surrogate(u: u16) -> bool {
    0xDC00 <= u < 0xE000
}

/// The UTF-16 code units of a character: the character itself below U+10000, a
/// surrogate pair above.
pub open spec fn char_utf16(c: char) -> Seq<u16> {
    let v = c as int;
    if v < 0x10000 {
        seq![v as u16]
    } else {
        seq![(0xD800 + (v - 0x10000) / 0x400) as u16, (0xDC00 + (v - 0x10000) % 0x400) as u16]
    }
}

/// The UTF-16 encoding of a string.
pub open spec fn utf16_units(s: Seq<char>) -> Seq<u16>
    decreases s.len(),
{
    if s.len() == 0 {
        Seq::empty()
    } else {
        char_utf16(s[0]) + utf16_units(s.drop_first())
    }
}

/// The UTF-16 decoding of code units in which each unpaired surrogate becomes U+FFFD.
pub open spec fn utf16_lossy(u: Seq<u16>) -> Seq<char>
    decreases u.len(),
{
    if u.len() == 0 {
        Seq::empty()
    } else if u.len() >= 2 && is_high_surrogate(u[0]) && is_low_surrogate(u[1]) {
        seq![(0x10000 + (u[0] - 0xD800) * 0x400 + (u[1] - 0xDC00)) as char] + utf16_lossy(
            u.skip(2),
        )
    } else if 0xD800 <= u[0] < 0xE000 {
        seq!['\u{FFFD}'] + utf16_lossy(u.skip(1))
    } else {
        seq![u[0] as char] + utf16_lossy(u.skip(1))
    }
}

/// `str::encode_utf16` (std), collected: the UTF-16 code units of the string.
#[verifier::external_body]
fn encode_utf16_units(s: &str) -> (r: Vec<u16>)
    ensures
        r@ == utf16_units(s@),
{
    s.encode_utf16().collect()
}

/// `String::from_utf16_lossy` (std): the code units decoded as UTF-16, each unpaired
/// surrogate replaced by U+FFFD.
#[verifier::external_body]
fn utf16_to_string(units: &[u16]) -> (r: String)
    ensures
        r@ == utf16_lossy(units@),
{
    String::from_utf16_lossy(units)
}

/// Creates a null-terminated wide string from a string slice.
pub fn str_to_wstr(from: &str) -> (r: WSTR)
    ensures
        r@ == utf16_units(from@).push(0u16),
{
    let mut v = encode_utf16_units(from);
    v.push(0);
    v
}

/// Converts a wide string to a `String` (unpaired surrogates are replaced).
pub fn wstr_to_str(from: &[u16]) -> (r: String)
    ensures
        r@ == utf16_lossy(from@),
{
    utf16_to_string(from)
}

/// Converts a wide string to a `String`, dropping everything from the first null on.
///
/// This is useful with the Windows functions that fill a fixed-length buffer.
pub fn wstr_to_str_truncated(from: &[u16]) -> (r: String)
    ensures
        exists|k: int|
            0 <= k <= from@.len() && (forall|j: int| 0 <= j < k ==> from@[j] != 0u16) && (k
                < from@.len() ==> from@[k] == 0u16) && r@ == utf16_lossy(#[trigger] from@.take(k)),
{
    let mut i: usize = 0;
    while i < from.len()
        invariant
            i <= from@.len(),
            forall|j: int| 0 <= j < i ==> from@[j] != 0u16,
        ensures
            i <= from@.len(),
            forall|j: int| 0 <= j < i ==> from@[j] != 0u16,
            i < from@.len() ==> from@[i as int] == 0u16,
        decreases from@.len() - i,
    {
        if from[i] == 0 {
            break;
        }
        i = i + 1;
    }
    let (head, _) = from.split_at(i);
    assert(head@ == from@.take(i as int));
    let r = utf16_to_string(head);
    assert(r@ == utf16_lossy(from@.take(i as int)));
    r
}

/// The code units of one character decode back to it, and none of them is null unless
/// the character is.
proof fn lemma_char_roundtrip(c: char, rest: Seq<u16>)
    ensures
        utf16_lossy(char_utf16(c) + rest) == seq![c] + utf16_lossy(rest),
        (c as u32) != 0 ==> forall|j: int| 0 <= j < char_utf16(c).len() ==> char_utf16(c)[j] != 0u16,
{
    let v = c as int;
    let u = char_utf16(c) + rest;
    if v < 0x10000 {
        assert(!(0xD800 <= v < 0xE000));
        assert(u[0] == v as u16);
        assert(u.skip(1) =~= rest);
        assert((v as u16) as char == c);
    } else {
        let q = (v - 0x10000) / 0x400;
        let r = (v - 0x10000) % 0x400;
        assert(v <= 0x10FFFF);
        assert(0 <= q < 0x400 && 0 <= r < 0x400);
        assert(q * 0x400 + r == v - 0x10000);
        assert(u[0] == (0xD800 + q) as u16 && u[1] == (0xDC00 + r) as u16);
        assert(u.skip(2) =~= rest);
        assert((0x10000 + q * 0x400 + r) as char == c);
    }
}

/// Encoding a string as UTF-16 and decoding it gives the string back; without a null
/// character in the string, the encoding has no null unit, so the null terminator that
/// [`str_to_wstr`] adds is where [`wstr_to_str_truncated`] stops.
pub proof fn lemma_wide_roundtrip(s: Seq<char>)
    requires
        forall|i: int| 0 <= i < s.len() ==> (#[trigger] s[i] as u32) != 0,
    ensures
        utf16_lossy(utf16_units(s)) == s,
        forall|j: int| 0 <= j < utf16_units(s).len() ==> #[trigger] utf16_units(s)[j] != 0u16,
    decreases s.len(),
{
    if s.len() > 0 {
        let rest = s.drop_first();
        assert forall|i: int| 0 <= i < rest.len() implies (#[trigger] rest[i] as u32) != 0 by {
            assert(rest[i] == s[i + 1]);
        }
        lemma_wide_roundtrip(rest);
        lemma_char_roundtrip(s[0], utf16_units(rest));
        assert(s[0] as u32 != 0);
        assert(seq![s[0]] + rest =~= s);
        let head = char_utf16(s[0]);
        assert forall|j: int| 0 <= j < utf16_units(s).len() implies #[trigger] utf16_units(s)[j] != 0u16 by {
            if j < head.len() {
                assert(utf16_units(s)[j] == head[j]);
            } else {
                assert(utf16_units(s)[j] == utf16_units(rest)[j - head.len()]);
            }
        }
    }
}

} // verus!
