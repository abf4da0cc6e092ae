//! Parsing `/proc/<pid>/maps`, and turning its rows into regions and modules.
//!
//! A row reads `start-end perms offset dev inode [pathname]`, the addresses in
//! hexadecimal. Fields are separated by whitespace (as Unicode defines it, in UTF-8).

use vstd::prelude::*;
use vstd::string::StringSliceAdditionalSpecFns;

use crate::cpp_std::{lossy_utf8, utf8_lossy};
use crate::error::{MemError, UnixMemError};
use crate::mem::region::{MemType, Perms, State};
use crate::mem::reader::range_lt;
use crate::mem::{AddressRange, Module, Region};

verus! {

/* Hexadecimal numbers */

/// The value of a hexadecimal digit.
pub open spec fn hex_digit(c: u8) -> Option<nat> {
    if 0x30 <= c <= 0x39 {
        Some((c - 0x30) as nat)
    } else if 0x61 <= c <= 0x66 {
        Some((c - 0x61 + 10) as nat)
    } else if 0x41 <= c <= 0x46 {
        Some((c - 0x41 + 10) as nat)
    } else {
        None
    }
}

/// The value of a string of hexadecimal digits (0 for none), if all are digits.
pub open spec fn hex_digits_value(s: Seq<u8>) -> Option<nat>
    decreases s.len(),
{
    if s.len() == 0 {
        Some(0)
    } else {
        match (hex_digits_value(s.drop_last()), hex_digit(s.last())) {
            (Some(v), Some(d)) => Some(v * 16 + d),
            _ => None,
        }
    }
}

/// What `usize::from_str_radix(s, 16)` gives: an optional `+`, then at least one
/// hexadecimal digit, the value fitting a word.
pub open spec fn parse_hex(s: Seq<u8>) -> Option<usize> {
    let digits = if s.len() > 0 && s[0] == 0x2bu8 {
        s.drop_first()
    } else {
        s
    };
    if digits.len() == 0 {
        None
    } else {
        match hex_digits_value(digits) {
            Some(v) => if v <= usize::MAX {
                Some(v as usize)
            } else {
                None
            },
            None => None,
        }
    }
}

proof fn lemma_hex_prefix(s: Seq<u8>, i: int)
    requires
        0 <= i <= s.len(),
        hex_digits_value(s) is Some,
    ensures
        hex_digits_value(s.subrange(0, i)) is Some,
        hex_digits_value(s.subrange(0, i))->0 <= hex_digits_value(s)->0,
    decreases s.len(),
{
    if i < s.len() {
        lemma_hex_prefix(s.drop_last(), i);
        assert(s.drop_last().subrange(0, i) =~= s.subrange(0, i));
    } else {
        assert(s.subrange(0, i) =~= s);
    }
}

/// Parses a hexadecimal word as `usize::from_str_radix(s, 16)` does.
fn parse_hex_word(s: &[u8]) -> (r: Option<usize>)
    ensures
        r == parse_hex(s@),
{
    let n = s.len();
    let mut i: usize = 0;
    if n > 0 && s[0] == 0x2b {
        i = 1;
    }
    if i == n {
        return None;
    }
    let ghost digits = if s@.len() > 0 && s@[0] == 0x2bu8 {
        s@.drop_first()
    } else {
        s@
    };
    let ghost start = i as int;
    assert(digits =~= s@.subrange(start, n as int));
    let mut acc: usize = 0;
    assert(s@.subrange(start, start) =~= Seq::<u8>::empty());
    while i < n
        invariant
            0 <= start <= i <= n,
            n == s@.len(),
            digits == s@.subrange(start, n as int),
            digits == (if s@.len() > 0 && s@[0] == 0x2bu8 {
                s@.drop_first()
            } else {
                s@
            }),
            hex_digits_value(s@.subrange(start, i as int)) == Some(acc as nat),
        decreases n - i,
    {
        let c = s[i];
        let d: usize;
        if 0x30 <= c && c <= 0x39 {
            d = (c - 0x30) as usize;
        } else if 0x61 <= c && c <= 0x66 {
            d = (c - 0x61 + 10) as usize;
        } else if 0x41 <= c && c <= 0x46 {
            d = (c - 0x41 + 10) as usize;
        } else {
            proof {
                let p = s@.subrange(start, i as int + 1);
                assert(p.drop_last() =~= s@.subrange(start, i as int));
                assert(hex_digits_value(p) is None);
                if hex_digits_value(digits) is Some {
                    lemma_hex_prefix(digits, i - start + 1);
                    assert(digits.subrange(0, i - start + 1) =~= p);
                }
                assert(hex_digits_value(digits) is None);
                assert(digits.len() > 0);
            }
            return None;
        }
        let ghost p = s@.subrange(start, i as int + 1);
        proof {
            assert(p.drop_last() =~= s@.subrange(start, i as int));
            assert(hex_digit(p.last()) == Some(d as nat));
        }
        if acc > (usize::MAX - d) / 16 {
            proof {
                assert(acc * 16 + d > usize::MAX) by (nonlinear_arith)
                    requires
                        acc > (usize::MAX - d) / 16,
                        d <= usize::MAX,
                ;
                assert(hex_digits_value(p) == Some((acc * 16 + d) as nat));
                if hex_digits_value(digits) is Some {
                    lemma_hex_prefix(digits, i - start + 1);
                    assert(digits.subrange(0, i - start + 1) =~= p);
                    assert(hex_digits_value(digits)->0 > usize::MAX);
                }
            }
            return None;
        }
        proof {
            assert(acc * 16 + d <= usize::MAX) by (nonlinear_arith)
                requires
                    acc <= (usize::MAX - d) / 16,
                    d <= usize::MAX,
            ;
        }
        acc = acc * 16 + d;
        i = i + 1;
    }
    assert(s@.subrange(start, n as int) =~= digits);
    Some(acc)
}

/* Address ranges */

/// Finds the first `b` in `s`.
fn find_byte(s: &[u8], b: u8) -> (r: Option<usize>)
    ensures
        r matches Some(i) ==> i < s@.len() && s@[i as int] == b && forall|j: int| 0 <= j < i ==> s@[j] != b,
        r is None ==> forall|j: int| 0 <= j < s@.len() ==> s@[j] != b,
{
    let mut i: usize = 0;
    while i < s.len()
        invariant
            i <= s@.len(),
            forall|j: int| 0 <= j < i ==> s@[j] != b,
        decreases s@.len() - i,
    {
        if s[i] == b {
            return Some(i);
        }
        i = i + 1;
    }
    None
}

/// The two addresses of `start-end` (split at the first `-`), if both parse.
pub open spec fn parse_addr_pair(s: Seq<u8>) -> Option<(usize, usize)> {
    if exists|i: int| 0 <= i < s.len() && s[i] == 0x2du8 {
        let d = choose|i: int| 0 <= i < s.len() && s[i] == 0x2du8 && forall|j: int| 0 <= j < i ==> s[j] != 0x2du8;
        match (parse_hex(s.subrange(0, d)), parse_hex(s.subrange(d + 1, s.len() as int))) {
            (Some(a), Some(b)) => Some((a, b)),
            _ => None,
        }
    } else {
        None
    }
}

proof fn lemma_first_dash(s: Seq<u8>, d: int)
    requires
        0 <= d < s.len(),
        s[d] == 0x2du8,
        forall|j: int| 0 <= j < d ==> s[j] != 0x2du8,
    ensures
        (choose|i: int| 0 <= i < s.len() && s[i] == 0x2du8 && forall|j: int| 0 <= j < i ==> s[j] != 0x2du8) == d,
{
    let c = choose|i: int| 0 <= i < s.len() && s[i] == 0x2du8 && forall|j: int| 0 <= j < i ==> s[j] != 0x2du8;
    assert(0 <= c < s.len() && s[c] == 0x2du8 && forall|j: int| 0 <= j < c ==> s[j] != 0x2du8);
    if c < d {
        assert(s[c] != 0x2du8);
    }
    if d < c {
        assert(s[d] != 0x2du8);
    }
}

/// Splits `start-end` at the first `-` and parses both halves as hexadecimal words.
fn parse_addr_bytes(s: &[u8]) -> (r: Option<(usize, usize)>)
    ensures
        r == parse_addr_pair(s@),
{
    match find_byte(s, 0x2d) {
        None => None,
        Some(d) => {
            proof {
                lemma_first_dash(s@, d as int);
            }
            let (lo, hi) = s.split_at(d);
            let (_, hi) = hi.split_at(1);
            assert(lo@ =~= s@.subrange(0, d as int));
            assert(hi@ =~= s@.subrange(d + 1, s@.len() as int));
            match (parse_hex_word(lo), parse_hex_word(hi)) {
                (Some(a), Some(b)) => Some((a, b)),
                _ => None,
            }
        },
    }
}

/// Whether `s` would give a range that starts after it ends.
pub open spec fn addr_pair_reversed(s: Seq<u8>) -> bool {
    parse_addr_pair(s) matches Some((a, b)) && a > b
}

/// Parses the `start-end` field of a maps row.
///
/// Fails where there is no `-`, or either side is not a hexadecimal word.
pub fn get_addr_range(addr_range_str: &str) -> (r: Result<AddressRange, UnixMemError>)
    requires
        !addr_pair_reversed(addr_range_str.spec_bytes()),
    ensures
        match parse_addr_pair(addr_range_str.spec_bytes()) {
            Some((a, b)) => r == Ok::<AddressRange, UnixMemError>(AddressRange { start_addr: a, end_addr: b }),
            None => r matches Err(UnixMemError::ProcMapsAddrRangeParseFailed { input }) && input@ == addr_range_str@,
        },
{
    match parse_addr_bytes(addr_range_str.as_bytes()) {
        Some((a, b)) => Ok(AddressRange { start_addr: a, end_addr: b }),
        None => Err(UnixMemError::ProcMapsAddrRangeParseFailed { input: addr_range_str.to_owned() }),
    }
}

/* Permissions */

/// Whether `c` is one of the characters a permissions field may hold: `rwxps-`.
pub open spec fn perm_char(c: u8) -> bool {
    c == 0x72u8 || c == 0x77u8 || c == 0x78u8 || c == 0x70u8 || c == 0x73u8 || c == 0x2du8
}

/// The permissions that a field of four characters from `rwxps-` gives: read, write and
/// execute for `r`, `w` and `x` in the first three places, and guard where all three are
/// set.
pub open spec fn parse_perms(s: Seq<u8>) -> Option<Perms> {
    if s.len() == 4 && forall|i: int| 0 <= i < 4 ==> perm_char(s[i]) {
        let r: u8 = if s[0] == 0x72u8 { 1 } else { 0 };
        let w: u8 = if s[1] == 0x77u8 { 2 } else { 0 };
        let x: u8 = if s[2] == 0x78u8 { 4 } else { 0 };
        let g: u8 = if s[0] == 0x72u8 && s[1] == 0x77u8 && s[2] == 0x78u8 { 16 } else { 0 };
        Some(Perms { bits: (r | w | x | g) as u8 })
    } else {
        None
    }
}

fn parse_perms_bytes(s: &[u8]) -> (r: Option<Perms>)
    ensures
        r == parse_perms(s@),
{
    if s.len() != 4 {
        return None;
    }
    let mut i: usize = 0;
    while i < 4
        invariant
            s@.len() == 4,
            i <= 4,
            forall|j: int| 0 <= j < i ==> perm_char(s@[j]),
        decreases 4 - i,
    {
        let c = s[i];
        if !(c == 0x72 || c == 0x77 || c == 0x78 || c == 0x70 || c == 0x73 || c == 0x2d) {
            return None;
        }
        i = i + 1;
    }
    let r: u8 = if s[0] == 0x72 { Perms::read().bits() } else { 0 };
    let w: u8 = if s[1] == 0x77 { Perms::write().bits() } else { 0 };
    let x: u8 = if s[2] == 0x78 { Perms::execute().bits() } else { 0 };
    let g: u8 = if s[0] == 0x72 && s[1] == 0x77 && s[2] == 0x78 { Perms::guard().bits() } else { 0 };
    let perms = Perms { bits: r | w | x | g };
    Some(perms)
}

/// Parses the permissions field of a maps row (`rwxp` and the like).
///
/// Fails unless the field is four characters from `rwxps-`.
pub fn get_perms(perms_str: &str) -> (r: Result<Perms, UnixMemError>)
    ensures
        match parse_perms(perms_str.spec_bytes()) {
            Some(p) => r == Ok::<Perms, UnixMemError>(p),
            None => r matches Err(UnixMemError::ProcMapsPermsParseFailed { input }) && input@ == perms_str@,
        },
{
    match parse_perms_bytes(perms_str.as_bytes()) {
        Some(p) => Ok(p),
        None => Err(UnixMemError::ProcMapsPermsParseFailed { input: perms_str.to_owned() }),
    }
}

/* Rows */

/// One row of the maps file: the address range, the permissions and the path (empty for
/// an anonymous mapping).
#[derive(Clone, Debug)]
pub struct ProcMapsRow {
    pub range: AddressRange,
    pub perms: Perms,
    pub pathname: String,
}

/// A row as plain values.
pub struct ProcMapsRowView {
    pub range: AddressRange,
    pub perms: Perms,
    pub pathname: Seq<char>,
}

impl View for ProcMapsRow {
    type V = ProcMapsRowView;

    open spec fn view(&self) -> ProcMapsRowView {
        ProcMapsRowView { range: self.range, perms: self.perms, pathname: self.pathname@ }
    }
}

/// The number of bytes of the whitespace character that `s` starts with, in UTF-8 (0
/// where it does not start with one): ASCII tab, line feed, vertical tab, form feed,
/// carriage return and space, and U+0085, U+00A0, U+1680, U+2000 to U+200A, U+2028,
/// U+2029, U+202F, U+205F and U+3000.
pub open spec fn ws_width(s: Seq<u8>) -> nat {
    if s.len() == 0 {
        0
    } else if s[0] == 9u8 || s[0] == 10u8 || s[0] == 11u8 || s[0] == 12u8 || s[0] == 13u8 || s[0] == 32u8 {
        1
    } else if s.len() >= 2 && s[0] == 0xC2u8 && (s[1] == 0x85u8 || s[1] == 0xA0u8) {
        2
    } else if s.len() >= 3 && ((s[0] == 0xE1u8 && s[1] == 0x9Au8 && s[2] == 0x80u8) || (s[0] == 0xE2u8
        && s[1] == 0x80u8 && ((0x80u8 <= s[2] && s[2] <= 0x8Au8) || s[2] == 0xA8u8 || s[2] == 0xA9u8
        || s[2] == 0xAFu8)) || (s[0] == 0xE2u8 && s[1] == 0x81u8 && s[2] == 0x9Fu8) || (s[0] == 0xE3u8
        && s[1] == 0x80u8 && s[2] == 0x80u8)) {
        3
    } else {
        0
    }
}

/// The number of bytes before the first whitespace character.
pub open spec fn word_len(s: Seq<u8>) -> nat
    decreases s.len(),
{
    if s.len() == 0 || ws_width(s) > 0 {
        0
    } else {
        1 + word_len(s.drop_first())
    }
}

pub proof fn lemma_word_len(s: Seq<u8>)
    ensures
        word_len(s) <= s.len(),
        ws_width(s) <= s.len(),
        s.len() > 0 && ws_width(s) == 0 ==> word_len(s) >= 1,
    decreases s.len(),
{
    if s.len() > 0 && ws_width(s) == 0 {
        lemma_word_len(s.drop_first());
    }
}

proof fn lemma_word_len_exact(t: Seq<u8>, m: int)
    requires
        0 <= m <= t.len(),
        forall|k: int| 0 <= k < m ==> ws_width(#[trigger] t.subrange(k, t.len() as int)) == 0,
        m == t.len() || ws_width(t.subrange(m, t.len() as int)) > 0,
    ensures
        word_len(t) == m,
    decreases m,
{
    assert(t.subrange(0, t.len() as int) =~= t);
    if m > 0 {
        let u = t.drop_first();
        assert forall|k: int| 0 <= k < m - 1 implies ws_width(#[trigger] u.subrange(k, u.len() as int)) == 0 by {
            assert(u.subrange(k, u.len() as int) =~= t.subrange(k + 1, t.len() as int));
        }
        assert(u.subrange(m - 1, u.len() as int) =~= t.subrange(m, t.len() as int));
        lemma_word_len_exact(u, m - 1);
    }
}

/// The fields of a row: the maximal runs of bytes that hold no whitespace character.
pub open spec fn ws_fields(s: Seq<u8>) -> Seq<Seq<u8>>
    decreases s.len(),
{
    if s.len() == 0 {
        Seq::empty()
    } else if ws_width(s) > 0 {
        ws_fields(s.subrange(ws_width(s) as int, s.len() as int))
    } else {
        let n = word_len(s);
        proof {
            lemma_word_len(s);
        }
        seq![s.subrange(0, n as int)] + ws_fields(s.subrange(n as int, s.len() as int))
    }
}

/// The width of the whitespace character at `s[i..]`, as [`ws_width`] gives it.
fn ws_width_at(s: &[u8], i: usize) -> (r: usize)
    requires
        i < s@.len(),
    ensures
        r == ws_width(s@.subrange(i as int, s@.len() as int)),
        r <= s@.len() - i,
{
    let n = s.len();
    let ghost t = s@.subrange(i as int, n as int);
    assert(t[0] == s@[i as int]);
    let c = s[i];
    if c == 9 || c == 10 || c == 11 || c == 12 || c == 13 || c == 32 {
        return 1;
    }
    if n - i >= 2 {
        assert(t[1] == s@[i + 1]);
        let c1 = s[i + 1];
        if c == 0xC2 && (c1 == 0x85 || c1 == 0xA0) {
            return 2;
        }
        if n - i >= 3 {
            assert(t[2] == s@[i + 2]);
            let c2 = s[i + 2];
            if (c == 0xE1 && c1 == 0x9A && c2 == 0x80) || (c == 0xE2 && c1 == 0x80 && ((0x80 <= c2 && c2
                <= 0x8A) || c2 == 0xA8 || c2 == 0xA9 || c2 == 0xAF)) || (c == 0xE2 && c1 == 0x81 && c2
                == 0x9F) || (c == 0xE3 && c1 == 0x80 && c2 == 0x80) {
                return 3;
            }
        }
    }
    0
}

/// The bytes that spans of `s` cover.
pub open spec fn span_bytes(s: Seq<u8>, spans: Seq<(usize, usize)>) -> Seq<Seq<u8>> {
    Seq::new(spans.len(), |k: int| s.subrange(spans[k].0 as int, spans[k].1 as int))
}

/// The spans of the whitespace-separated fields of `s`.
fn split_fields(s: &[u8]) -> (r: Vec<(usize, usize)>)
    ensures
        span_bytes(s@, r@) == ws_fields(s@),
        forall|k: int| #![trigger r@[k]] 0 <= k < r@.len() ==> r@[k].0 <= r@[k].1 <= s@.len(),
{
    let n = s.len();
    let mut out: Vec<(usize, usize)> = Vec::new();
    let mut i: usize = 0;
    assert(s@.subrange(0, n as int) =~= s@);
    while i < n
        invariant
            i <= n,
            n == s@.len(),
            ws_fields(s@) == span_bytes(s@, out@) + ws_fields(s@.subrange(i as int, n as int)),
            forall|k: int| #![trigger out@[k]] 0 <= k < out@.len() ==> out@[k].0 <= out@[k].1 <= n,
        decreases n - i,
    {
        let ghost t = s@.subrange(i as int, n as int);
        let w = ws_width_at(s, i);
        if w > 0 {
            assert(t.subrange(w as int, t.len() as int) =~= s@.subrange(i + w, n as int));
            i = i + w;
        } else {
            let mut j: usize = i + 1;
            while j < n && ws_width_at(s, j) == 0
                invariant
                    i < j <= n,
                    n == s@.len(),
                    t == s@.subrange(i as int, n as int),
                    forall|k: int| i <= k < j ==> ws_width(#[trigger] s@.subrange(k, n as int)) == 0,
                decreases n - j,
            {
                j = j + 1;
            }
            proof {
                assert forall|k: int| 0 <= k < j - i implies ws_width(#[trigger] t.subrange(k, t.len() as int)) == 0 by {
                    assert(t.subrange(k, t.len() as int) =~= s@.subrange(i + k, n as int));
                }
                if j < n {
                    assert(t.subrange(j - i, t.len() as int) =~= s@.subrange(j as int, n as int));
                }
                lemma_word_len_exact(t, j - i);
                assert(t.subrange(0, j - i) =~= s@.subrange(i as int, j as int));
                assert(t.subrange(j - i, t.len() as int) =~= s@.subrange(j as int, n as int));
                let old_out = out@;
                assert(span_bytes(s@, old_out.push((i, j))) =~= span_bytes(s@, old_out).push(
                    s@.subrange(i as int, j as int),
                ));
            }
            out.push((i, j));
            proof {
                assert(span_bytes(s@, out@) + ws_fields(s@.subrange(j as int, n as int)) =~= span_bytes(
                    s@,
                    out@.drop_last(),
                ) + (seq![s@.subrange(i as int, j as int)] + ws_fields(s@.subrange(j as int, n as int))));
            }
            i = j;
        }
    }
    assert(ws_fields(s@.subrange(n as int, n as int)) =~= Seq::<Seq<u8>>::empty());
    assert(span_bytes(s@, out@) + Seq::<Seq<u8>>::empty() =~= span_bytes(s@, out@));
    out
}

/// The fields joined by single spaces.
pub open spec fn join_fields(fs: Seq<Seq<u8>>) -> Seq<u8>
    decreases fs.len(),
{
    if fs.len() == 0 {
        Seq::empty()
    } else if fs.len() == 1 {
        fs[0]
    } else {
        join_fields(fs.drop_last()) + seq![0x20u8] + fs.last()
    }
}

/// The fields `from..` of `s` (given by `spans`), joined by single spaces.
fn join_spans(s: &[u8], spans: &Vec<(usize, usize)>, from: usize) -> (r: Vec<u8>)
    requires
        from <= spans@.len(),
        forall|k: int| #![trigger spans@[k]] 0 <= k < spans@.len() ==> spans@[k].0 <= spans@[k].1 <= s@.len(),
    ensures
        r@ == join_fields(span_bytes(s@, spans@).subrange(from as int, spans@.len() as int)),
{
    let ghost fs = span_bytes(s@, spans@);
    let mut out: Vec<u8> = Vec::new();
    let mut k: usize = from;
    assert(fs.subrange(from as int, from as int) =~= Seq::<Seq<u8>>::empty());
    while k < spans.len()
        invariant
            from <= k <= spans@.len(),
            fs == span_bytes(s@, spans@),
            forall|q: int| #![trigger spans@[q]] 0 <= q < spans@.len() ==> spans@[q].0 <= spans@[q].1 <= s@.len(),
            out@ == join_fields(fs.subrange(from as int, k as int)),
        decreases spans@.len() - k,
    {
        let ghost before = out@;
        if k > from {
            out.push(0x20);
        }
        let (a, b) = spans[k];
        let mut q: usize = a;
        let ghost mid = out@;
        while q < b
            invariant
                a <= q <= b <= s@.len(),
                out@ == mid + s@.subrange(a as int, q as int),
            decreases b - q,
        {
            out.push(s[q]);
            assert(s@.subrange(a as int, q + 1) =~= s@.subrange(a as int, q as int).push(s@[q as int]));
            q = q + 1;
        }
        proof {
            let nxt = fs.subrange(from as int, k + 1);
            assert(nxt.drop_last() =~= fs.subrange(from as int, k as int));
            assert(nxt.last() == s@.subrange(a as int, b as int));
            if k > from {
                assert(out@ =~= join_fields(nxt.drop_last()) + seq![0x20u8] + nxt.last());
            } else {
                assert(mid =~= Seq::<u8>::empty());
                assert(out@ =~= nxt.last());
            }
        }
        k = k + 1;
    }
    out
}

/// Whether a row parses: it has at least five fields, the first is an address range
/// that does not end before it starts, and the second a permissions field.
pub open spec fn row_parses(line: Seq<u8>) -> bool {
    let f = ws_fields(line);
    &&& f.len() >= 5
    &&& parse_addr_pair(f[0]) matches Some((a, b)) && a <= b
    &&& parse_perms(f[1]) is Some
}

/// The row that a line that parses holds: its path is the fields from the sixth on,
/// joined by single spaces.
pub open spec fn row_view(line: Seq<u8>) -> ProcMapsRowView {
    let f = ws_fields(line);
    ProcMapsRowView {
        range: match parse_addr_pair(f[0]) {
            Some((a, b)) => AddressRange { start_addr: a, end_addr: b },
            None => AddressRange { start_addr: 0, end_addr: 0 },
        },
        perms: parse_perms(f[1])->0,
        pathname: lossy_utf8(join_fields(f.subrange(5, f.len() as int))),
    }
}

/// The error that a line that does not parse gives: too few fields, an address range
/// that does not parse or ends before it starts, or permissions that do not parse, in
/// that order.
pub open spec fn row_error(line: Seq<u8>, e: MemError) -> bool {
    let f = ws_fields(line);
    if f.len() < 5 {
        e matches MemError::Unix(UnixMemError::ProcMapsRowParseError { field_count, row })
            && field_count == f.len() && row@ == lossy_utf8(line)
    } else if !(parse_addr_pair(f[0]) matches Some((a, b)) && a <= b) {
        e matches MemError::Unix(UnixMemError::ProcMapsAddrRangeParseFailed { input })
            && input@ == lossy_utf8(f[0])
    } else {
        e matches MemError::Unix(UnixMemError::ProcMapsPermsParseFailed { input })
            && input@ == lossy_utf8(f[1])
    }
}

/// Parses one row of the maps file.
pub fn parse_proc_maps_row(line: &[u8]) -> (r: Result<ProcMapsRow, MemError>)
    ensures
        r is Ok <==> row_parses(line@),
        r matches Ok(row) ==> row@ == row_view(line@),
        r matches Err(e) ==> row_error(line@, e),
{
    let spans = split_fields(line);
    let ghost f = ws_fields(line@);
    assert(f.len() == spans@.len());
    if spans.len() < 5 {
        return Err(
            MemError::Unix(
                UnixMemError::ProcMapsRowParseError { field_count: spans.len(), row: utf8_lossy(line) },
            ),
        );
    }
    let (a0, b0) = spans[0];
    let range_field = line.split_at(b0).0.split_at(a0).1;
    assert(range_field@ =~= f[0]);
    let (a1, b1) = spans[1];
    let perms_field = line.split_at(b1).0.split_at(a1).1;
    assert(perms_field@ =~= f[1]);
    let range = match parse_addr_bytes(range_field) {
        Some((lo, hi)) => {
            if lo > hi {
                return Err(
                    MemError::Unix(
                        UnixMemError::ProcMapsAddrRangeParseFailed { input: utf8_lossy(range_field) },
                    ),
                );
            }
            AddressRange { start_addr: lo, end_addr: hi }
        },
        None => {
            return Err(
                MemError::Unix(
                    UnixMemError::ProcMapsAddrRangeParseFailed { input: utf8_lossy(range_field) },
                ),
            );
        },
    };
    let perms = match parse_perms_bytes(perms_field) {
        Some(p) => p,
        None => {
            return Err(
                MemError::Unix(
                    UnixMemError::ProcMapsPermsParseFailed { input: utf8_lossy(perms_field) },
                ),
            );
        },
    };
    let path = join_spans(line, &spans, 5);
    let pathname = utf8_lossy(path.as_slice());
    Ok(ProcMapsRow { range, perms, pathname })
}

/* The whole file */

/// The number of bytes before the first newline.
pub open spec fn line_len(s: Seq<u8>) -> nat
    decreases s.len(),
{
    if s.len() == 0 || s[0] == 10u8 {
        0
    } else {
        1 + line_len(s.drop_first())
    }
}

pub proof fn lemma_line_len(s: Seq<u8>)
    ensures
        line_len(s) <= s.len(),
        line_len(s) < s.len() ==> s[line_len(s) as int] == 10u8,
    decreases s.len(),
{
    if s.len() > 0 && s[0] != 10u8 {
        lemma_line_len(s.drop_first());
    }
}

proof fn lemma_line_len_exact(t: Seq<u8>, m: int)
    requires
        0 <= m <= t.len(),
        forall|k: int| 0 <= k < m ==> t[k] != 10u8,
        m == t.len() || t[m] == 10u8,
    ensures
        line_len(t) == m,
    decreases m,
{
    if m > 0 {
        lemma_line_len_exact(t.drop_first(), m - 1);
    }
}

/// The non-empty lines of the text: the pieces between newlines, empty ones left out.
pub open spec fn nonempty_lines(s: Seq<u8>) -> Seq<Seq<u8>>
    decreases s.len(),
{
    if s.len() == 0 {
        Seq::empty()
    } else {
        let n = line_len(s);
        proof {
            lemma_line_len(s);
        }
        let rest = if n < s.len() {
            nonempty_lines(s.subrange(n + 1int, s.len() as int))
        } else {
            Seq::empty()
        };
        if n > 0 {
            seq![s.subrange(0, n as int)] + rest
        } else {
            rest
        }
    }
}

/// Where a stable insertion puts `x` into `t`: after the last row that does not come
/// after it, looking from the end.
pub open spec fn row_insert_pos(t: Seq<ProcMapsRowView>, x: ProcMapsRowView) -> nat
    decreases t.len(),
{
    if t.len() == 0 {
        0
    } else if range_lt(x.range, t.last().range) {
        row_insert_pos(t.drop_last(), x)
    } else {
        t.len()
    }
}

/// The rows sorted by range, stably (rows with equal ranges keep their order).
pub open spec fn sort_rows(s: Seq<ProcMapsRowView>) -> Seq<ProcMapsRowView>
    decreases s.len(),
{
    if s.len() == 0 {
        s
    } else {
        let t = sort_rows(s.drop_last());
        t.insert(row_insert_pos(t, s.last()) as int, s.last())
    }
}

/// The rows are in the order of their ranges.
pub open spec fn rows_sorted(t: Seq<ProcMapsRowView>) -> bool {
    forall|i: int, j: int| 0 <= i < j < t.len() ==> !range_lt(#[trigger] t[j].range, #[trigger] t[i].range)
}

proof fn lemma_row_insert_pos(t: Seq<ProcMapsRowView>, x: ProcMapsRowView)
    requires
        rows_sorted(t),
    ensures
        row_insert_pos(t, x) <= t.len(),
        forall|k: int| row_insert_pos(t, x) <= k < t.len() ==> range_lt(x.range, #[trigger] t[k].range),
        forall|k: int| 0 <= k < row_insert_pos(t, x) ==> !range_lt(x.range, #[trigger] t[k].range),
    decreases t.len(),
{
    if t.len() > 0 {
        let p = t.drop_last();
        assert(rows_sorted(p));
        if range_lt(x.range, t.last().range) {
            lemma_row_insert_pos(p, x);
            let q = row_insert_pos(t, x);
            assert forall|k: int| q <= k < t.len() implies range_lt(x.range, #[trigger] t[k].range) by {
                if k < t.len() - 1 {
                    assert(t[k] == p[k]);
                }
            }
            assert forall|k: int| 0 <= k < q implies !range_lt(x.range, #[trigger] t[k].range) by {
                assert(t[k] == p[k]);
            }
        } else {
            assert forall|k: int| 0 <= k < t.len() implies !range_lt(x.range, #[trigger] t[k].range) by {
                if k < t.len() - 1 {
                    assert(!range_lt(t[t.len() - 1].range, t[k].range));
                }
            }
        }
    }
}

/// The rows that stable sorting gives are in the order of their ranges, and as many as
/// were sorted.
pub proof fn lemma_sort_rows_sorted(s: Seq<ProcMapsRowView>)
    ensures
        rows_sorted(sort_rows(s)),
        sort_rows(s).len() == s.len(),
    decreases s.len(),
{
    if s.len() > 0 {
        let t = sort_rows(s.drop_last());
        lemma_sort_rows_sorted(s.drop_last());
        let x = s.last();
        lemma_row_insert_pos(t, x);
        let p = row_insert_pos(t, x) as int;
        let u = t.insert(p, x);
        assert forall|i: int, j: int| 0 <= i < j < u.len() implies !range_lt(#[trigger] u[j].range, #[trigger] u[i].range) by {
            if j < p {
                assert(u[i] == t[i] && u[j] == t[j]);
            } else if j == p {
                assert(u[i] == t[i]);
            } else if i > p {
                assert(u[i] == t[i - 1] && u[j] == t[j - 1]);
            } else if i == p {
                assert(u[j] == t[j - 1]);
            } else {
                assert(u[i] == t[i] && u[j] == t[j - 1]);
            }
        }
    }
}

/// The rows that a line of each kind gives, in the order of the lines.
pub open spec fn rows_of(lines: Seq<Seq<u8>>) -> Seq<ProcMapsRowView> {
    Seq::new(lines.len(), |k: int| row_view(lines[k]))
}

/// Inserts a row into rows sorted by range, after those that do not come after it.
fn insert_row(out: &mut Vec<ProcMapsRow>, row: ProcMapsRow)
    ensures
        final(out)@.map_values(|x: ProcMapsRow| x@) == old(out)@.map_values(|x: ProcMapsRow| x@).insert(
            row_insert_pos(old(out)@.map_values(|x: ProcMapsRow| x@), row@) as int,
            row@,
        ),
{
    let ghost v = old(out)@.map_values(|x: ProcMapsRow| x@);
    let mut p: usize = out.len();
    assert(v.subrange(0, p as int) =~= v);
    while p > 0 && row.range.precedes(&out[p - 1].range)
        invariant
            p <= out@.len(),
            out@ == old(out)@,
            v == old(out)@.map_values(|x: ProcMapsRow| x@),
            row_insert_pos(v, row@) == row_insert_pos(v.subrange(0, p as int), row@),
        decreases p,
    {
        assert(v.subrange(0, p as int).drop_last() =~= v.subrange(0, p - 1));
        p = p - 1;
    }
    proof {
        if p > 0 {
            assert(v.subrange(0, p as int).last() == v[p - 1]);
        }
    }
    out.insert(p, row);
    assert(out@.map_values(|x: ProcMapsRow| x@) =~= v.insert(p as int, row@));
}

/// The spans of the non-empty lines of `s`.
fn split_lines(s: &[u8]) -> (r: Vec<(usize, usize)>)
    ensures
        span_bytes(s@, r@) == nonempty_lines(s@),
        forall|k: int| #![trigger r@[k]] 0 <= k < r@.len() ==> r@[k].0 <= r@[k].1 <= s@.len(),
{
    let n = s.len();
    let mut out: Vec<(usize, usize)> = Vec::new();
    let mut i: usize = 0;
    assert(s@.subrange(0, n as int) =~= s@);
    while i < n
        invariant
            i <= n,
            n == s@.len(),
            nonempty_lines(s@) == span_bytes(s@, out@) + nonempty_lines(s@.subrange(i as int, n as int)),
            forall|k: int| #![trigger out@[k]] 0 <= k < out@.len() ==> out@[k].0 <= out@[k].1 <= n,
        decreases n - i,
    {
        let ghost t = s@.subrange(i as int, n as int);
        let mut j: usize = i;
        while j < n && s[j] != 10
            invariant
                i <= j <= n,
                n == s@.len(),
                forall|k: int| i <= k < j ==> s@[k] != 10u8,
            decreases n - j,
        {
            j = j + 1;
        }
        let ghost rest = if j < n {
            nonempty_lines(s@.subrange(j + 1, n as int))
        } else {
            Seq::<Seq<u8>>::empty()
        };
        proof {
            lemma_line_len_exact(t, j - i);
            assert(t.subrange(0, j - i) =~= s@.subrange(i as int, j as int));
            if j < n {
                assert(t.subrange(j - i + 1, t.len() as int) =~= s@.subrange(j + 1, n as int));
            }
        }
        if j > i {
            proof {
                assert(span_bytes(s@, out@.push((i, j))) =~= span_bytes(s@, out@).push(
                    s@.subrange(i as int, j as int),
                ));
                assert(span_bytes(s@, out@) + (seq![s@.subrange(i as int, j as int)] + rest)
                    =~= span_bytes(s@, out@.push((i, j))) + rest);
            }
            out.push((i, j));
        }
        if j < n {
            i = j + 1;
        } else {
            proof {
                assert(nonempty_lines(s@.subrange(n as int, n as int)) =~= Seq::<Seq<u8>>::empty());
                assert(span_bytes(s@, out@) + Seq::<Seq<u8>>::empty() =~= span_bytes(s@, out@));
            }
            i = n;
        }
    }
    assert(nonempty_lines(s@.subrange(n as int, n as int)) =~= Seq::<Seq<u8>>::empty());
    assert(span_bytes(s@, out@) + Seq::<Seq<u8>>::empty() =~= span_bytes(s@, out@));
    out
}

proof fn lemma_rows_of_step(lines: Seq<Seq<u8>>, k: int)
    requires
        0 <= k < lines.len(),
    ensures
        rows_of(lines.subrange(0, k + 1)).drop_last() == rows_of(lines.subrange(0, k)),
        rows_of(lines.subrange(0, k + 1)).last() == row_view(lines[k]),
{
    let d2 = lines.subrange(0, k + 1);
    assert(d2.drop_last() =~= lines.subrange(0, k));
    assert(rows_of(d2).drop_last() =~= rows_of(lines.subrange(0, k)));
}

/// Parses the text of a maps file into its rows, sorted by range.
///
/// Fails with the error of the first non-empty line that does not parse.
#[verifier::spinoff_prover]
#[verifier::rlimit(40)]
pub fn parse_proc_maps(text: &str) -> (r: Result<Vec<ProcMapsRow>, MemError>)
    ensures
        ({
            let lines = nonempty_lines(text.spec_bytes());
            match r {
                Ok(rows) => (forall|k: int| 0 <= k < lines.len() ==> row_parses(#[trigger] lines[k]))
                    && rows@.map_values(|x: ProcMapsRow| x@) == sort_rows(rows_of(lines))
                    && rows_sorted(rows@.map_values(|x: ProcMapsRow| x@)),
                Err(e) => exists|k: int|
                    0 <= k < lines.len() && (forall|j: int| 0 <= j < k ==> row_parses(#[trigger] lines[j]))
                        && !row_parses(#[trigger] lines[k]) && row_error(lines[k], e),
            }
        }),
{
    let s = text.as_bytes();
    let spans = split_lines(s);
    let ghost lines = span_bytes(s@, spans@);
    let mut out: Vec<ProcMapsRow> = Vec::new();
    let mut k: usize = 0;
    while k < spans.len()
        invariant
            k <= spans@.len(),
            lines == span_bytes(s@, spans@),
            lines == nonempty_lines(text.spec_bytes()),
            forall|q: int| #![trigger spans@[q]] 0 <= q < spans@.len() ==> spans@[q].0 <= spans@[q].1 <= s@.len(),
            forall|q: int| 0 <= q < k ==> row_parses(#[trigger] lines[q]),
            out@.map_values(|x: ProcMapsRow| x@) == sort_rows(rows_of(lines.subrange(0, k as int))),
        decreases spans@.len() - k,
    {
        let (a, b) = spans[k];
        let line = s.split_at(b).0.split_at(a).1;
        assert(line@ =~= lines[k as int]);
        match parse_proc_maps_row(line) {
            Err(e) => {
                return Err(e);
            },
            Ok(row) => {
                proof {
                    lemma_rows_of_step(lines, k as int);
                }
                insert_row(&mut out, row);
            },
        }
        k = k + 1;
    }
    proof {
        assert(lines.subrange(0, k as int) =~= lines);
        lemma_sort_rows_sorted(rows_of(lines));
    }
    Ok(out)
}

/* Regions and modules */

/// The last row of the run of rows with the same path that `g` is in, looking forward.
pub open spec fn run_end(s: Seq<ProcMapsRowView>, g: int) -> int
    decreases s.len() - g,
{
    if g < 0 || g + 1 >= s.len() || s[g].pathname != s[g + 1].pathname {
        g
    } else {
        run_end(s, g + 1)
    }
}

/// The first row of the run of rows with the same path that `i` is in.
pub open spec fn run_start(s: Seq<ProcMapsRowView>, i: int) -> int
    decreases i,
{
    if i <= 0 || i >= s.len() || s[i - 1].pathname != s[i].pathname {
        i
    } else {
        run_start(s, i - 1)
    }
}

/// Whether row `g` begins a run: it is the first, or its path differs from the row's
/// before it.
pub open spec fn run_begins(s: Seq<ProcMapsRowView>, g: int) -> bool {
    0 <= g < s.len() && (g == 0 || s[g - 1].pathname != s[g].pathname)
}

/// Whether a row in `a..=b` is executable.
pub open spec fn has_exec(s: Seq<ProcMapsRowView>, a: int, b: int) -> bool {
    exists|k: int| a <= k <= b && #[trigger] s[k].perms.bits & 4u8 != 0
}

pub proof fn lemma_run_end(s: Seq<ProcMapsRowView>, g: int)
    requires
        0 <= g < s.len(),
    ensures
        g <= run_end(s, g) < s.len(),
        forall|k: int| g <= k < run_end(s, g) ==> #[trigger] s[k].pathname == s[k + 1].pathname,
        run_end(s, g) + 1 < s.len() ==> s[run_end(s, g)].pathname != s[run_end(s, g) + 1].pathname,
        forall|k: int| g <= k <= run_end(s, g) ==> #[trigger] run_end(s, k) == run_end(s, g),
    decreases s.len() - g,
{
    if g + 1 < s.len() && s[g].pathname == s[g + 1].pathname {
        lemma_run_end(s, g + 1);
    }
}

proof fn lemma_run_start(s: Seq<ProcMapsRowView>, g: int, k: int)
    requires
        run_begins(s, g),
        g <= k <= run_end(s, g),
    ensures
        run_start(s, k) == g,
    decreases k - g,
{
    lemma_run_end(s, g);
    if k > g {
        assert(s[k - 1].pathname == s[k].pathname);
        lemma_run_start(s, g, k - 1);
    }
}

/// The modules among the runs from row `g` on: each run with an executable row is one,
/// spanning from the start of its first row to the end of its last, named by its path.
pub open spec fn modules_from(s: Seq<ProcMapsRowView>, g: int) -> Seq<(AddressRange, Seq<char>)>
    decreases s.len() - g,
{
    if g < 0 || g >= s.len() {
        Seq::empty()
    } else {
        let e = run_end(s, g);
        proof {
            lemma_run_end(s, g);
        }
        let rest = modules_from(s, e + 1);
        if has_exec(s, g, e) {
            seq![
                (AddressRange { start_addr: s[g].range.start_addr, end_addr: s[e].range.end_addr }, s[g].pathname),
            ] + rest
        } else {
            rest
        }
    }
}

/// Each run with an executable row ends no earlier than it starts.
pub open spec fn module_runs_ordered(s: Seq<ProcMapsRowView>) -> bool {
    forall|g: int|
        #[trigger] run_begins(s, g) && has_exec(s, g, run_end(s, g)) ==> s[g].range.start_addr
            <= s[run_end(s, g)].range.end_addr
}

/// The modules as plain values.
pub open spec fn modules_view(m: Seq<Module>) -> Seq<(AddressRange, Seq<char>)> {
    m.map_values(|x: Module| (x.range, x.name@))
}

/// Finds the run of rows that begins at `g`: its last row, and whether a row of it is
/// executable.
fn scan_run(rows: &[ProcMapsRow], g: usize) -> (r: (usize, bool))
    requires
        g < rows@.len(),
    ensures
        r.0 == run_end(rows@.map_values(|x: ProcMapsRow| x@), g as int),
        r.1 == has_exec(rows@.map_values(|x: ProcMapsRow| x@), g as int, r.0 as int),
{
    let ghost v = rows@.map_values(|x: ProcMapsRow| x@);
    let n = rows.len();
    let mut e = g;
    let mut exec = rows[g].perms.bits & 4 != 0;
    proof {
        lemma_run_end(v, g as int);
        assert(v[g as int].perms == rows@[g as int].perms);
        if exec {
            assert(has_exec(v, g as int, g as int));
        }
    }
    while e + 1 < n && rows[e].pathname == rows[e + 1].pathname
        invariant
            g <= e < n,
            n == rows@.len(),
            v == rows@.map_values(|x: ProcMapsRow| x@),
            run_end(v, e as int) == run_end(v, g as int),
            exec == has_exec(v, g as int, e as int),
        decreases n - e,
    {
        assert(v[e as int].pathname == rows@[e as int].pathname@);
        assert(v[e + 1].pathname == rows@[e + 1].pathname@);
        e = e + 1;
        let x = rows[e].perms.bits & 4 != 0;
        proof {
            assert(v[e as int].perms == rows@[e as int].perms);
            if x {
                assert(has_exec(v, g as int, e as int));
            }
            if exec {
                let w = choose|k: int| g <= k <= e - 1 && #[trigger] v[k].perms.bits & 4u8 != 0;
                assert(g <= w <= e && v[w].perms.bits & 4u8 != 0);
            }
            if has_exec(v, g as int, e as int) && !exec {
                let w = choose|k: int| g <= k <= e && #[trigger] v[k].perms.bits & 4u8 != 0;
                assert(w == e);
            }
        }
        exec = exec || x;
    }
    proof {
        if e + 1 < n {
            assert(v[e as int].pathname == rows@[e as int].pathname@);
            assert(v[e + 1].pathname == rows@[e + 1].pathname@);
        }
    }
    (e, exec)
}

/// Groups consecutive rows with the same path and makes a module of each group with an
/// executable row.
pub fn proc_maps_rows_to_modules(rows: &[ProcMapsRow]) -> (r: Vec<Module>)
    requires
        module_runs_ordered(rows@.map_values(|x: ProcMapsRow| x@)),
    ensures
        modules_view(r@) == modules_from(rows@.map_values(|x: ProcMapsRow| x@), 0),
{
    let ghost v = rows@.map_values(|x: ProcMapsRow| x@);
    let n = rows.len();
    let mut out: Vec<Module> = Vec::new();
    let mut i: usize = 0;
    while i < n
        invariant
            i <= n,
            n == rows@.len(),
            v == rows@.map_values(|x: ProcMapsRow| x@),
            module_runs_ordered(v),
            i < n ==> run_begins(v, i as int),
            modules_from(v, 0) == modules_view(out@) + modules_from(v, i as int),
        decreases n - i,
    {
        let (e, exec) = scan_run(rows, i);
        proof {
            lemma_run_end(v, i as int);
        }
        if exec {
            assert(v[i as int].range == rows@[i as int].range);
            assert(v[e as int].range == rows@[e as int].range);
            let range = AddressRange { start_addr: rows[i].range.start_addr, end_addr: rows[e].range.end_addr };
            let name = rows[i].pathname.clone();
            let ghost before = out@;
            out.push(Module { name, range });
            proof {
                assert(modules_view(out@) =~= modules_view(before).push((range, v[i as int].pathname)));
                assert(modules_view(out@) + modules_from(v, e + 1) =~= modules_view(before) + modules_from(v, i as int));
            }
        }
        i = e + 1;
        proof {
            if i >= n {
                assert(modules_from(v, i as int) =~= Seq::<(AddressRange, Seq<char>)>::empty());
            }
        }
    }
    assert(modules_view(out@) + Seq::<(AddressRange, Seq<char>)>::empty() =~= modules_view(out@));
    out
}

/// The type a run of rows gets: private for the anonymous, stack and heap mappings, an
/// image where a row is executable, mapped otherwise.
pub open spec fn run_type(s: Seq<ProcMapsRowView>, g: int, e: int) -> MemType {
    let name = s[g].pathname;
    if name.len() == 0 || name == "[stack]"@ || name == "[heap]"@ {
        MemType { bits: 1 }
    } else if has_exec(s, g, e) {
        MemType { bits: 4 }
    } else {
        MemType { bits: 2 }
    }
}

/// The region that row `i` becomes: committed, based at the start of its run, with the
/// type of its run, and its own range and permissions.
pub open spec fn region_of(s: Seq<ProcMapsRowView>, i: int) -> Region {
    let g = run_start(s, i);
    Region {
        base: s[g].range.start_addr,
        range: s[i].range,
        mem_type: run_type(s, g, run_end(s, i)),
        state: State::COMMITTED,
        perms: s[i].perms,
    }
}

/// Makes a region of each row, typed by the run of rows with the same path it is in.
pub fn proc_maps_rows_to_regions(rows: &[ProcMapsRow]) -> (r: Vec<Region>)
    ensures
        r@.len() == rows@.len(),
        forall|i: int| 0 <= i < rows@.len() ==> #[trigger] r@[i] == region_of(rows@.map_values(|x: ProcMapsRow| x@), i),
{
    let ghost v = rows@.map_values(|x: ProcMapsRow| x@);
    let n = rows.len();
    let mut out: Vec<Region> = Vec::new();
    let mut i: usize = 0;
    let stack = "[stack]".to_owned();
    let heap = "[heap]".to_owned();
    while i < n
        invariant
            i <= n,
            n == rows@.len(),
            v == rows@.map_values(|x: ProcMapsRow| x@),
            stack@ == "[stack]"@,
            heap@ == "[heap]"@,
            i < n ==> run_begins(v, i as int),
            out@.len() == i,
            forall|q: int| 0 <= q < i ==> #[trigger] out@[q] == region_of(v, q),
        decreases n - i,
    {
        let (e, exec) = scan_run(rows, i);
        proof {
            lemma_run_end(v, i as int);
        }
        let g = i;
        let name = &rows[g].pathname;
        assert(v[g as int].pathname == name@);
        let mem_type = if name.as_str().is_empty() || *name == stack || *name == heap {
            MemType::private()
        } else if exec {
            MemType::image()
        } else {
            MemType::mapped()
        };
        let base = rows[g].range.start_addr;
        assert(v[g as int].range == rows@[g as int].range);
        let mut k = g;
        while k <= e
            invariant
                g <= k <= e + 1,
                e < n,
                n == rows@.len(),
                v == rows@.map_values(|x: ProcMapsRow| x@),
                run_begins(v, g as int),
                e == run_end(v, g as int),
                mem_type == run_type(v, g as int, e as int),
                base == v[g as int].range.start_addr,
                out@.len() == k,
                forall|q: int| 0 <= q < k ==> #[trigger] out@[q] == region_of(v, q),
            decreases e + 1 - k,
        {
            proof {
                lemma_run_end(v, g as int);
                lemma_run_start(v, g as int, k as int);
                assert(v[k as int].range == rows@[k as int].range);
                assert(v[k as int].perms == rows@[k as int].perms);
            }
            out.push(Region {
                base,
                range: rows[k].range,
                mem_type,
                state: State::COMMITTED,
                perms: rows[k].perms,
            });
            k = k + 1;
        }
        i = e + 1;
    }
    out
}


/// A valid permissions field sets each flag from its own character alone: read exactly
/// where the first is `r`, write exactly where the second is `w`, execute exactly where
/// the third is `x` (whatever the others are), guard exactly where the three are `rwx`,
/// and no other flag.
pub proof fn lemma_perms_flags(s: Seq<u8>)
    requires
        s.len() == 4,
        forall|i: int| 0 <= i < 4 ==> perm_char(s[i]),
    ensures
        parse_perms(s) is Some,
        (parse_perms(s)->0.bits & 1u8 != 0) <==> s[0] == 0x72u8,
        (parse_perms(s)->0.bits & 2u8 != 0) <==> s[1] == 0x77u8,
        (parse_perms(s)->0.bits & 4u8 != 0) <==> s[2] == 0x78u8,
        (parse_perms(s)->0.bits & 16u8 != 0) <==> (s[0] == 0x72u8 && s[1] == 0x77u8 && s[2] == 0x78u8),
        parse_perms(s)->0.bits & 0xE8u8 == 0,
{
    let r: u8 = if s[0] == 0x72u8 { 1 } else { 0 };
    let w: u8 = if s[1] == 0x77u8 { 2 } else { 0 };
    let x: u8 = if s[2] == 0x78u8 { 4 } else { 0 };
    let g: u8 = if s[0] == 0x72u8 && s[1] == 0x77u8 && s[2] == 0x78u8 { 16 } else { 0 };
    let b: u8 = r | w | x | g;
    assert(parse_perms(s)->0.bits == b);
    assert({
        &&& (b & 1u8 != 0) == (r == 1u8)
        &&& (b & 2u8 != 0) == (w == 2u8)
        &&& (b & 4u8 != 0) == (x == 4u8)
        &&& (b & 16u8 != 0) == (g == 16u8)
        &&& b & 0xE8u8 == 0
    }) by (bit_vector)
        requires
            r == 0u8 || r == 1u8,
            w == 0u8 || w == 2u8,
            x == 0u8 || x == 4u8,
            g == 0u8 || g == 16u8,
            b == r | w | x | g,
    ;
}

/// Rows `i..=j` joined by equal paths lie in one run: it starts and ends at the same rows
/// for both.
proof fn lemma_same_run(s: Seq<ProcMapsRowView>, i: int, j: int)
    requires
        0 <= i <= j < s.len(),
        forall|k: int| i <= k < j ==> #[trigger] s[k].pathname == s[k + 1].pathname,
    ensures
        run_start(s, i) == run_start(s, j),
        run_end(s, i) == run_end(s, j),
    decreases j - i,
{
    if i < j {
        assert(s[i].pathname == s[i + 1].pathname);
        lemma_same_run(s, i + 1, j);
    }
}

/// A run starts at or before each of its rows.
proof fn lemma_run_start_le(s: Seq<ProcMapsRowView>, i: int)
    requires
        0 <= i < s.len(),
    ensures
        0 <= run_start(s, i) <= i,
    decreases i,
{
    if i > 0 && s[i - 1].pathname == s[i].pathname {
        lemma_run_start_le(s, i - 1);
    }
}

/// All rows of one run of rows with the same path become regions with the same base and
/// the same type; for a named path other than `[stack]` and `[heap]`, that type is image
/// wherever any row of the run is executable.
pub proof fn lemma_run_regions_agree(s: Seq<ProcMapsRowView>, i: int, j: int)
    requires
        0 <= i <= j < s.len(),
        forall|k: int| i <= k < j ==> #[trigger] s[k].pathname == s[k + 1].pathname,
    ensures
        region_of(s, i).mem_type == region_of(s, j).mem_type,
        region_of(s, i).base == region_of(s, j).base,
        ({
            let name = s[i].pathname;
            name.len() > 0 && name != "[stack]"@ && name != "[heap]"@ && (exists|k: int|
                i <= k <= j && #[trigger] s[k].perms.bits & 4u8 != 0)
        }) ==> region_of(s, i).mem_type.bits == 4,
{
    lemma_same_run(s, i, j);
    lemma_run_start_le(s, i);
    lemma_run_end(s, j);
    let g = run_start(s, i);
    let e = run_end(s, j);
    lemma_run_end(s, g);
    assert(run_end(s, g) == e) by {
        lemma_run_start_links(s, i);
        lemma_same_run(s, g, i);
    }
    if exists|k: int| i <= k <= j && #[trigger] s[k].perms.bits & 4u8 != 0 {
        let k = choose|k: int| i <= k <= j && #[trigger] s[k].perms.bits & 4u8 != 0;
        assert(has_exec(s, g, e));
    }
    if g < i {
        assert(s[g].pathname == s[i].pathname) by {
            lemma_same_pathname(s, g, i);
        }
    }
}

/// The rows from the start of a row's run up to it are joined by equal paths.
proof fn lemma_run_start_links(s: Seq<ProcMapsRowView>, i: int)
    requires
        0 <= i < s.len(),
    ensures
        forall|k: int| run_start(s, i) <= k < i ==> #[trigger] s[k].pathname == s[k + 1].pathname,
    decreases i,
{
    if i > 0 && s[i - 1].pathname == s[i].pathname {
        lemma_run_start_links(s, i - 1);
    }
}

/// Rows of one run share their path.
proof fn lemma_same_pathname(s: Seq<ProcMapsRowView>, g: int, i: int)
    requires
        0 <= g <= i < s.len(),
        g == run_start(s, i),
    ensures
        s[g].pathname == s[i].pathname,
    decreases i - g,
{
    if g < i {
        assert(run_start(s, i) == run_start(s, i - 1));
        assert(s[i - 1].pathname == s[i].pathname);
        lemma_run_start_le(s, i - 1);
        lemma_same_pathname(s, g, i - 1);
    }
}

} // verus!
