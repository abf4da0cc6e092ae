//! The text that describes a scan pattern, as in `Scan Pattern [0x41 ???? 0x43]`.

use vstd::prelude::*;

use crate::util::{all_ascii, ascii_chars, ascii_string};

verus! {

/// The upper-case hexadecimal digit of `d` (below 16), as an ASCII byte.
pub open spec fn hex_digit(d: nat) -> u8 {
    if d < 10 {
        (48 + d) as u8
    } else {
        (55 + d) as u8
    }
}

/// The two hexadecimal digits of a byte.
pub open spec fn byte_hex(b: u8) -> Seq<u8> {
    seq![hex_digit((b / 16) as nat), hex_digit((b % 16) as nat)]
}

/// How the byte at `i` is shown: `0x` and its digits where the pattern has no mask; where
/// it has one, `00` and its digits if the byte is compared, `????` if it is ignored.
pub open spec fn item_text(b: u8, m: Option<Seq<bool>>, i: int) -> Seq<u8> {
    match m {
        Some(ms) => if ms[i] {
            seq![48u8, 48u8] + byte_hex(b)
        } else {
            seq![63u8, 63u8, 63u8, 63u8]
        },
        None => seq![48u8, 120u8] + byte_hex(b),
    }
}

/// The first `n` bytes shown one after the other, separated by spaces.
pub open spec fn items_text(v: Seq<u8>, m: Option<Seq<bool>>, n: nat) -> Seq<u8>
    decreases n,
{
    if n == 0 {
        Seq::empty()
    } else if n == 1 {
        item_text(v[0], m, 0)
    } else {
        items_text(v, m, (n - 1) as nat) + seq![32u8] + item_text(v[n - 1], m, n - 1)
    }
}

/// `Scan Pattern [`, as ASCII bytes.
pub open spec fn text_prefix() -> Seq<u8> {
    seq![83u8, 99u8, 97u8, 110u8, 32u8, 80u8, 97u8, 116u8, 116u8, 101u8, 114u8, 110u8, 32u8, 91u8]
}

/// The text of a pattern with value `v` and mask `m`: `Scan Pattern [`, its bytes shown
/// one after the other separated by spaces, and `]`.
pub open spec fn pattern_text(v: Seq<u8>, m: Option<Seq<bool>>) -> Seq<u8> {
    text_prefix() + items_text(v, m, v.len()) + seq![93u8]
}

fn hex_digit_of(d: u8) -> (r: u8)
    requires
        d < 16,
    ensures
        r == hex_digit(d as nat),
        r < 128,
{
    if d < 10 {
        48 + d
    } else {
        55 + d
    }
}

/// Describes a pattern with value `v` and mask `m` (as long as the value, where there is
/// one) as text.
pub fn describe_pattern(v: &[u8], m: Option<&[bool]>) -> (r: String)
    requires
        m matches Some(ms) ==> ms@.len() == v@.len(),
    ensures
        r@ == ascii_chars(pattern_text(v@, crate::util::opt_slice_view(m))),
{
    ascii_string(pattern_text_bytes(v, m))
}

/// The text of a pattern with value `v` and mask `m`, as ASCII bytes.
pub fn pattern_text_bytes(v: &[u8], m: Option<&[bool]>) -> (r: Vec<u8>)
    requires
        m matches Some(ms) ==> ms@.len() == v@.len(),
    ensures
        r@ == pattern_text(v@, crate::util::opt_slice_view(m)),
        all_ascii(r@),
{
    let ghost mv = crate::util::opt_slice_view(m);
    let mut out: Vec<u8> = vec![83u8, 99u8, 97u8, 110u8, 32u8, 80u8, 97u8, 116u8, 116u8, 101u8, 114u8, 110u8, 32u8, 91u8];
    assert(out@ =~= text_prefix());
    let mut i: usize = 0;
    while i < v.len()
        invariant
            i <= v@.len(),
            mv == crate::util::opt_slice_view(m),
            m matches Some(ms) ==> ms@.len() == v@.len(),
            out@ == text_prefix() + items_text(v@, mv, i as nat),
            all_ascii(out@),
        decreases v@.len() - i,
    {
        let ghost before = out@;
        if i > 0 {
            out.push(32u8);
        }
        let b = v[i];
        let hi = hex_digit_of(b / 16);
        let lo = hex_digit_of(b % 16);
        match m {
            Some(ms) => {
                if ms[i] {
                    out.push(48u8);
                    out.push(48u8);
                    out.push(hi);
                    out.push(lo);
                } else {
                    out.push(63u8);
                    out.push(63u8);
                    out.push(63u8);
                    out.push(63u8);
                }
            },
            None => {
                out.push(48u8);
                out.push(120u8);
                out.push(hi);
                out.push(lo);
            },
        }
        proof {
            let item = item_text(v@[i as int], mv, i as int);
            if i == 0 {
                assert(out@ =~= before + item);
                assert(items_text(v@, mv, 1) == item);
            } else {
                assert(out@ =~= before + seq![32u8] + item);
                assert(items_text(v@, mv, (i + 1) as nat) == items_text(v@, mv, i as nat) + seq![32u8] + item);
            }
            assert(out@ =~= text_prefix() + items_text(v@, mv, (i + 1) as nat));
            assert forall|k: int| 0 <= k < out@.len() implies #[trigger] out@[k] < 128 by {
                if k < before.len() {
                    assert(out@[k] == before[k]);
                }
            }
        }
        i = i + 1;
    }
    let ghost before = out@;
    out.push(93u8);
    proof {
        assert(out@ =~= pattern_text(v@, mv));
        assert forall|k: int| 0 <= k < out@.len() implies #[trigger] out@[k] < 128 by {
            if k < before.len() {
                assert(out@[k] == before[k]);
            }
        }
    }
    out
}

/// How a word pattern shows the byte at `i`: `0x` and its digits where the pattern has
/// no mask; where it has one, its digits if the byte is compared, `??` if it is ignored.
pub open spec fn word_item_text(b: u8, m: Option<Seq<bool>>, i: int) -> Seq<u8> {
    match m {
        Some(ms) => if ms[i] {
            byte_hex(b)
        } else {
            seq![63u8, 63u8]
        },
        None => seq![48u8, 120u8] + byte_hex(b),
    }
}

/// Whether a space comes before the byte at `i` in a word pattern's text: between any
/// two bytes where there is no mask, and between words (of `w` bytes) where there is one.
pub open spec fn word_gap(m: Option<Seq<bool>>, i: int, w: nat) -> bool {
    i > 0 && (m is None || i % (w as int) == 0)
}

/// The first `n` bytes of a word pattern shown one after the other: with a mask, the
/// bytes of each word of `w` bytes together and the words separated by spaces; without,
/// each byte separated by a space.
pub open spec fn word_items_text(v: Seq<u8>, m: Option<Seq<bool>>, n: nat, w: nat) -> Seq<u8>
    decreases n,
{
    if n == 0 {
        Seq::empty()
    } else {
        let i = n - 1;
        word_items_text(v, m, (n - 1) as nat, w) + (if word_gap(m, i, w) {
            seq![32u8]
        } else {
            Seq::empty()
        }) + word_item_text(v[i], m, i)
    }
}

/// The text of a word pattern with value `v` and mask `m`, in words of `w` bytes:
/// `Scan Pattern [`, its bytes as [`word_items_text`] shows them, and `]`.
pub open spec fn word_pattern_text(v: Seq<u8>, m: Option<Seq<bool>>, w: nat) -> Seq<u8> {
    text_prefix() + word_items_text(v, m, v.len(), w) + seq![93u8]
}

/// The text of a word pattern with value `v` and mask `m` (as long as the value, where
/// there is one), in words of `w` bytes, as ASCII bytes.
pub fn word_pattern_text_bytes(v: &[u8], m: Option<&[bool]>, w: usize) -> (r: Vec<u8>)
    requires
        m matches Some(ms) ==> ms@.len() == v@.len(),
        w > 0,
    ensures
        r@ == word_pattern_text(v@, crate::util::opt_slice_view(m), w as nat),
        all_ascii(r@),
{
    let ghost mv = crate::util::opt_slice_view(m);
    let mut out: Vec<u8> = vec![83u8, 99u8, 97u8, 110u8, 32u8, 80u8, 97u8, 116u8, 116u8, 101u8, 114u8, 110u8, 32u8, 91u8];
    assert(out@ =~= text_prefix());
    let mut i: usize = 0;
    while i < v.len()
        invariant
            i <= v@.len(),
            w > 0,
            mv == crate::util::opt_slice_view(m),
            m matches Some(ms) ==> ms@.len() == v@.len(),
            out@ == text_prefix() + word_items_text(v@, mv, i as nat, w as nat),
            all_ascii(out@),
        decreases v@.len() - i,
    {
        let ghost before = out@;
        let gap = i > 0 && (m.is_none() || i % w == 0);
        if gap {
            out.push(32u8);
        }
        let ghost mid = out@;
        let b = v[i];
        let hi = hex_digit_of(b / 16);
        let lo = hex_digit_of(b % 16);
        match m {
            Some(ms) => {
                if ms[i] {
                    out.push(hi);
                    out.push(lo);
                } else {
                    out.push(63u8);
                    out.push(63u8);
                }
            },
            None => {
                out.push(48u8);
                out.push(120u8);
                out.push(hi);
                out.push(lo);
            },
        }
        proof {
            let item = word_item_text(v@[i as int], mv, i as int);
            let sep: Seq<u8> = if word_gap(mv, i as int, w as nat) {
                seq![32u8]
            } else {
                Seq::empty()
            };
            assert(gap == word_gap(mv, i as int, w as nat));
            assert(mid =~= before + sep);
            assert(out@ =~= before + sep + item);
            assert(word_items_text(v@, mv, (i + 1) as nat, w as nat) == word_items_text(v@, mv, i as nat, w as nat)
                + sep + item);
            assert(out@ =~= text_prefix() + word_items_text(v@, mv, (i + 1) as nat, w as nat));
            assert forall|k: int| 0 <= k < out@.len() implies #[trigger] out@[k] < 128 by {
                if k < before.len() {
                    assert(out@[k] == before[k]);
                }
            }
        }
        i = i + 1;
    }
    let ghost before = out@;
    out.push(93u8);
    proof {
        assert(out@ =~= word_pattern_text(v@, mv, w as nat));
        assert forall|k: int| 0 <= k < out@.len() implies #[trigger] out@[k] < 128 by {
            if k < before.len() {
                assert(out@[k] == before[k]);
            }
        }
    }
    out
}

/// The upper-case hexadecimal digits of `x`, most significant first.
pub open spec fn hex_digits(x: nat) -> Seq<u8>
    decreases x,
{
    if x < 16 {
        seq![hex_digit(x)]
    } else {
        hex_digits(x / 16).push(hex_digit(x % 16))
    }
}

/// The hexadecimal digits of `x`, with zeros in front up to `w` digits.
pub open spec fn padded_hex(x: nat, w: nat) -> Seq<u8> {
    let d = hex_digits(x);
    if d.len() < w {
        Seq::new((w - d.len()) as nat, |i: int| 48u8) + d
    } else {
        d
    }
}

proof fn lemma_hex_digits_ascii(x: nat)
    ensures
        all_ascii(hex_digits(x)),
        hex_digits(x).len() >= 1,
    decreases x,
{
    if x >= 16 {
        lemma_hex_digits_ascii(x / 16);
        let d = hex_digits(x);
        assert forall|k: int| 0 <= k < d.len() implies #[trigger] d[k] < 128 by {
            if k < d.len() - 1 {
                assert(d[k] == hex_digits(x / 16)[k]);
            }
        }
    }
}

/// The hexadecimal digits of `x` (upper case), with zeros in front up to `width` digits.
pub fn hex_padded(x: usize, width: usize) -> (r: Vec<u8>)
    ensures
        r@ == padded_hex(x as nat, width as nat),
        all_ascii(r@),
{
    let mut m: usize = x;
    let mut rev: Vec<u8> = Vec::new();
    while m >= 16
        invariant
            hex_digits(x as nat) == hex_digits(m as nat) + rev@.reverse(),
        decreases m,
    {
        let ghost old_rev = rev@;
        let digit = hex_digit_of((m % 16) as u8);
        rev.push(digit);
        assert(rev@.reverse() =~= seq![digit] + old_rev.reverse());
        assert(hex_digits(m as nat) == hex_digits((m / 16) as nat).push(digit));
        assert(hex_digits((m / 16) as nat).push(digit) + old_rev.reverse() =~= hex_digits((m / 16) as nat)
            + rev@.reverse());
        m = m / 16;
    }
    let mut d: Vec<u8> = Vec::new();
    d.push(hex_digit_of(m as u8));
    assert(d@ =~= hex_digits(m as nat));
    let mut j: usize = rev.len();
    assert(rev@.subrange(j as int, rev@.len() as int).reverse() =~= Seq::<u8>::empty());
    while j > 0
        invariant
            j <= rev@.len(),
            m < 16,
            hex_digits(x as nat) == hex_digits(m as nat) + rev@.reverse(),
            d@ == hex_digits(m as nat) + rev@.subrange(j as int, rev@.len() as int).reverse(),
        decreases j,
    {
        j = j - 1;
        d.push(rev[j]);
        assert(rev@.subrange(j as int, rev@.len() as int).reverse() =~= rev@.subrange(
            j + 1,
            rev@.len() as int,
        ).reverse().push(rev@[j as int]));
    }
    assert(rev@.subrange(0, rev@.len() as int) =~= rev@);
    assert(d@ == hex_digits(x as nat));
    proof {
        lemma_hex_digits_ascii(x as nat);
    }
    if d.len() < width {
        let mut out: Vec<u8> = Vec::new();
        let pad = width - d.len();
        let mut k: usize = 0;
        while k < pad
            invariant
                k <= pad,
                out@ == Seq::new(k as nat, |i: int| 48u8),
            decreases pad - k,
        {
            out.push(48u8);
            assert(out@ =~= Seq::new((k + 1) as nat, |i: int| 48u8));
            k = k + 1;
        }
        let ghost zeros = out@;
        let r = crate::util::concat_vecs(out, d);
        proof {
            assert(r@ =~= padded_hex(x as nat, width as nat));
            assert forall|q: int| 0 <= q < r@.len() implies #[trigger] r@[q] < 128 by {
                if q >= zeros.len() {
                    assert(r@[q] == hex_digits(x as nat)[q - zeros.len()]);
                }
            }
        }
        r
    } else {
        d
    }
}

/// `0x` and the two digits of a byte, as a match shows its bytes.
pub open spec fn byte_text(b: u8) -> Seq<u8> {
    seq![48u8, 120u8] + byte_hex(b)
}

/// The bytes of a match shown one after the other, separated by `, `.
pub open spec fn bytes_text(v: Seq<u8>, n: nat) -> Seq<u8>
    decreases n,
{
    if n == 0 {
        Seq::empty()
    } else if n == 1 {
        byte_text(v[0])
    } else {
        bytes_text(v, (n - 1) as nat) + seq![44u8, 32u8] + byte_text(v[n - 1])
    }
}

/// The bytes of `v` shown as `0x41, 0x42`.
pub fn describe_bytes(v: &[u8]) -> (r: Vec<u8>)
    ensures
        r@ == bytes_text(v@, v@.len()),
        all_ascii(r@),
{
    let mut out: Vec<u8> = Vec::new();
    let mut i: usize = 0;
    while i < v.len()
        invariant
            i <= v@.len(),
            out@ == bytes_text(v@, i as nat),
            all_ascii(out@),
        decreases v@.len() - i,
    {
        let ghost before = out@;
        if i > 0 {
            out.push(44u8);
            out.push(32u8);
        }
        let b = v[i];
        out.push(48u8);
        out.push(120u8);
        out.push(hex_digit_of(b / 16));
        out.push(hex_digit_of(b % 16));
        proof {
            if i == 0 {
                assert(out@ =~= before + byte_text(v@[0]));
            } else {
                assert(out@ =~= before + seq![44u8, 32u8] + byte_text(v@[i as int]));
            }
            assert(out@ =~= bytes_text(v@, (i + 1) as nat));
            assert forall|k: int| 0 <= k < out@.len() implies #[trigger] out@[k] < 128 by {
                if k < before.len() {
                    assert(out@[k] == before[k]);
                }
            }
        }
        i = i + 1;
    }
    out
}

proof fn lemma_dec_ascii(n: nat)
    ensures
        all_ascii(crate::mem::buffer::dec_bytes(n)),
    decreases n,
{
    if n >= 10 {
        lemma_dec_ascii(n / 10);
        let d = crate::mem::buffer::dec_bytes(n);
        assert forall|k: int| 0 <= k < d.len() implies #[trigger] d[k] < 128 by {
            if k < d.len() - 1 {
                assert(d[k] == crate::mem::buffer::dec_bytes(n / 10)[k]);
            }
        }
    }
}

/// The decimal digits of `n`, most significant first.
pub fn decimal(n: usize) -> (r: Vec<u8>)
    ensures
        r@ == crate::mem::buffer::dec_bytes(n as nat),
        all_ascii(r@),
{
    let mut m: usize = n;
    let mut rev: Vec<u8> = Vec::new();
    while m >= 10
        invariant
            crate::mem::buffer::dec_bytes(n as nat) == crate::mem::buffer::dec_bytes(m as nat) + rev@.reverse(),
        decreases m,
    {
        let ghost old_rev = rev@;
        let digit = (48 + m % 10) as u8;
        rev.push(digit);
        assert(rev@.reverse() =~= seq![digit] + old_rev.reverse());
        assert(crate::mem::buffer::dec_bytes(m as nat) == crate::mem::buffer::dec_bytes((m / 10) as nat).push(digit));
        assert(crate::mem::buffer::dec_bytes((m / 10) as nat).push(digit) + old_rev.reverse() =~= crate::mem::buffer::dec_bytes(
            (m / 10) as nat,
        ) + rev@.reverse());
        m = m / 10;
    }
    let mut d: Vec<u8> = Vec::new();
    d.push((48 + m) as u8);
    assert(d@ =~= crate::mem::buffer::dec_bytes(m as nat));
    let mut j: usize = rev.len();
    assert(rev@.subrange(j as int, rev@.len() as int).reverse() =~= Seq::<u8>::empty());
    while j > 0
        invariant
            j <= rev@.len(),
            m < 10,
            crate::mem::buffer::dec_bytes(n as nat) == crate::mem::buffer::dec_bytes(m as nat) + rev@.reverse(),
            d@ == crate::mem::buffer::dec_bytes(m as nat) + rev@.subrange(j as int, rev@.len() as int).reverse(),
        decreases j,
    {
        j = j - 1;
        d.push(rev[j]);
        assert(rev@.subrange(j as int, rev@.len() as int).reverse() =~= rev@.subrange(
            j + 1,
            rev@.len() as int,
        ).reverse().push(rev@[j as int]));
    }
    assert(rev@.subrange(0, rev@.len() as int) =~= rev@);
    proof {
        lemma_dec_ascii(n as nat);
    }
    d
}

} // verus!
