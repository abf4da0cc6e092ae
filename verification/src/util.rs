//! Small helpers on vectors, masks and little-endian words.

use vstd::prelude::*;

verus! {

/// Concatenates two vectors.
pub fn concat_vecs<T: Copy>(v0: Vec<T>, v1: Vec<T>) -> (r: Vec<T>)
    ensures
        r@ == v0@ + v1@,
{
    let mut r = v0;
    let mut rest = v1;
    r.append(&mut rest);
    r
}

/// `n` copies of `true`.
pub open spec fn all_true(n: nat) -> Seq<bool> {
    Seq::new(n, |i: int| true)
}

/// What [`concat_masks`] returns: a missing mask counts as all `true`
/// (every byte compared), and the result is missing only when both are.
pub open spec fn spec_concat_masks(
    m0: Option<Seq<bool>>,
    m1: Option<Seq<bool>>,
    new_len: nat,
) -> Option<Seq<bool>> {
    match (m0, m1) {
        (None, None) => None,
        (Some(a), None) => Some(a + all_true((new_len - a.len()) as nat)),
        (None, Some(b)) => Some(all_true((new_len - b.len()) as nat) + b),
        (Some(a), Some(b)) => Some(a + b),
    }
}

/// The view of an optional borrowed mask.
pub open spec fn opt_slice_view(m: Option<&[bool]>) -> Option<Seq<bool>> {
    match m {
        None => None,
        Some(s) => Some(s@),
    }
}

/// The view of an optional owned mask.
pub open spec fn opt_vec_view(m: Option<Vec<bool>>) -> Option<Seq<bool>> {
    match m {
        None => None,
        Some(v) => Some(v@),
    }
}

/// A vector holding `n` copies of `b`.
pub fn fill_bools(b: bool, n: usize) -> (r: Vec<bool>)
    ensures
        r@ == Seq::new(n as nat, |i: int| b),
{
    let mut r: Vec<bool> = Vec::with_capacity(n);
    let mut i: usize = 0;
    while i < n
        invariant
            i <= n,
            r@ == Seq::new(i as nat, |k: int| b),
        decreases n - i,
    {
        r.push(b);
        i = i + 1;
    }
    r
}

/// A vector holding `n` copies of `b`.
pub fn fill_bytes(b: u8, n: usize) -> (r: Vec<u8>)
    ensures
        r@ == Seq::new(n as nat, |i: int| b),
{
    let mut r: Vec<u8> = Vec::with_capacity(n);
    let mut i: usize = 0;
    while i < n
        invariant
            i <= n,
            r@ == Seq::new(i as nat, |k: int| b),
        decreases n - i,
    {
        r.push(b);
        i = i + 1;
    }
    r
}

/// Copies a slice into a new vector.
pub fn slice_to_vec<T: Copy>(s: &[T]) -> (r: Vec<T>)
    ensures
        r@ == s@,
{
    let mut r: Vec<T> = Vec::with_capacity(s.len());
    let mut i: usize = 0;
    while i < s.len()
        invariant
            i <= s@.len(),
            r@ == s@.subrange(0, i as int),
        decreases s@.len() - i,
    {
        r.push(s[i]);
        i = i + 1;
        assert(r@ == s@.subrange(0, i as int));
    }
    assert(s@.subrange(0, s@.len() as int) == s@);
    r
}

/// Copies `s[start..end]` into a new vector.
pub fn copy_range<T: Copy>(s: &[T], start: usize, end: usize) -> (r: Vec<T>)
    requires
        start <= end <= s@.len(),
    ensures
        r@ == s@.subrange(start as int, end as int),
{
    let mut r: Vec<T> = Vec::with_capacity(end - start);
    let mut i: usize = start;
    while i < end
        invariant
            start <= i <= end <= s@.len(),
            r@ == s@.subrange(start as int, i as int),
        decreases end - i,
    {
        r.push(s[i]);
        i = i + 1;
        assert(r@ == s@.subrange(start as int, i as int));
    }
    r
}

/// Concatenates two byte masks.
///
/// A missing mask stands for a mask of `true`s; the result is `None` only when both
/// masks are missing. `new_len` is the length of the combined pattern, used to size
/// the `true`s that stand in for a missing mask.
pub fn concat_masks(m0: Option<&[bool]>, m1: Option<&[bool]>, new_len: usize) -> (r: Option<
    Vec<bool>,
>)
    requires
        m0 is Some && m1 is None ==> m0.unwrap()@.len() <= new_len,
        m0 is None && m1 is Some ==> m1.unwrap()@.len() <= new_len,
    ensures
        opt_vec_view(r) == spec_concat_masks(opt_slice_view(m0), opt_slice_view(m1), new_len as nat),
{
    match (m0, m1) {
        (None, None) => None,
        (Some(mv0), None) => {
            let a = slice_to_vec(mv0);
            let b = fill_bools(true, new_len - mv0.len());
            let r = concat_vecs(a, b);
            Some(r)
        },
        (None, Some(mv1)) => {
            let a = fill_bools(true, new_len - mv1.len());
            let b = slice_to_vec(mv1);
            Some(concat_vecs(a, b))
        },
        (Some(mv0), Some(mv1)) => {
            let a = slice_to_vec(mv0);
            let b = slice_to_vec(mv1);
            Some(concat_vecs(a, b))
        },
    }
}

/// The little-endian value of the eight bytes of `b` starting at `i`.
pub open spec fn le_u64_at(b: Seq<u8>, i: int) -> u64 {
    (b[i] as u64) | ((b[i + 1] as u64) << 8u64) | ((b[i + 2] as u64) << 16u64) | ((b[i + 3]
        as u64) << 24u64) | ((b[i + 4] as u64) << 32u64) | ((b[i + 5] as u64) << 40u64) | ((b[i
        + 6] as u64) << 48u64) | ((b[i + 7] as u64) << 56u64)
}

/// The little-endian value of the four bytes of `b` starting at `i`.
pub open spec fn le_u32_at(b: Seq<u8>, i: int) -> u32 {
    (b[i] as u32) | ((b[i + 1] as u32) << 8u32) | ((b[i + 2] as u32) << 16u32) | ((b[i + 3]
        as u32) << 24u32)
}

/// The eight little-endian bytes of `x`.
pub open spec fn le_bytes_u64(x: u64) -> Seq<u8> {
    seq![
        (x & 0xff) as u8,
        ((x >> 8u64) & 0xff) as u8,
        ((x >> 16u64) & 0xff) as u8,
        ((x >> 24u64) & 0xff) as u8,
        ((x >> 32u64) & 0xff) as u8,
        ((x >> 40u64) & 0xff) as u8,
        ((x >> 48u64) & 0xff) as u8,
        ((x >> 56u64) & 0xff) as u8,
    ]
}

/// The four little-endian bytes of `x`.
pub open spec fn le_bytes_u32(x: u32) -> Seq<u8> {
    seq![
        (x & 0xff) as u8,
        ((x >> 8u32) & 0xff) as u8,
        ((x >> 16u32) & 0xff) as u8,
        ((x >> 24u32) & 0xff) as u8,
    ]
}

/// Reads the little-endian `u64` stored at `bytes[off..off + 8]`.
pub fn read_u64_le(bytes: &[u8], off: usize) -> (r: u64)
    requires
        off + 8 <= bytes@.len(),
    ensures
        r == le_u64_at(bytes@, off as int),
{
    (bytes[off] as u64) | ((bytes[off + 1] as u64) << 8u64) | ((bytes[off + 2] as u64) << 16u64)
        | ((bytes[off + 3] as u64) << 24u64) | ((bytes[off + 4] as u64) << 32u64) | ((bytes[off
        + 5] as u64) << 40u64) | ((bytes[off + 6] as u64) << 48u64) | ((bytes[off + 7] as u64)
        << 56u64)
}

/// Reads the little-endian `u32` stored at `bytes[off..off + 4]`.
pub fn read_u32_le(bytes: &[u8], off: usize) -> (r: u32)
    requires
        off + 4 <= bytes@.len(),
    ensures
        r == le_u32_at(bytes@, off as int),
{
    (bytes[off] as u32) | ((bytes[off + 1] as u32) << 8u32) | ((bytes[off + 2] as u32) << 16u32)
        | ((bytes[off + 3] as u32) << 24u32)
}

/// The little-endian bytes of a `u64`.
pub fn u64_to_bytes(x: u64) -> (r: Vec<u8>)
    ensures
        r@ == le_bytes_u64(x),
{
    let mut r: Vec<u8> = Vec::with_capacity(8);
    r.push((x & 0xff) as u8);
    r.push(((x >> 8u64) & 0xff) as u8);
    r.push(((x >> 16u64) & 0xff) as u8);
    r.push(((x >> 24u64) & 0xff) as u8);
    r.push(((x >> 32u64) & 0xff) as u8);
    r.push(((x >> 40u64) & 0xff) as u8);
    r.push(((x >> 48u64) & 0xff) as u8);
    r.push(((x >> 56u64) & 0xff) as u8);
    r
}

/// The little-endian bytes of a `u32`.
pub fn u32_to_bytes(x: u32) -> (r: Vec<u8>)
    ensures
        r@ == le_bytes_u32(x),
{
    let mut r: Vec<u8> = Vec::with_capacity(4);
    r.push((x & 0xff) as u8);
    r.push(((x >> 8u32) & 0xff) as u8);
    r.push(((x >> 16u32) & 0xff) as u8);
    r.push(((x >> 24u32) & 0xff) as u8);
    r
}

/// The little-endian bytes of a `usize` (a machine word).
pub fn usize_to_bytes(x: usize) -> (r: Vec<u8>)
    ensures
        r@ == crate::word_bytes(x),
        r@.len() == crate::word_size(),
{
    if usize::BITS == 64 {
        u64_to_bytes(x as u64)
    } else {
        u32_to_bytes(x as u32)
    }
}

/// Reads the little-endian machine word stored at `bytes[off..]`.
pub fn read_usize_le(bytes: &[u8], off: usize) -> (r: usize)
    requires
        off + crate::word_size() <= bytes@.len(),
    ensures
        r == crate::word_value(bytes@, off as int),
{
    if usize::BITS == 64 {
        read_u64_le(bytes, off) as usize
    } else {
        read_u32_le(bytes, off) as usize
    }
}

/// Reads the little-endian word of `w` bytes stored at `bytes[off..off + w]`.
pub fn read_word_le(bytes: &[u8], off: usize, w: usize) -> (r: usize)
    requires
        crate::valid_word(w as nat),
        off + w <= bytes@.len(),
    ensures
        r == crate::word_value_w(bytes@, off as int, w as nat),
{
    if w == 8 {
        read_u64_le(bytes, off) as usize
    } else {
        read_u32_le(bytes, off) as usize
    }
}

/// The `w` little-endian bytes of a word.
pub fn word_to_bytes(x: usize, w: usize) -> (r: Vec<u8>)
    requires
        crate::valid_word(w as nat),
    ensures
        r@ == crate::word_bytes_w(x, w as nat),
        r@.len() == w,
{
    if w == 8 {
        u64_to_bytes(x as u64)
    } else {
        u32_to_bytes(x as u32)
    }
}

/// The array holding the 16 bytes of `s`.
pub open spec fn array16(s: Seq<u8>) -> [u8; 16] {
    choose|a: [u8; 16]| a@ == s
}

/// The array holding the 8 bytes of `s`.
pub open spec fn array8(s: Seq<u8>) -> [u8; 8] {
    choose|a: [u8; 8]| a@ == s
}

/// Copies `bytes[off..off + 16]` into an array.
pub fn array16_at(bytes: &[u8], off: usize) -> (r: [u8; 16])
    requires
        off + 16 <= bytes@.len(),
    ensures
        r@ == bytes@.subrange(off as int, off + 16),
        r == array16(bytes@.subrange(off as int, off + 16)),
{
    let r: [u8; 16] = [
        bytes[off],
        bytes[off + 1],
        bytes[off + 2],
        bytes[off + 3],
        bytes[off + 4],
        bytes[off + 5],
        bytes[off + 6],
        bytes[off + 7],
        bytes[off + 8],
        bytes[off + 9],
        bytes[off + 10],
        bytes[off + 11],
        bytes[off + 12],
        bytes[off + 13],
        bytes[off + 14],
        bytes[off + 15],
    ];
    assert(r@ =~= bytes@.subrange(off as int, off + 16));
    proof {
        let c = array16(bytes@.subrange(off as int, off + 16));
        assert(c@ == bytes@.subrange(off as int, off + 16));
        assert(c@ =~= r@);
        broadcast use vstd::array::axiom_array_ext_equal;
        assert(c == r);
    }
    r
}

/// Copies `bytes[off..off + 8]` into an array.
pub fn array8_at(bytes: &[u8], off: usize) -> (r: [u8; 8])
    requires
        off + 8 <= bytes@.len(),
    ensures
        r@ == bytes@.subrange(off as int, off + 8),
        r == array8(bytes@.subrange(off as int, off + 8)),
{
    let r: [u8; 8] = [
        bytes[off],
        bytes[off + 1],
        bytes[off + 2],
        bytes[off + 3],
        bytes[off + 4],
        bytes[off + 5],
        bytes[off + 6],
        bytes[off + 7],
    ];
    assert(r@ =~= bytes@.subrange(off as int, off + 8));
    proof {
        let c = array8(bytes@.subrange(off as int, off + 8));
        assert(c@ == bytes@.subrange(off as int, off + 8));
        assert(c@ =~= r@);
        broadcast use vstd::array::axiom_array_ext_equal;
        assert(c == r);
    }
    r
}

/// Decoding the bytes of a `u64` gives it back.
pub proof fn lemma_u64_roundtrip(x: u64)
    ensures
        le_u64_at(le_bytes_u64(x), 0) == x,
{
    let b = le_bytes_u64(x);
    let b0 = b[0];
    let b1 = b[1];
    let b2 = b[2];
    let b3 = b[3];
    let b4 = b[4];
    let b5 = b[5];
    let b6 = b[6];
    let b7 = b[7];
    assert(b0 == (x & 0xff) as u8 && b1 == ((x >> 8u64) & 0xff) as u8 && b2 == ((x >> 16u64)
        & 0xff) as u8 && b3 == ((x >> 24u64) & 0xff) as u8 && b4 == ((x >> 32u64) & 0xff) as u8
        && b5 == ((x >> 40u64) & 0xff) as u8 && b6 == ((x >> 48u64) & 0xff) as u8 && b7 == ((x
        >> 56u64) & 0xff) as u8);
    assert((((x & 0xff) as u8) as u64) | ((((x >> 8u64) & 0xff) as u8 as u64) << 8u64) | ((((x
        >> 16u64) & 0xff) as u8 as u64) << 16u64) | ((((x >> 24u64) & 0xff) as u8 as u64) << 24u64)
        | ((((x >> 32u64) & 0xff) as u8 as u64) << 32u64) | ((((x >> 40u64) & 0xff) as u8 as u64)
        << 40u64) | ((((x >> 48u64) & 0xff) as u8 as u64) << 48u64) | ((((x >> 56u64) & 0xff) as u8
        as u64) << 56u64) == x) by (bit_vector);
}

/// Decoding the bytes of a `u32` gives it back.
pub proof fn lemma_u32_roundtrip(x: u32)
    ensures
        le_u32_at(le_bytes_u32(x), 0) == x,
{
    let b = le_bytes_u32(x);
    assert(b[0] == (x & 0xff) as u8 && b[1] == ((x >> 8u32) & 0xff) as u8 && b[2] == ((x
        >> 16u32) & 0xff) as u8 && b[3] == ((x >> 24u32) & 0xff) as u8);
    assert((((x & 0xff) as u8) as u32) | ((((x >> 8u32) & 0xff) as u8 as u32) << 8u32) | ((((x
        >> 16u32) & 0xff) as u8 as u32) << 16u32) | ((((x >> 24u32) & 0xff) as u8 as u32) << 24u32)
        == x) by (bit_vector);
}

/// The characters of ASCII bytes.
pub open spec fn ascii_chars(b: Seq<u8>) -> Seq<char> {
    b.map_values(|x: u8| x as char)
}

/// Every byte is ASCII.
pub open spec fn all_ascii(b: Seq<u8>) -> bool {
    forall|i: int| 0 <= i < b.len() ==> #[trigger] b[i] < 128
}

/// The string of ASCII bytes.
pub fn ascii_string(bytes: Vec<u8>) -> (r: String)
    requires
        all_ascii(bytes@),
    ensures
        r@ == ascii_chars(bytes@),
{
    proof {
        let chars = ascii_chars(bytes@);
        assert forall|q: int| 0 <= q < chars.len() implies '\0' <= #[trigger] chars[q] <= '\u{7f}' by {
            assert(bytes@[q] < 128);
        }
        vstd::utf8::is_ascii_chars_encode_utf8(chars);
        assert forall|q: int| 0 <= q < chars.len() implies #[trigger] vstd::utf8::encode_utf8(chars)[q] == bytes@[q] by {
            let b = bytes@[q];
            assert(chars[q] == b as char);
            assert((b as char) as u8 == b);
        }
        assert(vstd::utf8::encode_utf8(chars) =~= bytes@);
        vstd::utf8::encode_utf8_valid_utf8(chars);
        vstd::utf8::encode_utf8_decode_utf8(chars);
    }
    match crate::cpp_std::utf8_to_string(bytes) {
        Ok(s) => s,
        Err(_) => String::new(),
    }
}

/// The parts joined, with `sep` between each two.
pub open spec fn join_with(parts: Seq<Seq<u8>>, sep: Seq<u8>) -> Seq<u8>
    decreases parts.len(),
{
    if parts.len() == 0 {
        Seq::empty()
    } else if parts.len() == 1 {
        parts[0]
    } else {
        join_with(parts.drop_last(), sep) + sep + parts.last()
    }
}

proof fn lemma_join_ascii(parts: Seq<Seq<u8>>, sep: Seq<u8>)
    requires
        all_ascii(sep),
        forall|i: int| 0 <= i < parts.len() ==> all_ascii(#[trigger] parts[i]),
    ensures
        all_ascii(join_with(parts, sep)),
    decreases parts.len(),
{
    if parts.len() > 1 {
        let p = parts.drop_last();
        assert forall|i: int| 0 <= i < p.len() implies all_ascii(#[trigger] p[i]) by {
            assert(p[i] == parts[i]);
        }
        lemma_join_ascii(p, sep);
        let a = join_with(p, sep);
        let b = parts.last();
        assert(all_ascii(b));
        assert forall|i: int| 0 <= i < (a + sep + b).len() implies #[trigger] (a + sep + b)[i] < 128 by {
            if i < a.len() {
                assert((a + sep + b)[i] == a[i]);
            } else if i < a.len() + sep.len() {
                assert((a + sep + b)[i] == sep[i - a.len()]);
            } else {
                assert((a + sep + b)[i] == b[i - a.len() - sep.len()]);
            }
        }
    } else if parts.len() == 1 {
        assert(all_ascii(parts[0]));
    }
}

/// The string of ASCII parts joined with an ASCII separator.
pub fn join_ascii(parts: &Vec<Vec<u8>>, sep: &[u8]) -> (r: String)
    requires
        all_ascii(sep@),
        forall|i: int| 0 <= i < parts@.len() ==> all_ascii(#[trigger] parts@[i]@),
    ensures
        r@ == ascii_chars(join_with(parts@.map_values(|v: Vec<u8>| v@), sep@)),
{
    let ghost views = parts@.map_values(|v: Vec<u8>| v@);
    let mut out: Vec<u8> = Vec::new();
    let mut k: usize = 0;
    assert(views.subrange(0, 0) =~= Seq::<Seq<u8>>::empty());
    while k < parts.len()
        invariant
            k <= parts@.len(),
            views == parts@.map_values(|v: Vec<u8>| v@),
            out@ == join_with(views.subrange(0, k as int), sep@),
        decreases parts@.len() - k,
    {
        let ghost mid_start = out@;
        if k > 0 {
            let mut q: usize = 0;
            while q < sep.len()
                invariant
                    q <= sep@.len(),
                    out@ == mid_start + sep@.subrange(0, q as int),
                decreases sep@.len() - q,
            {
                out.push(sep[q]);
                assert(sep@.subrange(0, q + 1) =~= sep@.subrange(0, q as int).push(sep@[q as int]));
                q = q + 1;
            }
            assert(sep@.subrange(0, sep@.len() as int) =~= sep@);
        }
        let ghost mid = out@;
        let part = &parts[k];
        let mut q: usize = 0;
        while q < part.len()
            invariant
                q <= part@.len(),
                out@ == mid + part@.subrange(0, q as int),
            decreases part@.len() - q,
        {
            out.push(part[q]);
            assert(part@.subrange(0, q + 1) =~= part@.subrange(0, q as int).push(part@[q as int]));
            q = q + 1;
        }
        proof {
            assert(part@.subrange(0, part@.len() as int) =~= part@);
            let nxt = views.subrange(0, k + 1);
            assert(nxt.drop_last() =~= views.subrange(0, k as int));
            assert(nxt.last() == part@);
            if k > 0 {
                assert(out@ =~= join_with(nxt.drop_last(), sep@) + sep@ + nxt.last());
            } else {
                assert(mid_start =~= Seq::<u8>::empty());
                assert(out@ =~= nxt.last());
            }
        }
        k = k + 1;
    }
    proof {
        assert(views.subrange(0, k as int) =~= views);
        assert forall|i: int| 0 <= i < views.len() implies all_ascii(#[trigger] views[i]) by {
            assert(views[i] == parts@[i]@);
        }
        lemma_join_ascii(views, sep@);
    }
    ascii_string(out)
}

/// The eight bytes at `b[i..]` are the little-endian bytes of their value.
pub proof fn lemma_u64_bytes_of(b: Seq<u8>, i: int)
    requires
        0 <= i,
        i + 8 <= b.len(),
    ensures
        le_bytes_u64(le_u64_at(b, i)) == b.subrange(i, i + 8),
{
    let (b0, b1, b2, b3, b4, b5, b6, b7) = (b[i], b[i + 1], b[i + 2], b[i + 3], b[i + 4], b[i + 5], b[i + 6], b[i + 7]);
    let x = le_u64_at(b, i);
    assert(x == (b0 as u64) | ((b1 as u64) << 8u64) | ((b2 as u64) << 16u64) | ((b3 as u64) << 24u64) | ((b4
        as u64) << 32u64) | ((b5 as u64) << 40u64) | ((b6 as u64) << 48u64) | ((b7 as u64) << 56u64));
    assert((x & 0xff) as u8 == b0 && ((x >> 8u64) & 0xff) as u8 == b1 && ((x >> 16u64) & 0xff) as u8 == b2
        && ((x >> 24u64) & 0xff) as u8 == b3 && ((x >> 32u64) & 0xff) as u8 == b4 && ((x >> 40u64) & 0xff) as u8
        == b5 && ((x >> 48u64) & 0xff) as u8 == b6 && ((x >> 56u64) & 0xff) as u8 == b7) by (bit_vector)
        requires
            x == (b0 as u64) | ((b1 as u64) << 8u64) | ((b2 as u64) << 16u64) | ((b3 as u64) << 24u64) | ((b4
                as u64) << 32u64) | ((b5 as u64) << 40u64) | ((b6 as u64) << 48u64) | ((b7 as u64) << 56u64),
    ;
    assert(le_bytes_u64(x) =~= b.subrange(i, i + 8));
}

/// The four bytes at `b[i..]` are the little-endian bytes of their value.
pub proof fn lemma_u32_bytes_of(b: Seq<u8>, i: int)
    requires
        0 <= i,
        i + 4 <= b.len(),
    ensures
        le_bytes_u32(le_u32_at(b, i)) == b.subrange(i, i + 4),
{
    let (b0, b1, b2, b3) = (b[i], b[i + 1], b[i + 2], b[i + 3]);
    let x = le_u32_at(b, i);
    assert(x == (b0 as u32) | ((b1 as u32) << 8u32) | ((b2 as u32) << 16u32) | ((b3 as u32) << 24u32));
    assert((x & 0xff) as u8 == b0 && ((x >> 8u32) & 0xff) as u8 == b1 && ((x >> 16u32) & 0xff) as u8 == b2
        && ((x >> 24u32) & 0xff) as u8 == b3) by (bit_vector)
        requires
            x == (b0 as u32) | ((b1 as u32) << 8u32) | ((b2 as u32) << 16u32) | ((b3 as u32) << 24u32),
    ;
    assert(le_bytes_u32(x) =~= b.subrange(i, i + 4));
}

/// The `w` bytes at `b[i..]` are the bytes of a word exactly when their value is that
/// word (a word of four bytes must fit them).
pub proof fn lemma_word_bytes_match(b: Seq<u8>, i: int, w: nat, x: usize)
    requires
        crate::valid_word(w),
        0 <= i,
        i + w <= b.len(),
        w == 4 ==> x <= u32::MAX,
    ensures
        (b.subrange(i, i + w) == crate::word_bytes_w(x, w)) <==> (crate::word_value_w(b, i, w) == x),
{
    if w == 8 {
        lemma_u64_bytes_of(b, i);
        lemma_u64_roundtrip(x as u64);
        let v = le_u64_at(b, i);
        assert(crate::word_size() == 8);
        assert(usize::BITS == 64);
        if b.subrange(i, i + 8) == le_bytes_u64(x as u64) {
            assert(le_bytes_u64(v) == le_bytes_u64(x as u64));
            lemma_u64_roundtrip(v);
        }
    } else {
        lemma_u32_bytes_of(b, i);
        lemma_u32_roundtrip(x as u32);
        let v = le_u32_at(b, i);
        if b.subrange(i, i + 4) == le_bytes_u32(x as u32) {
            assert(le_bytes_u32(v) == le_bytes_u32(x as u32));
            lemma_u32_roundtrip(v);
        }
    }
}

/// The array chosen for sixteen bytes holds them.
pub proof fn lemma_array16(s: Seq<u8>)
    requires
        s.len() == 16,
    ensures
        array16(s)@ == s,
{
    let a: [u8; 16] = [s[0], s[1], s[2], s[3], s[4], s[5], s[6], s[7], s[8], s[9], s[10], s[11], s[12], s[13], s[14], s[15]];
    assert(a@ =~= s);
}

} // verus!
