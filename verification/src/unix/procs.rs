//! Process names as `/proc` gives them, and the search among them.

use vstd::prelude::*;
use vstd::string::StringSliceAdditionalSpecFns;

use crate::mem::ProcessId;
use crate::scanner::memory_layout::{file_name_of, path_file_name};

verus! {

/// `b` without the newline bytes at its end.
pub open spec fn trim_newlines(b: Seq<u8>) -> Seq<u8>
    decreases b.len(),
{
    if b.len() > 0 && b.last() == 10u8 {
        trim_newlines(b.drop_last())
    } else {
        b
    }
}

/// The name of a process as its `comm` file holds it: the text without the newlines at
/// its end.
pub fn comm_name(raw: &str) -> (r: String)
    ensures
        r@ == vstd::utf8::decode_utf8(trim_newlines(raw.spec_bytes())),
{
    let bytes = raw.as_bytes();
    let mut k: usize = bytes.len();
    assert(bytes@.subrange(0, k as int) =~= bytes@);
    while k > 0 && bytes[k - 1] == 10u8
        invariant
            k <= bytes@.len(),
            bytes@ == raw.spec_bytes(),
            trim_newlines(bytes@) == trim_newlines(bytes@.subrange(0, k as int)),
            k < bytes@.len() ==> bytes@[k as int] == 10u8,
        decreases k,
    {
        assert(bytes@.subrange(0, k as int).drop_last() =~= bytes@.subrange(0, k - 1));
        k = k - 1;
    }
    proof {
        assert(trim_newlines(bytes@.subrange(0, k as int)) == bytes@.subrange(0, k as int));
        vstd::utf8::encode_utf8_valid_utf8(raw@);
        if k == bytes@.len() {
            vstd::utf8::is_char_boundary_start_end_of_seq(bytes@);
        } else {
            vstd::utf8::is_char_boundary_iff_not_is_continuation_byte(bytes@, k as int);
        }
    }
    let (head, _) = raw.split_at(k);
    proof {
        vstd::utf8::encode_utf8_decode_utf8(head@);
    }
    head.to_owned()
}

/// Whether `pat` occurs in `s`.
pub open spec fn occurs_in(pat: Seq<u8>, s: Seq<u8>) -> bool {
    exists|i: int| 0 <= i && i + pat.len() <= s.len() && #[trigger] s.subrange(i, i + pat.len()) == pat
}

/// Whether `pat` occurs in `s` at `i`.
fn occurs_at(s: &[u8], pat: &[u8], i: usize) -> (r: bool)
    requires
        i + pat@.len() <= s@.len(),
    ensures
        r == (s@.subrange(i as int, i + pat@.len()) == pat@),
{
    let n = s.len();
    let mut k: usize = 0;
    while k < pat.len()
        invariant
            k <= pat@.len(),
            n == s@.len(),
            i + pat@.len() <= s@.len(),
            forall|q: int| 0 <= q < k ==> s@[i + q] == pat@[q],
        decreases pat@.len() - k,
    {
        if s[i + k] != pat[k] {
            assert(s@.subrange(i as int, i + pat@.len())[k as int] != pat@[k as int]);
            return false;
        }
        k = k + 1;
    }
    assert(s@.subrange(i as int, i + pat@.len()) =~= pat@);
    true
}

/// Whether the name holds `pat`.
pub fn name_contains(name: &str, pat: &str) -> (r: bool)
    ensures
        r == occurs_in(pat.spec_bytes(), name.spec_bytes()),
{
    let s = name.as_bytes();
    let p = pat.as_bytes();
    if p.len() > s.len() {
        return false;
    }
    let last = s.len() - p.len();
    let mut i: usize = 0;
    loop
        invariant
            s@ == name.spec_bytes(),
            p@ == pat.spec_bytes(),
            last == s@.len() - p@.len(),
            i <= last,
            forall|q: int| 0 <= q < i ==> #[trigger] s@.subrange(q, q + p@.len()) != p@,
        decreases last - i,
    {
        if occurs_at(s, p, i) {
            return true;
        }
        if i == last {
            assert forall|q: int| 0 <= q && q + p@.len() <= s@.len() implies #[trigger] s@.subrange(q, q + p@.len()) != p@ by {
                assert(q <= i);
            }
            return false;
        }
        i = i + 1;
    }
}

/// The processes of `procs` whose name holds `pat`, in order.
pub open spec fn named_pids(procs: Seq<(ProcessId, String)>, pat: Seq<u8>) -> Seq<ProcessId>
    decreases procs.len(),
{
    if procs.len() == 0 {
        Seq::empty()
    } else if occurs_in(pat, vstd::utf8::encode_utf8(procs.last().1@)) {
        named_pids(procs.drop_last(), pat).push(procs.last().0)
    } else {
        named_pids(procs.drop_last(), pat)
    }
}

/// The processes whose name holds `exe_name`, in the order given.
pub fn pids_named(procs: &Vec<(ProcessId, String)>, exe_name: &str) -> (r: Vec<ProcessId>)
    ensures
        r@ == named_pids(procs@, exe_name.spec_bytes()),
{
    let mut out: Vec<ProcessId> = Vec::new();
    let mut i: usize = 0;
    while i < procs.len()
        invariant
            i <= procs@.len(),
            out@ == named_pids(procs@.subrange(0, i as int), exe_name.spec_bytes()),
        decreases procs@.len() - i,
    {
        assert(procs@.subrange(0, i + 1).drop_last() =~= procs@.subrange(0, i as int));
        if name_contains(procs[i].1.as_str(), exe_name) {
            out.push(procs[i].0);
        }
        i = i + 1;
    }
    assert(procs@.subrange(0, i as int) =~= procs@);
    out
}

/// The name of a process's executable: the file name of its path, or the whole path
/// where it has none.
pub fn exe_file_name(exe_path: &str) -> (r: String)
    ensures
        match path_file_name(exe_path@) {
            Some(n) => r@ == n,
            None => r@ == exe_path@,
        },
{
    match file_name_of(exe_path) {
        Some(n) => n,
        None => exe_path.to_owned(),
    }
}

} // verus!
