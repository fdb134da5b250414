//! Small verified helpers for comparing text.

use vstd::prelude::*;

verus! {

/// Byte-wise equality of two slices.
pub fn bytes_eq(a: &[u8], b: &[u8]) -> (r: bool)
    ensures
        r == (a@ == b@),
{
    if a.len() != b.len() {
        return false;
    }
    let mut i: usize = 0;
    while i < a.len()
        invariant
            i <= a.len(),
            a.len() == b.len(),
            forall|j: int| 0 <= j < i ==> a@[j] == b@[j],
        decreases a.len() - i,
    {
        if a[i] != b[i] {
            return false;
        }
        i += 1;
    }
    assert(a@ =~= b@);
    true
}

/// Character-wise equality of two string slices.
pub fn str_eq(s: &str, t: &str) -> (r: bool)
    ensures
        r == (s@ == t@),
{
    let r = bytes_eq(s.as_bytes(), t.as_bytes());
    proof {
        vstd::utf8::encode_utf8_decode_utf8(s@);
        vstd::utf8::encode_utf8_decode_utf8(t@);
    }
    r
}

/// `c` with an ASCII capital letter replaced by its small letter; every other
/// character is left as it is.
pub open spec fn ascii_lower_char(c: char) -> char {
    if 'A' <= c && c <= 'Z' {
        ((c as u32) + 32) as char
    } else {
        c
    }
}

/// `s` with its ASCII capital letters made small.
pub open spec fn ascii_lower(s: Seq<char>) -> Seq<char> {
    s.map_values(|c: char| ascii_lower_char(c))
}

/// Whether `s`, with its ASCII capitals made small, reads `lit`.
pub fn lower_eq(s: &str, lit: &str) -> (r: bool)
    ensures
        r == (ascii_lower(s@) == lit@),
{
    let n = s.unicode_len();
    if n != lit.unicode_len() {
        return false;
    }
    let mut i: usize = 0;
    while i < n
        invariant
            i <= n,
            n == s@.len(),
            n == lit@.len(),
            forall|j: int| 0 <= j < i ==> ascii_lower_char(#[trigger] s@[j]) == lit@[j],
        decreases n - i,
    {
        let c = s.get_char(i);
        let d = lit.get_char(i);
        let same = if 'A' <= c && c <= 'Z' {
            (c as u32) + 32 == (d as u32)
        } else {
            c == d
        };
        if !same {
            assert(ascii_lower(s@)[i as int] != lit@[i as int]);
            return false;
        }
        i += 1;
    }
    assert(ascii_lower(s@) =~= lit@);
    true
}

} // verus!
