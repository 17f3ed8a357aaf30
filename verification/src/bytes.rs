//! Byte-string helpers shared by the parsers: UTF-8 validity, NUL-terminated
//! strings, prefixes and comparison.

use vstd::prelude::*;
use vstd::utf8::valid_utf8;

verus! {

/// `std::str::from_utf8`: per its documentation it succeeds exactly when the
/// bytes are valid UTF-8. This reports whether it succeeded.
#[verifier::external_body]
pub(crate) fn str_from_utf8_is_ok(bytes: &[u8]) -> (ok: bool)
    ensures
        ok == valid_utf8(bytes@),
{
    std::str::from_utf8(bytes).is_ok()
}

/// `k` is the position of the first NUL byte of `s`.
pub open spec fn first_nul_at(s: Seq<u8>, k: int) -> bool {
    &&& 0 <= k < s.len()
    &&& s[k] == 0
    &&& forall|j: int| 0 <= j < k ==> s[j] != 0
}

/// The first NUL byte of a sequence has one position.
pub proof fn lemma_first_nul_unique(s: Seq<u8>, k1: int, k2: int)
    requires
        first_nul_at(s, k1),
        first_nul_at(s, k2),
    ensures
        k1 == k2,
{
    if k1 < k2 {
        assert(s[k1] != 0);
    } else if k2 < k1 {
        assert(s[k2] != 0);
    }
}

/// The position of the first NUL byte of `s`, when it has one.
pub fn find_nul(s: &[u8]) -> (r: Option<usize>)
    ensures
        r matches Some(k) ==> first_nul_at(s@, k as int),
        r is None ==> forall|j: int| 0 <= j < s@.len() ==> s@[j] != 0,
{
    let mut k: usize = 0;
    while k < s.len()
        invariant
            0 <= k <= s@.len(),
            forall|j: int| 0 <= j < k ==> s@[j] != 0,
        decreases s@.len() - k,
    {
        if s[k] == 0 {
            return Some(k);
        }
        k = k + 1;
    }
    None
}

/// The bytes of `s` from `i` up to `j`.
pub fn slice_subrange(s: &[u8], i: usize, j: usize) -> (r: &[u8])
    requires
        i <= j <= s@.len(),
    ensures
        r@ == s@.subrange(i as int, j as int),
{
    vstd::slice::slice_subrange(s, i, j)
}

/// Whether two byte strings are equal.
pub fn bytes_equal(a: &[u8], b: &[u8]) -> (eq: bool)
    ensures
        eq == (a@ == b@),
{
    if a.len() != b.len() {
        return false;
    }
    let mut i: usize = 0;
    while i < a.len()
        invariant
            0 <= i <= a@.len(),
            a@.len() == b@.len(),
            forall|j: int| 0 <= j < i ==> a@[j] == b@[j],
        decreases a@.len() - i,
    {
        if a[i] != b[i] {
            return false;
        }
        i = i + 1;
    }
    assert(a@ =~= b@);
    true
}

} // verus!
