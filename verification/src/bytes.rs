//! Small helpers over byte slices shared by the substitution and path
//! templating code.

use vstd::prelude::*;
use vstd::slice::{slice_subrange, slice_to_vec};

verus! {

/// Element-wise equality of two byte slices.
pub fn bytes_eq(a: &[u8], b: &[u8]) -> (r: bool)
    ensures
        r == (a@ == b@),
{
    let n = a.len();
    if n != b.len() {
        return false;
    }
    let mut i: usize = 0;
    while i < n
        invariant
            i <= n,
            n == a@.len(),
            n == b@.len(),
            forall|k: int| 0 <= k < i ==> a@[k] == b@[k],
        decreases n - i,
    {
        if a[i] != b[i] {
            return false;
        }
        i = i + 1;
    }
    proof {
        assert(a@ =~= b@);
    }
    true
}

/// A copy of the byte range `[i, j)` of `s`.
pub fn copy_range(s: &[u8], i: usize, j: usize) -> (r: Vec<u8>)
    requires
        i <= j <= s@.len(),
    ensures
        r@ == s@.subrange(i as int, j as int),
{
    slice_to_vec(slice_subrange(s, i, j))
}

/// A copy of the whole byte slice.
pub fn copy_bytes(s: &[u8]) -> (r: Vec<u8>)
    ensures
        r@ == s@,
{
    slice_to_vec(s)
}

/// Whether `p` is a prefix of `s`.
pub fn starts_with(s: &[u8], p: &[u8]) -> (r: bool)
    ensures
        r == p@.is_prefix_of(s@),
{
    let plen = p.len();
    if plen > s.len() {
        return false;
    }
    let head = slice_subrange(s, 0, plen);
    bytes_eq(head, p)
}

/// The deep view of a byte vector is its plain view.
pub proof fn lemma_u8_deep_view(v: Vec<u8>)
    ensures
        v.deep_view() == v@,
{
    assert(v.deep_view() =~= v@);
}

/// Pushing onto a vector of byte vectors pushes the element's view onto the
/// deep view.
pub proof fn lemma_deep_view_push(v: Vec<Vec<u8>>, w: Vec<Vec<u8>>, x: Vec<u8>)
    requires
        w@ == v@.push(x),
    ensures
        w.deep_view() == v.deep_view().push(x@),
{
    lemma_u8_deep_view(x);
    assert forall|i: int| 0 <= i < w@.len() implies w.deep_view()[i] == v.deep_view().push(
        x@,
    )[i] by {
        if i < v@.len() {
            assert(w@[i] == v@[i]);
        } else {
            assert(w@[i] == x);
        }
    }
    assert(w.deep_view() =~= v.deep_view().push(x@));
}

} // verus!
