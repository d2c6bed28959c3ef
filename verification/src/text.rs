//! Verified helpers on strings.

use vstd::prelude::*;
use vstd::utf8::encode_utf8;
use crate::codec::lemma_str_bytes_injective;

verus! {

/// Compare two strings for equality, byte by byte over their UTF-8 forms.
pub fn str_eq(a: &str, b: &str) -> (r: bool)
    ensures
        r == (a@ == b@),
{
    let ab = a.as_bytes();
    let bb = b.as_bytes();
    if ab.len() != bb.len() {
        return false;
    }
    let mut i: usize = 0;
    while i < ab.len()
        invariant
            0 <= i <= ab@.len(),
            ab@.len() == bb@.len(),
            ab@ == encode_utf8(a@),
            bb@ == encode_utf8(b@),
            forall|k: int| 0 <= k < i ==> ab@[k] == bb@[k],
        decreases ab@.len() - i,
    {
        if *vstd::slice::slice_index_get(ab, i) != *vstd::slice::slice_index_get(bb, i) {
            return false;
        }
        i = i + 1;
    }
    proof {
        assert(encode_utf8(a@) =~= encode_utf8(b@));
        lemma_str_bytes_injective(a@, b@);
    }
    true
}

} // verus!
