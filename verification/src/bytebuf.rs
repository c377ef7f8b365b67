//! Small verified helpers for building byte strings.

use vstd::prelude::*;

verus! {

/// The views of a list of byte strings.
pub open spec fn views_of(s: Seq<Vec<u8>>) -> Seq<Seq<u8>> {
    Seq::new(s.len(), |i: int| s[i]@)
}

/// Appends the bytes of `src` to `dst`.
pub fn push_bytes(dst: &mut Vec<u8>, src: &Vec<u8>)
    ensures
        final(dst)@ == old(dst)@ + src@,
{
    proof {
        assert(old(dst)@ + src@.take(0) =~= old(dst)@);
    }
    let mut k: usize = 0;
    while k < src.len()
        invariant
            k <= src.len(),
            dst@ == old(dst)@ + src@.take(k as int),
        decreases src.len() - k,
    {
        dst.push(src[k]);
        proof {
            assert((old(dst)@ + src@.take(k as int)).push(src@[k as int]) =~= old(dst)@
                + src@.take(k as int + 1));
        }
        k = k + 1;
    }
    proof {
        assert(src@.take(src@.len() as int) =~= src@);
    }
}

/// A copy of a byte string.
pub fn copy_bytes(src: &Vec<u8>) -> (r: Vec<u8>)
    ensures
        r@ == src@,
{
    vstd::slice::slice_to_vec(src.as_slice())
}

} // verus!
