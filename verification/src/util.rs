//! Small helpers on 32-byte identifiers and byte buffers. Identities,
//! commitment roots and leaf hashes are all carried as `[u8; 32]` values.

use vstd::prelude::*;

verus! {

/// Byte-for-byte equality of two 32-byte values.
pub fn eq32(a: &[u8; 32], b: &[u8; 32]) -> (r: bool)
    ensures
        r == (a@ == b@),
{
    let mut i: usize = 0;
    while i < 32
        invariant
            i <= 32,
            forall|j: int| 0 <= j < i ==> a@[j] == b@[j],
        decreases 32 - i,
    {
        if a[i] != b[i] {
            return false;
        }
        i += 1;
    }
    proof {
        assert(a@ =~= b@);
    }
    true
}

/// Appends all bytes of `src` to `dst`.
pub fn push_bytes32(dst: &mut Vec<u8>, src: &[u8; 32])
    ensures
        final(dst)@ == old(dst)@ + src@,
{
    let mut i: usize = 0;
    while i < 32
        invariant
            i <= 32,
            dst@ == old(dst)@ + src@.subrange(0, i as int),
        decreases 32 - i,
    {
        dst.push(src[i]);
        proof {
            assert(dst@ =~= old(dst)@ + src@.subrange(0, i as int + 1));
        }
        i += 1;
    }
    proof {
        assert(src@.subrange(0, 32) =~= src@);
    }
}

/// Copies a 32-byte value into a fresh buffer.
pub fn vec_from_32(src: &[u8; 32]) -> (r: Vec<u8>)
    ensures
        r@ == src@,
{
    let mut v: Vec<u8> = Vec::new();
    push_bytes32(&mut v, src);
    proof {
        assert(v@ =~= src@);
    }
    v
}

} // verus!
