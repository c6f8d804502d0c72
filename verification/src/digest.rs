use vstd::prelude::*;

verus! {

/// A fixed-size hash output: equality-comparable and cheaply copyable.
///
/// Digests are produced by hashing leaf data or pairs of child digests; the
/// commitment logic never looks inside one except to compare bytes.
#[derive(Clone, Copy, Debug, PartialEq, Eq)]
pub struct Digest {
    pub bytes: [u8; 32],
}

impl View for Digest {
    type V = Seq<u8>;

    open spec fn view(&self) -> Seq<u8> {
        self.bytes@
    }
}

impl Digest {
    /// Wraps raw bytes as a digest.
    pub fn new(bytes: [u8; 32]) -> (d: Digest)
        ensures
            d@ == bytes@,
    {
        Digest { bytes }
    }

    /// Returns a digest of all zero bytes.
    pub fn zero() -> (d: Digest)
        ensures
            d@ == Seq::new(32, |i: int| 0u8),
    {
        let d = Digest { bytes: [0u8; 32] };
        proof {
            assert(d@ =~= Seq::new(32, |i: int| 0u8));
        }
        d
    }
}

/// Byte-wise digest equality, usable from verified code.
pub fn digest_eq(a: &Digest, b: &Digest) -> (r: bool)
    ensures
        r <==> a@ == b@,
{
    let mut i: usize = 0;
    while i < 32
        invariant
            i <= 32,
            forall|k: int| 0 <= k < i ==> a@[k] == b@[k],
        decreases 32 - i,
    {
        if a.bytes[i] != b.bytes[i] {
            return false;
        }
        i = i + 1;
    }
    proof {
        assert(a@ =~= b@);
    }
    true
}

} // verus!
