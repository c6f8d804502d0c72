use vstd::prelude::*;

use crate::digest::Digest;
use winter_crypto::hashers::Blake3_256;
use winter_crypto::{Digest as WinterDigest, Hasher};
use winter_math::fields::f128::BaseElement;

verus! {

/// The digest that BLAKE3 (256-bit output) assigns to a byte string.
///
/// The concrete 32-byte value is left unstated: the commitment logic only
/// needs that it is a function of the input bytes alone.
pub uninterp spec fn blake3_of(input: Seq<u8>) -> Seq<u8>;

/// Relies on `winter_crypto::hashers::Blake3_256::hash`: the BLAKE3 hash of
/// the given byte string, a 32-byte digest determined by the bytes alone.
#[verifier::external_body]
fn blake3_hash(bytes: &[u8]) -> (r: Digest)
    ensures
        r@ == blake3_of(bytes@),
{
    let d = <Blake3_256<BaseElement> as Hasher>::hash(bytes);
    Digest { bytes: d.as_bytes() }
}

/// Hashes a byte string into a digest.
pub fn hash_bytes(data: &[u8]) -> (r: Digest)
    ensures
        r@ == blake3_of(data@),
{
    blake3_hash(data)
}

/// Hashes a pair of digests into their parent digest.
///
/// `winter_crypto`'s `Blake3_256::merge` is, by its source, the BLAKE3 hash
/// of the two digests' concatenated bytes; this function computes exactly
/// that, concatenating in verified code and hashing through `hash_bytes`.
pub fn hash_pair(a: &Digest, b: &Digest) -> (r: Digest)
    ensures
        r@ == blake3_of(a@ + b@),
{
    let mut buf: Vec<u8> = Vec::new();
    push_digest_bytes(&mut buf, a);
    push_digest_bytes(&mut buf, b);
    proof {
        assert(buf@ =~= a@ + b@);
    }
    blake3_hash(buf.as_slice())
}

/// Appends all bytes of a digest to a byte vector.
pub fn push_digest_bytes(buf: &mut Vec<u8>, d: &Digest)
    ensures
        final(buf)@ == old(buf)@ + d@,
{
    let mut i: usize = 0;
    while i < 32
        invariant
            i <= 32,
            buf@ == old(buf)@ + d@.take(i as int),
        decreases 32 - i,
    {
        buf.push(d.bytes[i]);
        proof {
            assert(old(buf)@ + d@.take(i as int) + seq![d@[i as int]] =~= old(buf)@ + d@.take(
                i as int + 1,
            ));
        }
        i = i + 1;
    }
    proof {
        assert(d@.take(32) =~= d@);
    }
}

} // verus!
