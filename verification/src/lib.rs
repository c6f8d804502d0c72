//! A Merkle-tree vector commitment with batch (multi-leaf) proofs, paired
//! with a deterministic Fiat-Shamir random coin that samples query indices,
//! and an orchestrator that chunks large query draws at the coin's per-call
//! capacity, reseeding between chunks.
//!
//! A prover commits to a vector of leaf digests via the Merkle root, both
//! parties derive an identical pseudorandom query set from a shared seed,
//! the prover answers with a compact multi-proof covering exactly those
//! positions, and the verifier checks it against the root.

use vstd::prelude::*;

pub mod batch;
pub mod codec;
pub mod coin;
pub mod digest;
pub mod error;
pub mod hasher;
pub mod laws;
pub mod merkle;

pub use batch::{verify_batch, BatchProof};
pub use coin::{draw_query_batch, RandomCoin};
pub use merkle::MerkleTree;
pub use digest::{digest_eq, Digest};
pub use error::Error;
pub use hasher::{hash_bytes, hash_pair};

verus! {

/// True when `n` is a power of two.
pub open spec fn is_pow2(n: nat) -> bool
    decreases n,
{
    if n == 0 {
        false
    } else if n == 1 {
        true
    } else {
        n % 2 == 0 && is_pow2(n / 2)
    }
}

/// Of two distinct powers of two, the smaller fits at least twice into the
/// larger.
pub proof fn lemma_pow2_double_le(a: nat, b: nat)
    requires
        is_pow2(a),
        is_pow2(b),
        a < b,
    ensures
        2 * a <= b,
    decreases a,
{
    if a >= 2 {
        lemma_pow2_double_le(a / 2, b / 2);
    }
}

/// Every concrete power of two satisfies `is_pow2`.
pub proof fn lemma_is_pow2_pow2(k: nat)
    ensures
        is_pow2(vstd::arithmetic::power2::pow2(k)),
    decreases k,
{
    if k == 0 {
        assert(vstd::arithmetic::power2::pow2(0) == 1) by {
            vstd::arithmetic::power2::lemma2_to64();
        }
    } else {
        lemma_is_pow2_pow2((k - 1) as nat);
        vstd::arithmetic::power2::lemma_pow2_unfold(k);
    }
}

/// A power-of-two `usize` is at most half the type's range plus one, so tree
/// positions below twice the leaf count always fit in a `usize`.
pub proof fn lemma_pow2_usize_bound(n: usize)
    requires
        is_pow2(n as nat),
    ensures
        2 * (n as nat) - 1 <= usize::MAX,
{
    assert(usize::MAX == u32::MAX || usize::MAX == u64::MAX);
    assert(is_pow2(0x1_0000_0000) && is_pow2(0x1_0000_0000_0000_0000)) by {
        vstd::arithmetic::power2::lemma2_to64();
        vstd::arithmetic::power2::lemma2_to64_rest();
        lemma_is_pow2_pow2(32);
        lemma_is_pow2_pow2(64);
    }
    if (n as nat) < 0x1_0000_0000 {
        lemma_pow2_double_le(n as nat, 0x1_0000_0000);
    } else {
        lemma_pow2_double_le(n as nat, 0x1_0000_0000_0000_0000);
    }
}

/// Halving a power of two at least 2 gives a power of two.
pub proof fn lemma_pow2_halves(n: nat)
    requires
        is_pow2(n),
        n >= 2,
    ensures
        is_pow2(n / 2),
        n % 2 == 0,
{
}

/// Sequence concatenation is associative.
pub proof fn lemma_seq_add_assoc<A>(a: Seq<A>, b: Seq<A>, c: Seq<A>)
    ensures
        (a + b) + c == a + (b + c),
{
    assert((a + b) + c =~= a + (b + c));
}

/// Checks at run time whether `n` is a power of two.
pub fn check_pow2(n: usize) -> (r: bool)
    ensures
        r == is_pow2(n as nat),
{
    if n == 0 {
        return false;
    }
    let mut m: usize = n;
    while m > 1
        invariant
            m >= 1,
            is_pow2(n as nat) == is_pow2(m as nat),
        decreases m,
    {
        if m % 2 != 0 {
            return false;
        }
        m = m / 2;
    }
    true
}

} // verus!
