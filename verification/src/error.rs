use vstd::prelude::*;

verus! {

/// Everything that can go wrong while building a tree, generating or
/// checking a batch proof, or drawing from the random coin.
///
/// A failed verification is *not* an error: `verify_batch` reports it as
/// `Ok(false)`, since an invalid proof is an expected adversarial case.
#[derive(Clone, Copy, Debug, PartialEq, Eq, Structural)]
pub enum Error {
    /// The leaf sequence handed to tree construction does not have a
    /// power-of-two length of at least 2.
    InvalidLeafCount,
    /// A query index lies outside `[0, leaf_count)`, the query set is empty,
    /// or the index and leaf-value sequences have mismatched lengths.
    IndexOutOfRange,
    /// A single draw request exceeds the coin's per-call capacity; the
    /// caller must chunk the request instead.
    DrawBatchTooLarge,
    /// A batch proof is missing a node required to reconstruct the root,
    /// carries extraneous nodes, or its encoding cannot be decoded.
    MalformedProof,
}

} // verus!
