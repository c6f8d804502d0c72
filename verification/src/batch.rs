use vstd::prelude::*;

use crate::digest::{digest_eq, Digest};
use crate::error::Error;
use crate::hasher::{blake3_of, hash_pair};
use crate::merkle::{
    canon, digests_of, idxs_of, leaf_positions, lemma_canon_props, pair_at, sib_count, step_ps,
};
use crate::codec::{be64, lemma_u64_be_round_trip, push_u64_be, read_u64_be, u64_be};
use crate::hasher::push_digest_bytes;
use crate::{check_pow2, is_pow2, lemma_pow2_usize_bound, lemma_seq_add_assoc};

verus! {

/// A compact multi-proof: the internal-node digests a verifier needs, and
/// cannot derive, to recompute the root from the queried leaves' values.
///
/// Nodes appear in consumption order: tree levels bottom-up and, within a
/// level, ascending by position. `leaf_count` records the size of the tree
/// the proof was generated from, so a verifier can place the queried
/// indices at their leaf positions.
pub struct BatchProof {
    pub leaf_count: usize,
    pub nodes: Vec<Digest>,
}

/// A sequence of digests laid out back to back as one byte string.
pub open spec fn flat(nodes: Seq<Seq<u8>>) -> Seq<u8>
    decreases nodes.len(),
{
    if nodes.len() == 0 {
        Seq::empty()
    } else {
        nodes[0] + flat(nodes.skip(1))
    }
}

/// The byte encoding of a batch proof: the tree's leaf count and the node
/// count, each as eight big-endian bytes, followed by the node digests.
pub open spec fn proof_bytes(n: u64, nodes: Seq<Seq<u8>>) -> Seq<u8>
    recommends
        nodes.len() <= u64::MAX,
{
    u64_be(n) + u64_be(nodes.len() as u64) + flat(nodes)
}

/// Flattening distributes over appending one digest at the end.
pub proof fn lemma_flat_snoc(nodes: Seq<Seq<u8>>, d: Seq<u8>)
    ensures
        flat(nodes.push(d)) == flat(nodes) + d,
    decreases nodes.len(),
{
    if nodes.len() == 0 {
        assert(nodes.push(d)[0] == d);
        assert(nodes.push(d).skip(1) =~= Seq::<Seq<u8>>::empty());
        assert(flat(Seq::<Seq<u8>>::empty()) == Seq::<u8>::empty());
        assert(flat(nodes.push(d)) =~= flat(nodes) + d);
    } else {
        assert(nodes.push(d).skip(1) =~= nodes.skip(1).push(d));
        lemma_flat_snoc(nodes.skip(1), d);
        lemma_seq_add_assoc(nodes[0], flat(nodes.skip(1)), d);
    }
}

/// Fixed-width digests flatten to a byte string of predictable length.
pub proof fn lemma_flat_len(nodes: Seq<Seq<u8>>)
    requires
        forall|k: int| 0 <= k < nodes.len() ==> (#[trigger] nodes[k]).len() == 32,
    ensures
        flat(nodes).len() == 32 * nodes.len(),
    decreases nodes.len(),
{
    if nodes.len() > 0 {
        assert(nodes[0].len() == 32);
        assert forall|k: int| 0 <= k < nodes.skip(1).len() implies (#[trigger] nodes.skip(
            1,
        )[k]).len() == 32 by {
            assert(nodes.skip(1)[k] == nodes[k + 1]);
        }
        lemma_flat_len(nodes.skip(1));
    }
}

/// A byte string carved into consecutive 32-byte windows flattens back to
/// the byte string itself.
pub proof fn lemma_flat_windows(nodes: Seq<Seq<u8>>, bytes: Seq<u8>, off: int)
    requires
        0 <= off,
        off + 32 * nodes.len() == bytes.len(),
        forall|k: int|
            0 <= k < nodes.len() ==> (#[trigger] nodes[k]) == bytes.subrange(
                off + 32 * k,
                off + 32 * k + 32,
            ),
    ensures
        flat(nodes) == bytes.subrange(off, bytes.len() as int),
    decreases nodes.len(),
{
    if nodes.len() == 0 {
        assert(flat(nodes) =~= bytes.subrange(off, bytes.len() as int));
    } else {
        assert(nodes[0] == bytes.subrange(off, off + 32));
        assert forall|k: int| 0 <= k < nodes.skip(1).len() implies (#[trigger] nodes.skip(1)[k])
            == bytes.subrange(off + 32 + 32 * k, off + 32 + 32 * k + 32) by {
            assert(nodes.skip(1)[k] == nodes[k + 1]);
        }
        lemma_flat_windows(nodes.skip(1), bytes, off + 32);
        assert(flat(nodes) =~= bytes.subrange(off, bytes.len() as int));
    }
}

/// Equal-length digest sequences with the same flattening are the same:
/// the proof encoding loses nothing.
pub proof fn lemma_flat_injective(s1: Seq<Seq<u8>>, s2: Seq<Seq<u8>>)
    requires
        s1.len() == s2.len(),
        forall|k: int| 0 <= k < s1.len() ==> (#[trigger] s1[k]).len() == 32,
        forall|k: int| 0 <= k < s2.len() ==> (#[trigger] s2[k]).len() == 32,
        flat(s1) == flat(s2),
    ensures
        s1 == s2,
    decreases s1.len(),
{
    if s1.len() == 0 {
        assert(s1 =~= s2);
    } else {
        assert(s1[0].len() == 32 && s2[0].len() == 32);
        assert(s1[0] =~= flat(s1).subrange(0, 32));
        assert(s2[0] =~= flat(s2).subrange(0, 32));
        assert forall|k: int| 0 <= k < s1.skip(1).len() implies (#[trigger] s1.skip(1)[k]).len()
            == 32 by {
            assert(s1.skip(1)[k] == s1[k + 1]);
        }
        assert forall|k: int| 0 <= k < s2.skip(1).len() implies (#[trigger] s2.skip(1)[k]).len()
            == 32 by {
            assert(s2.skip(1)[k] == s2[k + 1]);
        }
        lemma_flat_len(s1.skip(1));
        lemma_flat_len(s2.skip(1));
        assert(flat(s1.skip(1)) =~= flat(s1).subrange(32, flat(s1).len() as int));
        assert(flat(s2.skip(1)) =~= flat(s2).subrange(32, flat(s2).len() as int));
        lemma_flat_injective(s1.skip(1), s2.skip(1));
        assert forall|k: int| 0 <= k < s1.len() implies s1[k] == s2[k] by {
            if k > 0 {
                assert(s1.skip(1)[k - 1] == s1[k]);
                assert(s2.skip(1)[k - 1] == s2[k]);
            }
        }
        assert(s1 =~= s2);
    }
}

/// Eight bytes survive the decode-encode round trip: the encoding of their
/// decoded integer is the bytes themselves.
pub proof fn lemma_u64_be_of_be64(s: Seq<u8>)
    requires
        s.len() == 8,
    ensures
        be64(s) <= u64::MAX,
        u64_be(be64(s) as u64) == s,
{
    let c0 = s[0] as u64;
    let c1 = s[1] as u64;
    let c2 = s[2] as u64;
    let c3 = s[3] as u64;
    let c4 = s[4] as u64;
    let c5 = s[5] as u64;
    let c6 = s[6] as u64;
    let c7 = s[7] as u64;
    let x = (c0 * 0x100000000000000 + c1 * 0x1000000000000 + c2 * 0x10000000000 + c3 * 0x100000000
        + c4 * 0x1000000 + c5 * 0x10000 + c6 * 0x100 + c7) as u64;
    assert(be64(s) == x as nat);
    assert((c0 * 0x100000000000000 + c1 * 0x1000000000000 + c2 * 0x10000000000 + c3 * 0x100000000
        + c4 * 0x1000000 + c5 * 0x10000 + c6 * 0x100 + c7) / 0x100000000000000 == c0
        && ((c0 * 0x100000000000000 + c1 * 0x1000000000000 + c2 * 0x10000000000 + c3 * 0x100000000
        + c4 * 0x1000000 + c5 * 0x10000 + c6 * 0x100 + c7) / 0x1000000000000) % 0x100 == c1 && ((c0
        * 0x100000000000000 + c1 * 0x1000000000000 + c2 * 0x10000000000 + c3 * 0x100000000 + c4
        * 0x1000000 + c5 * 0x10000 + c6 * 0x100 + c7) / 0x10000000000) % 0x100 == c2 && ((c0
        * 0x100000000000000 + c1 * 0x1000000000000 + c2 * 0x10000000000 + c3 * 0x100000000 + c4
        * 0x1000000 + c5 * 0x10000 + c6 * 0x100 + c7) / 0x100000000) % 0x100 == c3 && ((c0
        * 0x100000000000000 + c1 * 0x1000000000000 + c2 * 0x10000000000 + c3 * 0x100000000 + c4
        * 0x1000000 + c5 * 0x10000 + c6 * 0x100 + c7) / 0x1000000) % 0x100 == c4 && ((c0
        * 0x100000000000000 + c1 * 0x1000000000000 + c2 * 0x10000000000 + c3 * 0x100000000 + c4
        * 0x1000000 + c5 * 0x10000 + c6 * 0x100 + c7) / 0x10000) % 0x100 == c5 && ((c0
        * 0x100000000000000 + c1 * 0x1000000000000 + c2 * 0x10000000000 + c3 * 0x100000000 + c4
        * 0x1000000 + c5 * 0x10000 + c6 * 0x100 + c7) / 0x100) % 0x100 == c6 && (c0
        * 0x100000000000000 + c1 * 0x1000000000000 + c2 * 0x10000000000 + c3 * 0x100000000 + c4
        * 0x1000000 + c5 * 0x10000 + c6 * 0x100 + c7) % 0x100 == c7) by (bit_vector)
        requires
            c0 < 256,
            c1 < 256,
            c2 < 256,
            c3 < 256,
            c4 < 256,
            c5 < 256,
            c6 < 256,
            c7 < 256,
    ;
    assert(u64_be(x) =~= s);
}

/// Two proofs with the same encoding are the same proof: nothing is lost
/// in serialization.
pub proof fn lemma_proof_bytes_injective(n1: u64, s1: Seq<Seq<u8>>, n2: u64, s2: Seq<Seq<u8>>)
    requires
        s1.len() <= u64::MAX,
        s2.len() <= u64::MAX,
        forall|k: int| 0 <= k < s1.len() ==> (#[trigger] s1[k]).len() == 32,
        forall|k: int| 0 <= k < s2.len() ==> (#[trigger] s2[k]).len() == 32,
        proof_bytes(n1, s1) == proof_bytes(n2, s2),
    ensures
        n1 == n2,
        s1 == s2,
{
    let b1 = proof_bytes(n1, s1);
    let b2 = proof_bytes(n2, s2);
    lemma_flat_len(s1);
    lemma_flat_len(s2);
    assert(u64_be(n1) =~= b1.subrange(0, 8));
    assert(u64_be(n2) =~= b2.subrange(0, 8));
    lemma_u64_be_round_trip(n1);
    lemma_u64_be_round_trip(n2);
    assert(n1 as nat == be64(b1.subrange(0, 8)));
    assert(n2 as nat == be64(b2.subrange(0, 8)));
    assert(u64_be(s1.len() as u64) =~= b1.subrange(8, 16));
    assert(u64_be(s2.len() as u64) =~= b2.subrange(8, 16));
    lemma_u64_be_round_trip(s1.len() as u64);
    lemma_u64_be_round_trip(s2.len() as u64);
    assert(s1.len() == s2.len());
    assert(flat(s1) =~= b1.subrange(16, b1.len() as int));
    assert(flat(s2) =~= b2.subrange(16, b2.len() as int));
    lemma_flat_injective(s1, s2);
}

/// The digests known at the next level up, derived from this level's known
/// digests and the proof's sibling digests: paired positions hash together,
/// unpaired ones hash with the next proof node on the missing side.
pub open spec fn step_vs(ps: Seq<int>, vs: Seq<Seq<u8>>, sibs: Seq<Seq<u8>>) -> Seq<Seq<u8>>
    decreases ps.len(),
{
    if ps.len() == 0 {
        Seq::empty()
    } else if pair_at(ps) {
        seq![blake3_of(vs[0] + vs[1])] + step_vs(ps.skip(2), vs.skip(2), sibs)
    } else if ps[0] % 2 == 0 {
        seq![blake3_of(vs[0] + sibs[0])] + step_vs(ps.skip(1), vs.skip(1), sibs.skip(1))
    } else {
        seq![blake3_of(sibs[0] + vs[0])] + step_vs(ps.skip(1), vs.skip(1), sibs.skip(1))
    }
}

/// The root digest recomputed from known positions `ps` with digests `vs`,
/// consuming proof nodes `pf` level by level; `None` when the proof has too
/// few nodes for some level, leftover nodes at the root, or the positions
/// never reduce to the root alone.
pub open spec fn reconstruct(ps: Seq<int>, vs: Seq<Seq<u8>>, pf: Seq<Seq<u8>>) -> Option<Seq<u8>>
    decreases (if ps.len() > 0 && ps[0] >= 2 {
        ps[0]
    } else {
        0
    }),
{
    if ps.len() == 0 || ps[0] < 1 {
        None
    } else if ps[0] == 1 {
        if ps.len() == 1 && pf.len() == 0 {
            Some(vs[0])
        } else {
            None
        }
    } else {
        let k = sib_count(ps) as int;
        if pf.len() < k {
            None
        } else {
            reconstruct(step_ps(ps), step_vs(ps, vs, pf.take(k)), pf.skip(k))
        }
    }
}

/// Step values read only the first `sib_count(ps)` sibling digests, so any
/// two sibling sequences agreeing there give the same next level.
pub proof fn lemma_step_vs_prefix(ps: Seq<int>, vs: Seq<Seq<u8>>, s1: Seq<Seq<u8>>, s2: Seq<Seq<u8>>)
    requires
        sib_count(ps) <= s1.len(),
        sib_count(ps) <= s2.len(),
        forall|i: int| 0 <= i < sib_count(ps) ==> s1[i] == s2[i],
    ensures
        step_vs(ps, vs, s1) == step_vs(ps, vs, s2),
    decreases ps.len(),
{
    if ps.len() == 0 {
    } else if pair_at(ps) {
        lemma_step_vs_prefix(ps.skip(2), vs.skip(2), s1, s2);
    } else {
        assert(s1[0] == s2[0]);
        assert forall|i: int| 0 <= i < sib_count(ps.skip(1)) implies s1.skip(1)[i] == s2.skip(1)[i]
        by {
            assert(s1.skip(1)[i] == s1[i + 1]);
            assert(s2.skip(1)[i] == s2[i + 1]);
        }
        lemma_step_vs_prefix(ps.skip(1), vs.skip(1), s1.skip(1), s2.skip(1));
    }
}

/// The inputs alone already rule verification out: mismatched index and
/// value counts, an empty query set, or an index past the leaves.
pub open spec fn input_error(n: nat, idx: Seq<int>, vals: Seq<Seq<u8>>) -> bool {
    idx.len() != vals.len() || idx.len() == 0 || exists|k: int|
        0 <= k < idx.len() && #[trigger] idx[k] >= n
}

/// The claimed tree size supports a tree at all.
pub open spec fn tree_size_ok(n: nat) -> bool {
    is_pow2(n) && n >= 2
}

/// Every occurrence of an index comes with the same claimed leaf digest.
pub open spec fn consistent_pairs(idx: Seq<int>, vals: Seq<Seq<u8>>) -> bool {
    forall|a: int, b: int|
        0 <= a < idx.len() && 0 <= b < idx.len() && idx[a] == idx[b] ==> #[trigger] vals[a]
            == #[trigger] vals[b]
}

/// The digest claimed for index `x`: the one supplied at its first
/// occurrence (under `consistent_pairs`, at every occurrence).
pub open spec fn value_at(idx: Seq<int>, vals: Seq<Seq<u8>>, x: int) -> Seq<u8>
    recommends
        idx.contains(x),
        idx.len() == vals.len(),
{
    vals[idx.index_of(x)]
}

/// The claimed digests arranged in the canonical query order.
pub open spec fn canon_values(idx: Seq<int>, vals: Seq<Seq<u8>>) -> Seq<Seq<u8>> {
    canon(idx).map_values(|x: int| value_at(idx, vals, x))
}

/// Checks a batch proof: reconstructs, level by level, the digests at
/// every position the query set touches, combining supplied leaf digests
/// with proof nodes, up to the root, and compares against `root`.
///
/// A failed verification is the expected adversarial outcome and comes
/// back as `Ok(false)`; an error is returned only for malformed input:
/// mismatched lengths, an empty query set, an index out of range, or a
/// proof whose node count cannot reconstruct the root.
#[verifier::loop_isolation(false)]
#[verifier::rlimit(100)]
pub fn verify_batch(
    root: &Digest,
    indices: &Vec<usize>,
    leaf_values: &Vec<Digest>,
    proof: &BatchProof,
) -> (r: Result<bool, Error>)
    ensures
        ({
            let n = proof.leaf_count as nat;
            let idx = idxs_of(indices@);
            let vals = digests_of(leaf_values@);
            let rec = reconstruct(
                leaf_positions(n as int, canon(idx)),
                canon_values(idx, vals),
                digests_of(proof.nodes@),
            );
            match r {
                Err(e) => {
                    &&& (e == Error::IndexOutOfRange || e == Error::MalformedProof)
                    &&& (e == Error::IndexOutOfRange <==> input_error(n, idx, vals))
                    &&& (e == Error::MalformedProof ==> !input_error(n, idx, vals) && (
                    !tree_size_ok(n) || (consistent_pairs(idx, vals) && rec is None)))
                },
                Ok(b) => {
                    &&& !input_error(n, idx, vals)
                    &&& tree_size_ok(n)
                    &&& (!consistent_pairs(idx, vals) ==> b == false)
                    &&& (consistent_pairs(idx, vals) ==> rec is Some && b == (rec == Some(
                        root@,
                    )))
                },
            }
        }),
{
    let n = proof.leaf_count;
    let ghost idx = idxs_of(indices@);
    let ghost vals = digests_of(leaf_values@);
    if indices.len() != leaf_values.len() || indices.len() == 0 {
        return Err(Error::IndexOutOfRange);
    }
    let mut i: usize = 0;
    while i < indices.len()
        invariant
            i <= indices@.len(),
            forall|k: int| 0 <= k < i ==> (#[trigger] indices@[k]) < n,
        decreases indices@.len() - i,
    {
        if indices[i] >= n {
            proof {
                assert(idx[i as int] >= n as nat);
            }
            return Err(Error::IndexOutOfRange);
        }
        i = i + 1;
    }
    proof {
        assert(!input_error(n as nat, idx, vals));
    }
    if n < 2 || !check_pow2(n) {
        return Err(Error::MalformedProof);
    }
    proof {
        lemma_pow2_usize_bound(n);
        lemma_canon_props(idx);
    }
    // Pair the queried indices with their claimed digests, sorted by index
    // with duplicates collapsed; conflicting duplicates fail verification.
    let mut sidx: Vec<usize> = Vec::new();
    let mut sval: Vec<Digest> = Vec::new();
    let mut i: usize = 0;
    proof {
        assert(idxs_of(indices@.take(0)) =~= Seq::<int>::empty());
        assert(idxs_of(sidx@) =~= canon(idxs_of(indices@.take(0))));
    }
    while i < indices.len()
        invariant
            i <= indices@.len(),
            idxs_of(sidx@) == canon(idxs_of(indices@.take(i as int))),
            crate::merkle::sorted_strict(idxs_of(sidx@)),
            sval@.len() == sidx@.len(),
            forall|j: int, a: int|
                0 <= j < sidx@.len() && 0 <= a < i && indices@[a] as int == (
                #[trigger] sidx@[j]) as int ==> (#[trigger] leaf_values@[a])@ == sval@[j]@,
        decreases indices@.len() - i,
    {
        let x = indices[i];
        let v = leaf_values[i];
        let ghost prev = idxs_of(sidx@);
        let mut j: usize = 0;
        while j < sidx.len() && sidx[j] < x
            invariant
                j <= sidx@.len(),
                forall|k: int| 0 <= k < j ==> prev[k] < x as int,
            decreases sidx@.len() - j,
        {
            proof {
                assert(prev[j as int] == sidx@[j as int] as int);
            }
            j = j + 1;
        }
        proof {
            assert(j < sidx@.len() ==> prev[j as int] >= x as int);
            crate::merkle::lemma_insert_sorted_at(prev, x as int, j as int);
        }
        if j < sidx.len() && sidx[j] == x {
            if !digest_eq(&sval[j], &v) {
                proof {
                    let pre = idxs_of(indices@.take(i as int));
                    lemma_canon_props(pre);
                    assert(canon(pre)[j as int] == x as int);
                    assert(canon(pre).contains(x as int));
                    let a = pre.lemma_contains_to_index(x as int);
                    assert(pre[a] == indices@[a] as int);
                    assert(indices@[a] as int == sidx@[j as int] as int);
                    assert(leaf_values@[a]@ == sval@[j as int]@);
                    assert(idx[a] == idx[i as int]);
                    assert(vals[a] != vals[i as int]);
                    assert(!consistent_pairs(idx, vals));
                }
                return Ok(false);
            }
            proof {
                assert forall|jj: int, a: int|
                    0 <= jj < sidx@.len() && 0 <= a < i + 1 && indices@[a] as int == (
                    #[trigger] sidx@[jj]) as int implies (#[trigger] leaf_values@[a])@
                    == sval@[jj]@ by {
                    if a == i as int {
                        assert(indices@[a] as int == x as int);
                        assert(prev[jj] == sidx@[jj] as int);
                        assert(prev[j as int] == sidx@[j as int] as int);
                        assert(prev[jj] == x as int);
                        assert(prev[j as int] == x as int);
                        if jj < j as int {
                            assert(prev[jj] < prev[j as int]);
                        }
                        if (j as int) < jj {
                            assert(prev[j as int] < prev[jj]);
                        }
                        assert(jj == j as int);
                        assert(sval@[j as int]@ == v@);
                    } else {
                        assert(0 <= a < i);
                    }
                }
            }
        } else {
            let ghost psidx = sidx@;
            let ghost psval = sval@;
            sidx.insert(j, x);
            sval.insert(j, v);
            proof {
                assert(idxs_of(sidx@) =~= prev.insert(j as int, x as int));
                assert forall|jj: int, a: int|
                    0 <= jj < sidx@.len() && 0 <= a < i + 1 && indices@[a] as int == (
                    #[trigger] sidx@[jj]) as int implies (#[trigger] leaf_values@[a])@
                    == sval@[jj]@ by {
                    psidx.insert_ensures(j as int, x);
                    psval.insert_ensures(j as int, v);
                    if jj < j as int {
                        assert(sidx@[jj] == psidx[jj]);
                        assert(sval@[jj] == psval[jj]);
                        assert(prev[jj] == psidx[jj] as int);
                        if a == i as int {
                            assert(prev[jj] < x as int);
                            assert(false);
                        }
                    } else if jj == j as int {
                        assert(sidx@[jj] == x);
                        assert(sval@[jj] == v);
                        if a < i {
                            let pre = idxs_of(indices@.take(i as int));
                            lemma_canon_props(pre);
                            assert(pre[a] == indices@[a] as int);
                            assert(pre[a] == x as int);
                            assert(pre.contains(x as int));
                            assert(canon(pre).contains(x as int));
                            let jx = prev.lemma_contains_to_index(x as int);
                            if jx < j as int {
                                assert(prev[jx] < x as int);
                            }
                            if (j as int) < jx {
                                assert(prev[j as int] < prev[jx]);
                            }
                            assert(false);
                        }
                    } else {
                        assert(sidx@[jj] == psidx[jj - 1]);
                        assert(sval@[jj] == psval[jj - 1]);
                        assert(prev[jj - 1] == psidx[jj - 1] as int);
                        if a == i as int {
                            assert(jj <= psidx.len());
                            assert(j as int <= jj - 1 < psidx.len());
                            assert(prev[j as int] == psidx[j as int] as int);
                            assert(prev[j as int] >= x as int);
                            assert(psidx[j as int] != x);
                            if (j as int) < jj - 1 {
                                assert(prev[j as int] < prev[jj - 1]);
                            }
                            assert(prev[jj - 1] > x as int);
                            assert(prev[jj - 1] == x as int);
                            assert(false);
                        }
                    }
                }
            }
        }
        proof {
            let t = idxs_of(indices@.take(i as int + 1));
            assert(t.drop_last() =~= idxs_of(indices@.take(i as int)));
            assert(t.last() == x as int);
            assert(canon(t) == crate::merkle::insert_sorted(
                canon(idxs_of(indices@.take(i as int))),
                x as int,
            ));
            crate::merkle::lemma_insert_sorted_props(prev, x as int);
        }
        i = i + 1;
    }
    proof {
        assert(indices@.take(indices@.len() as int) =~= indices@);
    }
    let ghost cu = canon(idx);
    proof {
        assert(idxs_of(sidx@) == cu);
        assert forall|a: int, b: int|
            0 <= a < idx.len() && 0 <= b < idx.len() && idx[a] == idx[b] implies #[trigger] vals[a]
            == #[trigger] vals[b] by {
            assert(idx.contains(idx[a]));
            assert(cu.contains(idx[a]));
            let j = cu.lemma_contains_to_index(idx[a]);
            assert(indices@[a] as int == sidx@[j] as int);
            assert(indices@[b] as int == sidx@[j] as int);
        }
        assert(consistent_pairs(idx, vals));
        assert forall|k: int| 0 <= k < cu.len() implies (#[trigger] digests_of(sval@)[k])
            == canon_values(idx, vals)[k] by {
            assert(cu.contains(cu[k]));
            let a0 = idx.index_of(cu[k]);
            assert(idx.contains(cu[k]));
            assert(0 <= a0 < idx.len() && idx[a0] == cu[k]);
            assert(indices@[a0] as int == sidx@[k] as int);
            assert(leaf_values@[a0]@ == sval@[k]@);
        }
        assert(digests_of(sval@) =~= canon_values(idx, vals));
        assert forall|k: int| 0 <= k < sidx@.len() implies (#[trigger] sidx@[k]) < n by {
            assert(cu[k] == sidx@[k] as int);
            assert(cu.contains(cu[k]));
            let a = idx.lemma_contains_to_index(cu[k]);
            assert(indices@[a] < n);
        }
    }
    // Shift indices to leaf positions and walk the levels up to the root.
    let mut cur: Vec<usize> = Vec::new();
    let mut vcur: Vec<Digest> = Vec::new();
    let mut k: usize = 0;
    while k < sidx.len()
        invariant
            k <= sidx@.len(),
            cur@.len() == k,
            vcur@.len() == k,
            forall|j: int| 0 <= j < k ==> (#[trigger] cur@[j]) == n + sidx@[j],
            forall|j: int| 0 <= j < k ==> (#[trigger] vcur@[j]) == sval@[j],
        decreases sidx@.len() - k,
    {
        cur.push(n + sidx[k]);
        vcur.push(sval[k]);
        k = k + 1;
    }
    let ghost ps0 = leaf_positions(n as int, cu);
    let ghost vs0 = canon_values(idx, vals);
    let ghost pf = digests_of(proof.nodes@);
    proof {
        assert(idxs_of(cur@) =~= ps0);
        assert(digests_of(vcur@) =~= vs0);
        assert(pf.skip(0) =~= pf);
        assert(cu.len() >= 1);
    }
    let mut pi: usize = 0;
    let ghost mut m: nat = n as nat;
    while cur[0] >= 2
        invariant
            cur@.len() >= 1,
            vcur@.len() == cur@.len(),
            is_pow2(m),
            1 <= m <= n as nat,
            forall|j: int| 0 <= j < cur@.len() ==> m <= (#[trigger] cur@[j] as nat) < 2 * m,
            pi <= proof.nodes@.len(),
            reconstruct(idxs_of(cur@), digests_of(vcur@), pf.skip(pi as int)) == reconstruct(
                ps0,
                vs0,
                pf,
            ),
        decreases m,
    {
        proof {
            assert(m >= 2);
        }
        let ghost cur_s = idxs_of(cur@);
        let ghost vals_s = digests_of(vcur@);
        let ghost pi0 = pi as int;
        let mut next: Vec<usize> = Vec::new();
        let mut nval: Vec<Digest> = Vec::new();
        let mut i: usize = 0;
        proof {
            assert(cur_s.skip(0) =~= cur_s);
            assert(vals_s.skip(0) =~= vals_s);
            assert(idxs_of(next@) + step_ps(cur_s) =~= step_ps(cur_s));
            assert(digests_of(nval@) + step_vs(cur_s, vals_s, pf.skip(pi0)) =~= step_vs(
                cur_s,
                vals_s,
                pf.skip(pi0),
            ));
        }
        while i < cur.len()
            invariant
                i <= cur@.len(),
                i >= 1 ==> next@.len() >= 1,
                nval@.len() == next@.len(),
                pi0 <= pi <= proof.nodes@.len(),
                forall|j: int| 0 <= j < next@.len() ==> m / 2 <= (#[trigger] next@[j] as nat) < m,
                sib_count(cur_s.skip(i as int)) + pi - pi0 == sib_count(cur_s),
                idxs_of(next@) + step_ps(cur_s.skip(i as int)) == step_ps(cur_s),
                digests_of(nval@) + step_vs(
                    cur_s.skip(i as int),
                    vals_s.skip(i as int),
                    pf.skip(pi as int),
                ) == step_vs(cur_s, vals_s, pf.skip(pi0)),
            decreases cur@.len() - i,
        {
            let p = cur[i];
            let ghost tail = cur_s.skip(i as int);
            let ghost vtail = vals_s.skip(i as int);
            proof {
                assert(tail[0] == p as int);
                assert(vtail[0] == vcur@[i as int]@);
            }
            if p % 2 == 0 && i + 1 < cur.len() && cur[i + 1] == p + 1 {
                proof {
                    assert(tail[1] == cur_s[i as int + 1]);
                    assert(pair_at(tail));
                    assert(vtail[1] == vals_s[i as int + 1]);
                    assert(tail.skip(2) =~= cur_s.skip(i as int + 2));
                    assert(vtail.skip(2) =~= vals_s.skip(i as int + 2));
                }
                let parent = hash_pair(&vcur[i], &vcur[i + 1]);
                proof {
                    assert(idxs_of(next@.push(p / 2)) =~= idxs_of(next@) + seq![(p / 2) as int]);
                    crate::lemma_seq_add_assoc(
                        idxs_of(next@),
                        seq![(p / 2) as int],
                        step_ps(cur_s.skip(i as int + 2)),
                    );
                    assert(seq![(p / 2) as int] + step_ps(cur_s.skip(i as int + 2)) == step_ps(
                        tail,
                    ));
                    assert(digests_of(nval@.push(parent)) =~= digests_of(nval@) + seq![parent@]);
                    crate::lemma_seq_add_assoc(
                        digests_of(nval@),
                        seq![parent@],
                        step_vs(
                            cur_s.skip(i as int + 2),
                            vals_s.skip(i as int + 2),
                            pf.skip(pi as int),
                        ),
                    );
                    assert(seq![blake3_of(vtail[0] + vtail[1])] + step_vs(
                        cur_s.skip(i as int + 2),
                        vals_s.skip(i as int + 2),
                        pf.skip(pi as int),
                    ) == step_vs(tail, vtail, pf.skip(pi as int)));
                }
                next.push(p / 2);
                nval.push(parent);
                i = i + 2;
            } else {
                proof {
                    assert(!pair_at(tail));
                    assert(tail.skip(1) =~= cur_s.skip(i as int + 1));
                    assert(sib_count(tail) == 1 + sib_count(cur_s.skip(i as int + 1)));
                }
                if pi >= proof.nodes.len() {
                    proof {
                        assert(pf.skip(pi0).len() < sib_count(cur_s));
                        assert(reconstruct(cur_s, vals_s, pf.skip(pi0)) is None);
                    }
                    return Err(Error::MalformedProof);
                }
                let sd = proof.nodes[pi];
                let parent = if p % 2 == 0 {
                    hash_pair(&vcur[i], &sd)
                } else {
                    hash_pair(&sd, &vcur[i])
                };
                proof {
                    assert(pf.skip(pi as int)[0] == pf[pi as int]);
                    assert(pf[pi as int] == sd@);
                    assert(tail.skip(1) =~= cur_s.skip(i as int + 1));
                    assert(vtail.skip(1) =~= vals_s.skip(i as int + 1));
                    assert(pf.skip(pi as int).skip(1) =~= pf.skip(pi as int + 1));
                    assert(idxs_of(next@.push(p / 2)) =~= idxs_of(next@) + seq![(p / 2) as int]);
                    crate::lemma_seq_add_assoc(
                        idxs_of(next@),
                        seq![(p / 2) as int],
                        step_ps(cur_s.skip(i as int + 1)),
                    );
                    assert(seq![(p / 2) as int] + step_ps(cur_s.skip(i as int + 1)) == step_ps(
                        tail,
                    ));
                    assert(digests_of(nval@.push(parent)) =~= digests_of(nval@) + seq![parent@]);
                    crate::lemma_seq_add_assoc(
                        digests_of(nval@),
                        seq![parent@],
                        step_vs(
                            cur_s.skip(i as int + 1),
                            vals_s.skip(i as int + 1),
                            pf.skip(pi as int + 1),
                        ),
                    );
                    if p % 2 == 0 {
                        assert(seq![blake3_of(vtail[0] + pf.skip(pi as int)[0])] + step_vs(
                            cur_s.skip(i as int + 1),
                            vals_s.skip(i as int + 1),
                            pf.skip(pi as int + 1),
                        ) == step_vs(tail, vtail, pf.skip(pi as int)));
                    } else {
                        assert(seq![blake3_of(pf.skip(pi as int)[0] + vtail[0])] + step_vs(
                            cur_s.skip(i as int + 1),
                            vals_s.skip(i as int + 1),
                            pf.skip(pi as int + 1),
                        ) == step_vs(tail, vtail, pf.skip(pi as int)));
                    }
                }
                next.push(p / 2);
                nval.push(parent);
                pi = pi + 1;
                i = i + 1;
            }
        }
        proof {
            let k_tot = sib_count(cur_s) as int;
            assert(cur_s.skip(cur_s.len() as int) =~= Seq::<int>::empty());
            assert(vals_s.skip(cur_s.len() as int) =~= Seq::<Seq<u8>>::empty());
            assert(sib_count(cur_s.skip(cur_s.len() as int)) == 0);
            assert(pi - pi0 == k_tot);
            assert(idxs_of(next@) + Seq::<int>::empty() =~= idxs_of(next@));
            assert(digests_of(nval@) + Seq::<Seq<u8>>::empty() =~= digests_of(nval@));
            assert(step_vs(
                cur_s.skip(cur_s.len() as int),
                vals_s.skip(cur_s.len() as int),
                pf.skip(pi as int),
            ) =~= Seq::<Seq<u8>>::empty());
            assert(idxs_of(next@) == step_ps(cur_s));
            assert(digests_of(nval@) == step_vs(cur_s, vals_s, pf.skip(pi0)));
            assert forall|ii: int| 0 <= ii < k_tot implies (#[trigger] pf.skip(pi0).take(k_tot)[ii])
                == pf.skip(pi0)[ii] by {}
            lemma_step_vs_prefix(cur_s, vals_s, pf.skip(pi0).take(k_tot), pf.skip(pi0));
            assert(pf.skip(pi0).skip(k_tot) =~= pf.skip(pi as int));
            assert(reconstruct(cur_s, vals_s, pf.skip(pi0)) == reconstruct(
                step_ps(cur_s),
                step_vs(cur_s, vals_s, pf.skip(pi0).take(k_tot)),
                pf.skip(pi0).skip(k_tot),
            ));
            crate::lemma_pow2_halves(m);
            m = m / 2;
        }
        cur = next;
        vcur = nval;
    }
    proof {
        assert(cur@[0] as nat >= m);
        assert(idxs_of(cur@)[0] == cur@[0] as int);
        assert(idxs_of(cur@)[0] == 1);
    }
    if cur.len() == 1 && pi == proof.nodes.len() {
        proof {
            assert(pf.skip(pi as int) =~= Seq::<Seq<u8>>::empty());
            assert(reconstruct(idxs_of(cur@), digests_of(vcur@), pf.skip(pi as int)) == Some(
                digests_of(vcur@)[0],
            ));
        }
        Ok(digest_eq(&vcur[0], root))
    } else {
        proof {
            assert(reconstruct(idxs_of(cur@), digests_of(vcur@), pf.skip(pi as int)) is None);
        }
        Err(Error::MalformedProof)
    }
}

/// The byte string has the shape of a proof encoding: a leaf count that
/// fits the platform, and a node count matching the remaining length.
pub open spec fn parse_ok(bytes: Seq<u8>) -> bool {
    &&& bytes.len() >= 16
    &&& (bytes.len() - 16) % 32 == 0
    &&& be64(bytes.subrange(8, 16)) == ((bytes.len() - 16) / 32) as nat
    &&& be64(bytes.subrange(0, 8)) <= usize::MAX as nat
}

/// Every proof a prover can hand out encodes to a parseable byte string.
pub proof fn lemma_proof_bytes_parse_ok(n: u64, nodes: Seq<Seq<u8>>)
    requires
        n <= usize::MAX as u64,
        nodes.len() <= u64::MAX,
        forall|k: int| 0 <= k < nodes.len() ==> (#[trigger] nodes[k]).len() == 32,
    ensures
        parse_ok(proof_bytes(n, nodes)),
{
    let b = proof_bytes(n, nodes);
    lemma_flat_len(nodes);
    assert(b.len() == 16 + 32 * nodes.len());
    vstd::arithmetic::div_mod::lemma_mod_multiples_basic(nodes.len() as int, 32);
    vstd::arithmetic::div_mod::lemma_div_by_multiple(nodes.len() as int, 32);
    assert(u64_be(n) =~= b.subrange(0, 8));
    assert(u64_be(nodes.len() as u64) =~= b.subrange(8, 16));
    lemma_u64_be_round_trip(n);
    lemma_u64_be_round_trip(nodes.len() as u64);
}

impl BatchProof {
    /// Serializes the proof to bytes, preserving the exact node set and
    /// order used for root reconstruction.
    pub fn to_bytes(&self) -> (r: Vec<u8>)
        ensures
            r@ == proof_bytes(self.leaf_count as u64, digests_of(self.nodes@)),
    {
        let mut buf: Vec<u8> = Vec::new();
        push_u64_be(&mut buf, self.leaf_count as u64);
        push_u64_be(&mut buf, self.nodes.len() as u64);
        let ghost hdr = u64_be(self.leaf_count as u64) + u64_be(self.nodes@.len() as u64);
        proof {
            assert(flat(digests_of(self.nodes@.take(0))) =~= Seq::<u8>::empty());
            assert(buf@ =~= hdr + flat(digests_of(self.nodes@.take(0))));
        }
        let mut i: usize = 0;
        while i < self.nodes.len()
            invariant
                i <= self.nodes@.len(),
                hdr == u64_be(self.leaf_count as u64) + u64_be(self.nodes@.len() as u64),
                buf@ == hdr + flat(digests_of(self.nodes@.take(i as int))),
            decreases self.nodes@.len() - i,
        {
            push_digest_bytes(&mut buf, &self.nodes[i]);
            proof {
                assert(digests_of(self.nodes@.take(i as int + 1)) =~= digests_of(
                    self.nodes@.take(i as int),
                ).push(self.nodes@[i as int]@));
                lemma_flat_snoc(digests_of(self.nodes@.take(i as int)), self.nodes@[i as int]@);
                lemma_seq_add_assoc(
                    hdr,
                    flat(digests_of(self.nodes@.take(i as int))),
                    self.nodes@[i as int]@,
                );
            }
            i = i + 1;
        }
        proof {
            assert(self.nodes@.take(self.nodes@.len() as int) =~= self.nodes@);
        }
        buf
    }

    /// Deserializes a proof from bytes; fails with `MalformedProof` on any
    /// byte string that no proof encodes to. Together with the injectivity
    /// of the encoding, a proof survives the round trip unchanged.
    #[verifier::loop_isolation(false)]
    pub fn from_bytes(bytes: &Vec<u8>) -> (r: Result<BatchProof, Error>)
        ensures
            match r {
                Ok(p) => {
                    &&& parse_ok(bytes@)
                    &&& p.leaf_count as nat == be64(bytes@.subrange(0, 8))
                    &&& bytes@ == proof_bytes(p.leaf_count as u64, digests_of(p.nodes@))
                },
                Err(e) => {
                    &&& e == Error::MalformedProof
                    &&& !parse_ok(bytes@)
                },
            },
    {
        if bytes.len() < 16 {
            return Err(Error::MalformedProof);
        }
        if (bytes.len() - 16) % 32 != 0 {
            return Err(Error::MalformedProof);
        }
        let cnt: usize = (bytes.len() - 16) / 32;
        let n64 = read_u64_be(bytes.as_slice(), 0);
        let cnt64 = read_u64_be(bytes.as_slice(), 8);
        if cnt64 != cnt as u64 {
            return Err(Error::MalformedProof);
        }
        if n64 > usize::MAX as u64 {
            return Err(Error::MalformedProof);
        }
        let mut nodes: Vec<Digest> = Vec::new();
        let mut i: usize = 0;
        while i < cnt
            invariant
                i <= cnt,
                nodes@.len() == i,
                forall|k: int|
                    0 <= k < i ==> (#[trigger] nodes@[k])@ == bytes@.subrange(
                        16 + 32 * k,
                        16 + 32 * k + 32,
                    ),
            decreases cnt - i,
        {
            proof {
                assert(32 * (i as int + 1) <= 32 * (cnt as int));
            }
            let base: usize = 16 + 32 * i;
            let mut arr: [u8; 32] = [0u8; 32];
            let mut j: usize = 0;
            while j < 32
                invariant
                    j <= 32,
                    base == 16 + 32 * i,
                    forall|t: int| 0 <= t < j ==> arr@[t] == bytes@[base + t],
                decreases 32 - j,
            {
                arr[j] = bytes[base + j];
                j = j + 1;
            }
            let d = Digest::new(arr);
            proof {
                assert(d@ =~= bytes@.subrange(16 + 32 * (i as int), 16 + 32 * (i as int) + 32));
            }
            nodes.push(d);
            i = i + 1;
        }
        let p = BatchProof { leaf_count: n64 as usize, nodes };
        proof {
            let b = bytes@;
            lemma_u64_be_of_be64(b.subrange(0, 8));
            lemma_u64_be_of_be64(b.subrange(8, 16));
            assert(n64 as nat == be64(b.subrange(0, 8)));
            assert(u64_be(n64) == b.subrange(0, 8));
            assert(p.nodes@.len() == cnt);
            assert(cnt64 as nat == be64(b.subrange(8, 16)));
            assert(u64_be(p.nodes@.len() as u64) == b.subrange(8, 16));
            assert forall|k: int| 0 <= k < cnt implies (#[trigger] digests_of(p.nodes@)[k])
                == b.subrange(16 + 32 * k, 16 + 32 * k + 32) by {}
            lemma_flat_windows(digests_of(p.nodes@), b, 16);
            assert(b =~= b.subrange(0, 8) + b.subrange(8, 16) + b.subrange(16, b.len() as int));
            assert(p.leaf_count as u64 == n64);
        }
        Ok(p)
    }
}

} // verus!
