use vstd::prelude::*;

use crate::batch::{
    canon_values, consistent_pairs, lemma_step_vs_prefix, reconstruct, step_vs, value_at,
};
use crate::coin::{batch_seq, chunk_draw, reseed_state, sample};
use crate::hasher::blake3_of;
use crate::merkle::{
    canon, idxs_of, leaf_positions, lemma_canon_props, lemma_canon_same_set, level_sibs, node_val,
    pair_at, proof_nodes, sib, sib_count, sorted_strict, step_ps,
};
use crate::{is_pow2, lemma_pow2_halves};

verus! {

/// The tree's digests at a sequence of positions.
pub open spec fn node_vals(leaves: Seq<Seq<u8>>, ps: Seq<int>) -> Seq<Seq<u8>> {
    ps.map_values(|p: int| node_val(leaves, p))
}

/// A level contributes exactly `sib_count` digests to the proof.
pub proof fn lemma_level_sibs_len(leaves: Seq<Seq<u8>>, ps: Seq<int>)
    ensures
        level_sibs(leaves, ps).len() == sib_count(ps),
    decreases ps.len(),
{
    if ps.len() == 0 {
    } else if pair_at(ps) {
        lemma_level_sibs_len(leaves, ps.skip(2));
    } else {
        lemma_level_sibs_len(leaves, ps.skip(1));
    }
}

/// One level of reconstruction is exact: for sorted known positions within
/// one tree level, combining their true digests with the level's proof
/// digests yields precisely the true digests of the parents, which are
/// again sorted within the next level up.
pub proof fn lemma_level_correct(leaves: Seq<Seq<u8>>, ps: Seq<int>, m: nat)
    requires
        sorted_strict(ps),
        ps.len() >= 1,
        m >= 2,
        m % 2 == 0,
        m <= leaves.len(),
        forall|k: int| 0 <= k < ps.len() ==> m <= (#[trigger] ps[k]) < 2 * m,
    ensures
        step_ps(ps).len() >= 1,
        sorted_strict(step_ps(ps)),
        step_ps(ps)[0] == ps[0] / 2,
        forall|k: int| 0 <= k < step_ps(ps).len() ==> m / 2 <= (#[trigger] step_ps(ps)[k]) < m,
        step_vs(ps, node_vals(leaves, ps), level_sibs(leaves, ps)) == node_vals(
            leaves,
            step_ps(ps),
        ),
    decreases ps.len(),
{
    let p = ps[0];
    let vs = node_vals(leaves, ps);
    let sibs = level_sibs(leaves, ps);
    assert(1 <= p / 2 < leaves.len());
    if pair_at(ps) {
        let rest = ps.skip(2);
        assert(vs.skip(2) =~= node_vals(leaves, rest));
        assert(vs[0] == node_val(leaves, p) && vs[1] == node_val(leaves, p + 1));
        assert(blake3_of(node_val(leaves, 2 * (p / 2)) + node_val(leaves, 2 * (p / 2) + 1))
            == node_val(leaves, p / 2));
        assert(2 * (p / 2) == p);
        if rest.len() == 0 {
            assert(step_ps(rest) =~= Seq::<int>::empty());
            assert(step_vs(rest, vs.skip(2), sibs) =~= Seq::<Seq<u8>>::empty());
            assert(step_vs(ps, vs, sibs) =~= seq![node_val(leaves, p / 2)]);
            assert(node_vals(leaves, step_ps(ps)) =~= seq![node_val(leaves, p / 2)]);
        } else {
            assert forall|k: int| 0 <= k < rest.len() implies m <= (#[trigger] rest[k]) < 2 * m
            by {
                assert(rest[k] == ps[k + 2]);
            }
            assert(sorted_strict(rest));
            lemma_level_correct(leaves, rest, m);
            assert(rest[0] == ps[2]);
            assert(ps[2] >= p + 2);
            assert(ps[2] / 2 >= p / 2 + 1);
            assert forall|i: int, j: int|
                0 <= i < j < step_ps(ps).len() implies step_ps(ps)[i] < step_ps(ps)[j] by {
                if i == 0 {
                    assert(step_ps(ps)[j] == step_ps(rest)[j - 1]);
                    if j - 1 > 0 {
                        assert(step_ps(rest)[0] < step_ps(rest)[j - 1]);
                    }
                } else {
                    assert(step_ps(ps)[i] == step_ps(rest)[i - 1]);
                    assert(step_ps(ps)[j] == step_ps(rest)[j - 1]);
                }
            }
            assert(step_vs(ps, vs, sibs) == seq![node_val(leaves, p / 2)] + step_vs(
                rest,
                node_vals(leaves, rest),
                level_sibs(leaves, rest),
            ));
            assert(node_vals(leaves, step_ps(ps)) =~= seq![node_val(leaves, p / 2)] + node_vals(
                leaves,
                step_ps(rest),
            ));
        }
    } else {
        let rest = ps.skip(1);
        let s = sib(p);
        assert(m <= s < 2 * m);
        assert(vs.skip(1) =~= node_vals(leaves, rest));
        assert(sibs[0] == node_val(leaves, s));
        assert(sibs.skip(1) =~= level_sibs(leaves, rest));
        if p % 2 == 0 {
            assert(2 * (p / 2) == p);
            assert(blake3_of(vs[0] + sibs[0]) == node_val(leaves, p / 2));
        } else {
            assert(2 * (p / 2) == p - 1);
            assert(blake3_of(sibs[0] + vs[0]) == node_val(leaves, p / 2));
        }
        if rest.len() == 0 {
            assert(step_ps(rest) =~= Seq::<int>::empty());
            assert(step_vs(rest, vs.skip(1), sibs.skip(1)) =~= Seq::<Seq<u8>>::empty());
            assert(step_vs(ps, vs, sibs) =~= seq![node_val(leaves, p / 2)]);
            assert(node_vals(leaves, step_ps(ps)) =~= seq![node_val(leaves, p / 2)]);
        } else {
            assert forall|k: int| 0 <= k < rest.len() implies m <= (#[trigger] rest[k]) < 2 * m
            by {
                assert(rest[k] == ps[k + 1]);
            }
            assert(sorted_strict(rest));
            lemma_level_correct(leaves, rest, m);
            assert(rest[0] == ps[1]);
            if p % 2 == 0 {
                assert(ps[1] != p + 1);
                assert(ps[1] >= p + 2);
                assert(ps[1] / 2 >= p / 2 + 1);
            } else {
                assert(ps[1] >= p + 1);
                assert(ps[1] / 2 >= p / 2 + 1);
            }
            assert forall|i: int, j: int|
                0 <= i < j < step_ps(ps).len() implies step_ps(ps)[i] < step_ps(ps)[j] by {
                if i == 0 {
                    assert(step_ps(ps)[j] == step_ps(rest)[j - 1]);
                    if j - 1 > 0 {
                        assert(step_ps(rest)[0] < step_ps(rest)[j - 1]);
                    }
                } else {
                    assert(step_ps(ps)[i] == step_ps(rest)[i - 1]);
                    assert(step_ps(ps)[j] == step_ps(rest)[j - 1]);
                }
            }
            assert(step_vs(ps, vs, sibs) == seq![node_val(leaves, p / 2)] + step_vs(
                rest,
                node_vals(leaves, rest),
                level_sibs(leaves, rest),
            ));
            assert(node_vals(leaves, step_ps(ps)) =~= seq![node_val(leaves, p / 2)] + node_vals(
                leaves,
                step_ps(rest),
            ));
        }
    }
}

/// Reconstruction from any sorted set of true digests within one level,
/// with the proof nodes generated for exactly those positions, reaches the
/// root digest.
pub proof fn lemma_reconstruct_roundtrip(leaves: Seq<Seq<u8>>, ps: Seq<int>, m: nat)
    requires
        is_pow2(leaves.len()),
        leaves.len() >= 2,
        is_pow2(m),
        1 <= m <= leaves.len(),
        sorted_strict(ps),
        ps.len() >= 1,
        forall|k: int| 0 <= k < ps.len() ==> m <= (#[trigger] ps[k]) < 2 * m,
    ensures
        reconstruct(ps, node_vals(leaves, ps), proof_nodes(leaves, ps)) == Some(
            node_val(leaves, 1),
        ),
    decreases m,
{
    if m == 1 {
        assert(ps[0] == 1);
        if ps.len() >= 2 {
            assert(ps[0] < ps[1]);
            assert(false);
        }
        assert(proof_nodes(leaves, ps) =~= Seq::<Seq<u8>>::empty());
        assert(node_vals(leaves, ps)[0] == node_val(leaves, 1));
    } else {
        lemma_pow2_halves(m);
        lemma_level_correct(leaves, ps, m);
        lemma_level_sibs_len(leaves, ps);
        let k = sib_count(ps) as int;
        let pf = proof_nodes(leaves, ps);
        assert(ps[0] >= 2);
        assert(pf == level_sibs(leaves, ps) + proof_nodes(leaves, step_ps(ps)));
        assert(pf.take(k) =~= level_sibs(leaves, ps));
        assert(pf.skip(k) =~= proof_nodes(leaves, step_ps(ps)));
        lemma_step_vs_prefix(ps, node_vals(leaves, ps), pf.take(k), level_sibs(leaves, ps));
        assert(reconstruct(ps, node_vals(leaves, ps), pf) == reconstruct(
            step_ps(ps),
            node_vals(leaves, step_ps(ps)),
            proof_nodes(leaves, step_ps(ps)),
        ));
        lemma_reconstruct_roundtrip(leaves, step_ps(ps), m / 2);
    }
}

/// Round trip: for any power-of-two leaf sequence and any valid query set,
/// the claimed digests taken honestly from the leaves, combined with the
/// batch proof generated for that same query set, reconstruct exactly the
/// tree's root, so verification succeeds.
pub proof fn lemma_round_trip(leaves: Seq<Seq<u8>>, idx: Seq<int>, vals: Seq<Seq<u8>>)
    requires
        is_pow2(leaves.len()),
        leaves.len() >= 2,
        idx.len() >= 1,
        idx.len() == vals.len(),
        forall|k: int| 0 <= k < idx.len() ==> 0 <= #[trigger] idx[k] < leaves.len(),
        forall|k: int| 0 <= k < idx.len() ==> (#[trigger] vals[k]) == leaves[idx[k]],
    ensures
        consistent_pairs(idx, vals),
        reconstruct(
            leaf_positions(leaves.len() as int, canon(idx)),
            canon_values(idx, vals),
            proof_nodes(leaves, leaf_positions(leaves.len() as int, canon(idx))),
        ) == Some(node_val(leaves, 1)),
{
    let n = leaves.len() as int;
    let u = canon(idx);
    let ps = leaf_positions(n, u);
    lemma_canon_props(idx);
    assert forall|k: int| 0 <= k < u.len() implies 0 <= #[trigger] u[k] < n by {
        assert(u.contains(u[k]));
        let a = idx.lemma_contains_to_index(u[k]);
    }
    assert(ps.len() == u.len() >= 1);
    assert forall|i: int, j: int| 0 <= i < j < ps.len() implies ps[i] < ps[j] by {
        assert(ps[i] == u[i] + n && ps[j] == u[j] + n);
    }
    assert(sorted_strict(ps));
    assert forall|k: int| 0 <= k < ps.len() implies n <= (#[trigger] ps[k]) < 2 * n by {
        assert(ps[k] == u[k] + n);
    }
    assert forall|k: int| 0 <= k < u.len() implies (#[trigger] canon_values(idx, vals)[k])
        == node_vals(leaves, ps)[k] by {
        assert(u.contains(u[k]));
        assert(idx.contains(u[k]));
        let a0 = idx.index_of(u[k]);
        assert(0 <= a0 < idx.len() && idx[a0] == u[k]);
        assert(value_at(idx, vals, u[k]) == vals[a0]);
        assert(vals[a0] == leaves[u[k]]);
        assert(ps[k] == u[k] + n);
        assert(node_val(leaves, u[k] + n) == leaves[u[k]]);
    }
    assert(canon_values(idx, vals) =~= node_vals(leaves, ps));
    lemma_reconstruct_roundtrip(leaves, ps, leaves.len());
}

/// Idempotent proof content: the batch proof is a function of the query
/// *set* alone — any two query sequences naming the same indices, in any
/// order and with any duplication, yield identical proof contents.
pub proof fn lemma_proof_order_independent(leaves: Seq<Seq<u8>>, s1: Seq<int>, s2: Seq<int>)
    requires
        forall|y: int| #[trigger] s1.contains(y) <==> s2.contains(y),
    ensures
        proof_nodes(leaves, leaf_positions(leaves.len() as int, canon(s1))) == proof_nodes(
            leaves,
            leaf_positions(leaves.len() as int, canon(s2)),
        ),
{
    lemma_canon_same_set(s1, s2);
}

/// Boundary: a tree of exactly two leaves has root `Hash(leaf0, leaf1)`.
pub proof fn lemma_two_leaf_root(leaves: Seq<Seq<u8>>)
    requires
        leaves.len() == 2,
    ensures
        node_val(leaves, 1) == blake3_of(leaves[0] + leaves[1]),
{
    assert(node_val(leaves, 2) == leaves[0]);
    assert(node_val(leaves, 3) == leaves[1]);
}

/// Boundary: in a two-leaf tree, the proof for leaf 0 alone holds exactly
/// one digest — the other leaf.
pub proof fn lemma_two_leaf_proof(leaves: Seq<Seq<u8>>)
    requires
        leaves.len() == 2,
    ensures
        proof_nodes(leaves, leaf_positions(2, canon(seq![0int]))) =~= seq![leaves[1]],
{
    let s = seq![0int];
    assert(s.drop_last() =~= Seq::<int>::empty());
    assert(canon(s.drop_last()) =~= Seq::<int>::empty());
    assert(s.last() == 0);
    let u = canon(s);
    assert(u == crate::merkle::insert_sorted(Seq::<int>::empty(), 0));
    assert(u =~= seq![0int]);
    let ps = leaf_positions(2, u);
    assert(ps =~= seq![2int]);
    assert(!pair_at(ps));
    assert(sib(2) == 3);
    assert(ps.skip(1) =~= Seq::<int>::empty());
    assert(level_sibs(leaves, ps.skip(1)) =~= Seq::<Seq<u8>>::empty());
    assert(level_sibs(leaves, ps) =~= seq![node_val(leaves, sib(ps[0]))]);
    assert(node_val(leaves, 3) == leaves[1]);
    assert(step_ps(ps.skip(1)) =~= Seq::<int>::empty());
    assert(step_ps(ps) =~= seq![1int]);
    assert(proof_nodes(leaves, step_ps(ps)) =~= Seq::<Seq<u8>>::empty());
    assert(proof_nodes(leaves, ps) =~= level_sibs(leaves, ps));
}

/// Determinism: a coin's entire output is a function of its seed bytes and
/// the sequence of calls alone. Two coins built from the same seed deliver
/// the same single draws and the same chunked query batches.
pub proof fn lemma_coin_determinism(
    seed1: Seq<u8>,
    seed2: Seq<u8>,
    ctr: u64,
    j: u64,
    count: nat,
    ub: nat,
    cap: nat,
    chunk: u64,
)
    requires
        seed1 == seed2,
    ensures
        sample(blake3_of(seed1), ctr, j, ub) == sample(blake3_of(seed2), ctr, j, ub),
        batch_seq(blake3_of(seed1), 0, count, ub, cap, chunk) == batch_seq(
            blake3_of(seed2),
            0,
            count,
            ub,
            cap,
            chunk,
        ),
{
}

/// Chunk boundary: a request within the per-call capacity is served by a
/// single draw call with no reseed — the batch equals that one chunk.
pub proof fn lemma_batch_single_chunk(
    state: Seq<u8>,
    ctr: u64,
    count: nat,
    ub: nat,
    cap: nat,
    chunk: u64,
)
    requires
        1 <= count <= cap,
    ensures
        batch_seq(state, ctr, count, ub, cap, chunk) == chunk_draw(
            state,
            (ctr + 1) as u64,
            count,
            ub,
        ),
{
}

/// Chunk boundary: a request of one over the capacity is served by exactly
/// two draw calls with exactly one reseed between them, and matches the
/// manual chunking of the request.
pub proof fn lemma_batch_chunk_boundary(state: Seq<u8>, ctr: u64, ub: nat, cap: nat, chunk: u64)
    requires
        cap >= 1,
    ensures
        batch_seq(state, ctr, (cap + 1) as nat, ub, cap, chunk) == chunk_draw(
            state,
            (ctr + 1) as u64,
            cap,
            ub,
        ) + chunk_draw(reseed_state(state, chunk), 1, 1, ub),
        batch_seq(state, ctr, (cap + 1) as nat, ub, cap, chunk).len() == cap + 1,
{
    assert(batch_seq(reseed_state(state, chunk), 0, 1, ub, cap, (chunk + 1) as u64) == chunk_draw(
        reseed_state(state, chunk),
        1,
        1,
        ub,
    ));
    assert(chunk_draw(state, (ctr + 1) as u64, cap, ub).len() == cap);
    assert(chunk_draw(reseed_state(state, chunk), 1, 1, ub).len() == 1);
}

} // verus!
