use vstd::prelude::*;

use crate::digest::Digest;
use crate::error::Error;
use crate::hasher::{blake3_of, hash_pair};
use crate::{check_pow2, is_pow2, lemma_pow2_usize_bound};

verus! {

/// A sequence of digests as a sequence of their byte strings.
pub open spec fn digests_of(v: Seq<Digest>) -> Seq<Seq<u8>> {
    v.map_values(|d: Digest| d@)
}

/// The digest at tree position `p` over the given leaves.
///
/// Positions follow the implicit heap layout: the root sits at position 1,
/// position `p`'s children sit at `2p` and `2p + 1`, and leaf `i` of `n`
/// occupies position `n + i`. Internal digests hash the two children's
/// digests; positions outside `[1, 2n)` carry an empty placeholder.
pub open spec fn node_val(leaves: Seq<Seq<u8>>, p: int) -> Seq<u8>
    recommends
        1 <= p < 2 * leaves.len(),
    decreases 2 * leaves.len() - p,
{
    if 1 <= p < leaves.len() {
        blake3_of(node_val(leaves, 2 * p) + node_val(leaves, 2 * p + 1))
    } else if leaves.len() <= p < 2 * leaves.len() {
        leaves[p - leaves.len()]
    } else {
        Seq::empty()
    }
}

/// Strictly increasing: sorted with no duplicates.
pub open spec fn sorted_strict(u: Seq<int>) -> bool {
    forall|i: int, j: int| 0 <= i < j < u.len() ==> u[i] < u[j]
}

/// A sequence of `usize` indices as mathematical integers.
pub open spec fn idxs_of(v: Seq<usize>) -> Seq<int> {
    v.map_values(|x: usize| x as int)
}

/// Inserts `x` into a sorted duplicate-free sequence, keeping it sorted and
/// dropping `x` when already present.
pub open spec fn insert_sorted(u: Seq<int>, x: int) -> Seq<int>
    decreases u.len(),
{
    if u.len() == 0 {
        seq![x]
    } else if x < u[0] {
        seq![x] + u
    } else if x == u[0] {
        u
    } else {
        seq![u[0]] + insert_sorted(u.skip(1), x)
    }
}

/// The canonical form of a query set: its indices sorted ascending with
/// duplicates removed. The batch proof is a function of this form alone,
/// so the order in which queries were supplied cannot matter.
pub open spec fn canon(s: Seq<int>) -> Seq<int>
    decreases s.len(),
{
    if s.len() == 0 {
        Seq::empty()
    } else {
        insert_sorted(canon(s.drop_last()), s.last())
    }
}

/// A nonempty sequence holds an element exactly when its head is that
/// element or its tail holds it.
pub proof fn lemma_contains_split(u: Seq<int>, y: int)
    requires
        u.len() > 0,
    ensures
        u.contains(y) <==> (u[0] == y || u.skip(1).contains(y)),
{
    if u.contains(y) {
        let i = u.lemma_contains_to_index(y);
        if i > 0 {
            assert(u.skip(1)[i - 1] == y);
        }
    }
    if u.skip(1).contains(y) {
        let i = u.skip(1).lemma_contains_to_index(y);
        assert(u[i + 1] == y);
    }
    if u[0] == y {
        assert(u.contains(y));
    }
}

/// A nonempty sequence holds an element exactly when its last entry is that
/// element or the rest holds it.
pub proof fn lemma_contains_split_last(u: Seq<int>, y: int)
    requires
        u.len() > 0,
    ensures
        u.contains(y) <==> (u.drop_last().contains(y) || u.last() == y),
{
    if u.contains(y) {
        let i = u.lemma_contains_to_index(y);
        if i < u.len() - 1 {
            assert(u.drop_last()[i] == y);
        }
    }
    if u.drop_last().contains(y) {
        let i = u.drop_last().lemma_contains_to_index(y);
        assert(u[i] == y);
    }
    if u.last() == y {
        assert(u[u.len() - 1] == y);
    }
}

/// Sorted insertion keeps the sequence sorted and duplicate-free, and adds
/// exactly the inserted element to its contents.
pub proof fn lemma_insert_sorted_props(u: Seq<int>, x: int)
    requires
        sorted_strict(u),
    ensures
        sorted_strict(insert_sorted(u, x)),
        forall|y: int| #[trigger] insert_sorted(u, x).contains(y) <==> (u.contains(y) || y == x),
        1 <= insert_sorted(u, x).len() <= u.len() + 1,
    decreases u.len(),
{
    let r = insert_sorted(u, x);
    if u.len() == 0 {
        assert(r =~= Seq::empty().push(x));
        assert forall|y: int| #[trigger] r.contains(y) <==> (u.contains(y) || y == x) by {
            if r.contains(y) {
                let i = r.lemma_contains_to_index(y);
            }
            if y == x {
                assert(r[0] == y);
            }
        }
    } else if x < u[0] {
        assert forall|y: int| #[trigger] r.contains(y) <==> (u.contains(y) || y == x) by {
            lemma_contains_split(r, y);
            assert(r.skip(1) =~= u);
        }
    } else if x == u[0] {
        assert forall|y: int| #[trigger] r.contains(y) <==> (u.contains(y) || y == x) by {
            if y == x {
                assert(u[0] == y);
            }
        }
    } else {
        assert(sorted_strict(u.skip(1)));
        lemma_insert_sorted_props(u.skip(1), x);
        let t = insert_sorted(u.skip(1), x);
        assert forall|y: int| #[trigger] r.contains(y) <==> (u.contains(y) || y == x) by {
            lemma_contains_split(r, y);
            assert(r.skip(1) =~= t);
            lemma_contains_split(u, y);
        }
        assert forall|i: int, j: int| 0 <= i < j < r.len() implies r[i] < r[j] by {
            if i == 0 {
                assert(t.contains(t[j - 1]));
                assert(r[j] == t[j - 1]);
                if u.skip(1).contains(t[j - 1]) {
                    let k = u.skip(1).lemma_contains_to_index(t[j - 1]);
                    assert(u[k + 1] == t[j - 1]);
                }
            } else {
                assert(r[i] == t[i - 1] && r[j] == t[j - 1]);
            }
        }
    }
}

/// The canonical form is sorted, duplicate-free, and holds exactly the
/// elements of the original query sequence.
pub proof fn lemma_canon_props(s: Seq<int>)
    ensures
        sorted_strict(canon(s)),
        forall|y: int| #[trigger] canon(s).contains(y) <==> s.contains(y),
        s.len() > 0 ==> canon(s).len() >= 1,
        canon(s).len() <= s.len(),
    decreases s.len(),
{
    if s.len() == 0 {
        assert forall|y: int| #[trigger] canon(s).contains(y) <==> s.contains(y) by {
            if canon(s).contains(y) {
                let i = canon(s).lemma_contains_to_index(y);
            }
            if s.contains(y) {
                let i = s.lemma_contains_to_index(y);
            }
        }
    } else {
        lemma_canon_props(s.drop_last());
        lemma_insert_sorted_props(canon(s.drop_last()), s.last());
        assert forall|y: int| #[trigger] canon(s).contains(y) <==> s.contains(y) by {
            lemma_contains_split_last(s, y);
        }
    }
}

/// Where the run-time scan stops is exactly where `insert_sorted` puts the
/// element: at split point `j` the result is the sequence itself when the
/// element is already there, else the sequence with the element spliced in.
pub proof fn lemma_insert_sorted_at(u: Seq<int>, x: int, j: int)
    requires
        sorted_strict(u),
        0 <= j <= u.len(),
        forall|k: int| 0 <= k < j ==> u[k] < x,
        j < u.len() ==> u[j] >= x,
    ensures
        (j < u.len() && u[j] == x) ==> insert_sorted(u, x) == u,
        !(j < u.len() && u[j] == x) ==> insert_sorted(u, x) == u.insert(j, x),
    decreases u.len(),
{
    if u.len() == 0 {
        assert(insert_sorted(u, x) =~= u.insert(0, x));
    } else if j == 0 {
        if u[0] != x {
            assert(insert_sorted(u, x) =~= u.insert(0, x));
        }
    } else {
        assert(u[0] < x);
        assert(sorted_strict(u.skip(1)));
        lemma_insert_sorted_at(u.skip(1), x, j - 1);
        if j < u.len() && u[j] == x {
            assert(u.skip(1)[j - 1] == x);
            assert(seq![u[0]] + u.skip(1) =~= u);
        } else {
            assert(seq![u[0]] + u.skip(1).insert(j - 1, x) =~= u.insert(j, x));
        }
    }
}

/// Two sorted duplicate-free sequences with the same contents are the same
/// sequence: the canonical form of a query set is unique.
pub proof fn lemma_sorted_unique(a: Seq<int>, b: Seq<int>)
    requires
        sorted_strict(a),
        sorted_strict(b),
        forall|y: int| #[trigger] a.contains(y) <==> b.contains(y),
    ensures
        a == b,
    decreases a.len(),
{
    if a.len() == 0 {
        if b.len() > 0 {
            assert(b.contains(b[0]));
            let i = a.lemma_contains_to_index(b[0]);
        }
        assert(a =~= b);
    } else {
        assert(a.contains(a[0]));
        assert(b.contains(a[0]));
        let i = b.lemma_contains_to_index(a[0]);
        assert(b.contains(b[0]));
        let k = a.lemma_contains_to_index(b[0]);
        assert(a[0] == b[0]);
        assert forall|y: int| #[trigger] a.skip(1).contains(y) <==> b.skip(1).contains(y) by {
            lemma_contains_split(a, y);
            lemma_contains_split(b, y);
            if a.skip(1).contains(y) {
                let m = a.skip(1).lemma_contains_to_index(y);
                assert(a[m + 1] == y);
                assert(y > a[0]);
            }
            if b.skip(1).contains(y) {
                let m = b.skip(1).lemma_contains_to_index(y);
                assert(b[m + 1] == y);
                assert(y > b[0]);
            }
        }
        assert(sorted_strict(a.skip(1)));
        assert(sorted_strict(b.skip(1)));
        lemma_sorted_unique(a.skip(1), b.skip(1));
        assert(a.len() == b.len());
        assert forall|i: int| 0 <= i < a.len() implies a[i] == b[i] by {
            if i > 0 {
                assert(a[i] == a.skip(1)[i - 1]);
                assert(b[i] == b.skip(1)[i - 1]);
            }
        }
        assert(a =~= b);
    }
}

/// Sequences holding the same index set have the same canonical form: the
/// batch proof cannot depend on query order or duplication.
pub proof fn lemma_canon_same_set(s1: Seq<int>, s2: Seq<int>)
    requires
        forall|y: int| #[trigger] s1.contains(y) <==> s2.contains(y),
    ensures
        canon(s1) == canon(s2),
{
    lemma_canon_props(s1);
    lemma_canon_props(s2);
    assert forall|y: int| #[trigger] canon(s1).contains(y) <==> canon(s2).contains(y) by {}
    lemma_sorted_unique(canon(s1), canon(s2));
}

/// Sorts the query indices ascending and removes duplicates, returning the
/// canonical form of the query set.
pub fn sort_dedup(indices: &Vec<usize>) -> (u: Vec<usize>)
    ensures
        idxs_of(u@) == canon(idxs_of(indices@)),
        sorted_strict(idxs_of(u@)),
{
    let mut u: Vec<usize> = Vec::new();
    let mut i: usize = 0;
    proof {
        assert(idxs_of(indices@.take(0)) =~= Seq::<int>::empty());
        assert(idxs_of(u@) =~= canon(idxs_of(indices@.take(0))));
    }
    while i < indices.len()
        invariant
            i <= indices@.len(),
            idxs_of(u@) == canon(idxs_of(indices@.take(i as int))),
            sorted_strict(idxs_of(u@)),
        decreases indices@.len() - i,
    {
        let x = indices[i];
        let ghost prev = idxs_of(u@);
        let mut j: usize = 0;
        while j < u.len() && u[j] < x
            invariant
                j <= u@.len(),
                idxs_of(u@) == prev,
                forall|k: int| 0 <= k < j ==> prev[k] < x as int,
            decreases u@.len() - j,
        {
            proof {
                assert(prev[j as int] == u@[j as int] as int);
            }
            j = j + 1;
        }
        proof {
            assert(j < u@.len() ==> prev[j as int] >= x as int);
            lemma_insert_sorted_at(prev, x as int, j as int);
        }
        if j < u.len() && u[j] == x {
            proof {
                assert(prev[j as int] == x as int);
                assert(insert_sorted(prev, x as int) == prev);
            }
        } else {
            u.insert(j, x);
            proof {
                assert(idxs_of(u@) =~= prev.insert(j as int, x as int));
            }
        }
        proof {
            let t = idxs_of(indices@.take(i as int + 1));
            assert(t.drop_last() =~= idxs_of(indices@.take(i as int)));
            assert(t.last() == x as int);
            assert(canon(t) == insert_sorted(canon(idxs_of(indices@.take(i as int))), x as int));
            lemma_insert_sorted_props(prev, x as int);
        }
        i = i + 1;
    }
    proof {
        assert(indices@.take(indices@.len() as int) =~= indices@);
    }
    u
}

/// The sibling of position `p`: the other child of `p`'s parent.
pub open spec fn sib(p: int) -> int {
    if p % 2 == 0 {
        p + 1
    } else {
        p - 1
    }
}

/// The head of a position sequence forms a complete pair with its
/// successor: both children of one parent are present.
pub open spec fn pair_at(ps: Seq<int>) -> bool {
    ps.len() >= 2 && ps[0] % 2 == 0 && ps[1] == ps[0] + 1
}

/// How many sibling digests one level consumes from a proof: one per
/// position whose sibling is not itself present.
pub open spec fn sib_count(ps: Seq<int>) -> nat
    decreases ps.len(),
{
    if ps.len() == 0 {
        0
    } else if pair_at(ps) {
        sib_count(ps.skip(2))
    } else {
        1 + sib_count(ps.skip(1))
    }
}

/// The positions known at the next level up: each parent once, whether one
/// or both of its children were present.
pub open spec fn step_ps(ps: Seq<int>) -> Seq<int>
    decreases ps.len(),
{
    if ps.len() == 0 {
        Seq::empty()
    } else if pair_at(ps) {
        seq![ps[0] / 2] + step_ps(ps.skip(2))
    } else {
        seq![ps[0] / 2] + step_ps(ps.skip(1))
    }
}

/// The sibling digests one level contributes to the proof, in ascending
/// position order: the tree's digest at each absent sibling position.
pub open spec fn level_sibs(leaves: Seq<Seq<u8>>, ps: Seq<int>) -> Seq<Seq<u8>>
    decreases ps.len(),
{
    if ps.len() == 0 {
        Seq::empty()
    } else if pair_at(ps) {
        level_sibs(leaves, ps.skip(2))
    } else {
        seq![node_val(leaves, sib(ps[0]))] + level_sibs(leaves, ps.skip(1))
    }
}

/// The full batch proof contents for the known positions `ps`: each
/// level's absent-sibling digests, bottom-up, until the root is reached.
pub open spec fn proof_nodes(leaves: Seq<Seq<u8>>, ps: Seq<int>) -> Seq<Seq<u8>>
    decreases (if ps.len() > 0 && ps[0] >= 2 {
        ps[0]
    } else {
        0
    }),
{
    if ps.len() == 0 || ps[0] < 2 {
        Seq::empty()
    } else {
        level_sibs(leaves, ps) + proof_nodes(leaves, step_ps(ps))
    }
}

/// Query indices shifted to their leaf positions in a tree of `n` leaves.
pub open spec fn leaf_positions(n: int, u: Seq<int>) -> Seq<int> {
    u.map_values(|x: int| x + n)
}

/// A binary hash tree over a power-of-two sequence of leaf digests.
///
/// Immutable after construction: the commitment holder may hand out
/// read-only references freely, since proving and verifying never mutate.
pub struct MerkleTree {
    leaves: Vec<Digest>,
    nodes: Vec<Digest>,
}

impl MerkleTree {
    /// The committed leaf digests, as byte strings.
    pub closed spec fn leaves(self) -> Seq<Seq<u8>> {
        digests_of(self.leaves@)
    }

    /// The derived internal-node array matches `node_val` at every
    /// internal position.
    pub closed spec fn nodes_ok(self) -> bool {
        &&& self.nodes@.len() == self.leaves@.len()
        &&& forall|i: int|
            1 <= i < self.nodes@.len() ==> (#[trigger] self.nodes@[i])@ == node_val(
                self.leaves(),
                i,
            )
    }

    /// Construction establishes this and every method preserves it.
    pub open spec fn wf(self) -> bool {
        &&& is_pow2(self.leaves().len())
        &&& self.leaves().len() >= 2
        &&& self.nodes_ok()
    }

    /// Builds the tree bottom-up over the given leaves; fails with
    /// `InvalidLeafCount` unless the leaf count is a power of two of at
    /// least 2.
    pub fn new(leaves: Vec<Digest>) -> (r: Result<MerkleTree, Error>)
        ensures
            match r {
                Ok(t) => {
                    &&& is_pow2(leaves@.len())
                    &&& leaves@.len() >= 2
                    &&& t.wf()
                    &&& t.leaves() == digests_of(leaves@)
                },
                Err(e) => {
                    &&& e == Error::InvalidLeafCount
                    &&& !(is_pow2(leaves@.len()) && leaves@.len() >= 2)
                },
            },
    {
        let n = leaves.len();
        if n < 2 || !check_pow2(n) {
            return Err(Error::InvalidLeafCount);
        }
        proof {
            lemma_pow2_usize_bound(n);
        }
        let ghost lv = digests_of(leaves@);
        let mut nodes: Vec<Digest> = Vec::new();
        let mut f: usize = 0;
        while f < n
            invariant
                f <= n,
                nodes@.len() == f,
            decreases n - f,
        {
            nodes.push(Digest::zero());
            f = f + 1;
        }
        let mut i: usize = n - 1;
        while i >= 1
            invariant
                i < n,
                n == leaves@.len(),
                nodes@.len() == n,
                is_pow2(n as nat),
                n >= 2,
                2 * n - 1 <= usize::MAX,
                lv == digests_of(leaves@),
                forall|j: int|
                    i < j < n ==> (#[trigger] nodes@[j])@ == node_val(lv, j),
            decreases i,
        {
            let left: Digest = if 2 * i >= n {
                leaves[2 * i - n]
            } else {
                nodes[2 * i]
            };
            let right: Digest = if 2 * i + 1 >= n {
                leaves[2 * i + 1 - n]
            } else {
                nodes[2 * i + 1]
            };
            proof {
                assert(left@ == node_val(lv, 2 * i));
                assert(right@ == node_val(lv, 2 * i + 1));
            }
            let parent = hash_pair(&left, &right);
            nodes.set(i, parent);
            i = i - 1;
        }
        Ok(MerkleTree { leaves, nodes })
    }

    /// The number of committed leaves.
    pub fn leaf_count(&self) -> (c: usize)
        ensures
            c as nat == self.leaves().len(),
    {
        self.leaves.len()
    }

    /// The committed leaf digest at index `i`.
    pub fn leaf(&self, i: usize) -> (d: Digest)
        requires
            (i as nat) < self.leaves().len(),
        ensures
            d@ == self.leaves()[i as int],
    {
        self.leaves[i]
    }

    /// The single top-level digest committing to all leaves.
    pub fn root(&self) -> (d: Digest)
        requires
            self.wf(),
        ensures
            d@ == node_val(self.leaves(), 1),
    {
        self.nodes[1]
    }

    /// The tree's digest at any position: a leaf digest at leaf positions,
    /// a precomputed internal digest elsewhere.
    fn node_at(&self, q: usize) -> (d: Digest)
        requires
            self.wf(),
            1 <= q,
            (q as nat) < 2 * self.leaves().len(),
        ensures
            d@ == node_val(self.leaves(), q as int),
    {
        if q >= self.leaves.len() {
            self.leaves[q - self.leaves.len()]
        } else {
            self.nodes[q]
        }
    }

    /// Generates the compact multi-proof for the given query indices:
    /// exactly the undetermined sibling digests needed to recompute the
    /// root from the queried leaves, deduplicated across shared paths.
    ///
    /// The proof depends only on the *set* of indices: duplicates and
    /// order are erased by canonicalization. Fails with `IndexOutOfRange`
    /// when the query set is empty or any index reaches past the leaves.
    #[verifier::loop_isolation(false)]
    #[verifier::rlimit(60)]
    pub fn prove_batch(&self, indices: &Vec<usize>) -> (r: Result<crate::batch::BatchProof, Error>)
        requires
            self.wf(),
        ensures
            match r {
                Ok(p) => {
                    &&& indices@.len() >= 1
                    &&& forall|k: int|
                        0 <= k < indices@.len() ==> (#[trigger] indices@[k] as nat)
                            < self.leaves().len()
                    &&& p.leaf_count as nat == self.leaves().len()
                    &&& digests_of(p.nodes@) == proof_nodes(
                        self.leaves(),
                        leaf_positions(
                            self.leaves().len() as int,
                            canon(idxs_of(indices@)),
                        ),
                    )
                },
                Err(e) => {
                    &&& e == Error::IndexOutOfRange
                    &&& (indices@.len() == 0 || exists|k: int|
                        0 <= k < indices@.len() && (#[trigger] indices@[k] as nat)
                            >= self.leaves().len())
                },
            },
    {
        let n = self.leaves.len();
        if indices.len() == 0 {
            return Err(Error::IndexOutOfRange);
        }
        let mut i: usize = 0;
        while i < indices.len()
            invariant
                i <= indices@.len(),
                forall|k: int| 0 <= k < i ==> (#[trigger] indices@[k]) < n,
            decreases indices@.len() - i,
        {
            if indices[i] >= n {
                proof {
                    assert(indices@[i as int] as nat >= self.leaves().len());
                }
                return Err(Error::IndexOutOfRange);
            }
            i = i + 1;
        }
        proof {
            lemma_pow2_usize_bound(n);
            lemma_canon_props(idxs_of(indices@));
        }
        let u = sort_dedup(indices);
        let ghost cu = canon(idxs_of(indices@));
        proof {
            assert forall|k: int| 0 <= k < u@.len() implies (#[trigger] u@[k]) < n by {
                assert(cu[k] == u@[k] as int);
                assert(cu.contains(cu[k]));
                let j = idxs_of(indices@).lemma_contains_to_index(cu[k]);
                assert(indices@[j] < n);
            }
        }
        let mut cur: Vec<usize> = Vec::new();
        let mut k: usize = 0;
        while k < u.len()
            invariant
                k <= u@.len(),
                cur@.len() == k,
                forall|j: int| 0 <= j < k ==> (#[trigger] cur@[j]) == n + u@[j],
            decreases u@.len() - k,
        {
            cur.push(n + u[k]);
            k = k + 1;
        }
        let ghost orig_ps = leaf_positions(n as int, cu);
        proof {
            assert(idxs_of(cur@) =~= orig_ps);
            assert(cu.len() >= 1);
        }
        let ghost mut m: nat = n as nat;
        let mut out: Vec<Digest> = Vec::new();
        while cur[0] >= 2
            invariant
                cur@.len() >= 1,
                is_pow2(m),
                1 <= m <= n as nat,
                forall|j: int|
                    0 <= j < cur@.len() ==> m <= (#[trigger] cur@[j] as nat) < 2 * m,
                digests_of(out@) + proof_nodes(self.leaves(), idxs_of(cur@)) == proof_nodes(
                    self.leaves(),
                    orig_ps,
                ),
            decreases m,
        {
            proof {
                assert(m >= 2);
            }
            let ghost cur_s = idxs_of(cur@);
            let ghost out_pre = out@;
            let mut next: Vec<usize> = Vec::new();
            let mut i: usize = 0;
            proof {
                assert(cur_s.skip(0) =~= cur_s);
                assert(idxs_of(next@) + step_ps(cur_s) =~= step_ps(cur_s));
                assert(digests_of(out@) + level_sibs(self.leaves(), cur_s) =~= digests_of(out_pre)
                    + level_sibs(self.leaves(), cur_s));
            }
            while i < cur.len()
                invariant
                    i <= cur@.len(),
                    i >= 1 ==> next@.len() >= 1,
                    forall|j: int|
                        0 <= j < next@.len() ==> m / 2 <= (#[trigger] next@[j] as nat) < m,
                    idxs_of(next@) + step_ps(cur_s.skip(i as int)) == step_ps(cur_s),
                    digests_of(out@) + level_sibs(self.leaves(), cur_s.skip(i as int))
                        == digests_of(out_pre) + level_sibs(self.leaves(), cur_s),
                decreases cur@.len() - i,
            {
                let p = cur[i];
                let ghost tail = cur_s.skip(i as int);
                proof {
                    assert(tail[0] == p as int);
                }
                if p % 2 == 0 && i + 1 < cur.len() && cur[i + 1] == p + 1 {
                    proof {
                        assert(tail[1] == cur_s[i as int + 1]);
                        assert(pair_at(tail));
                        assert(tail.skip(2) =~= cur_s.skip(i as int + 2));
                        assert(idxs_of(next@.push(p / 2)) =~= idxs_of(next@) + seq![
                            (p / 2) as int,
                        ]);
                        crate::lemma_seq_add_assoc(
                            idxs_of(next@),
                            seq![(p / 2) as int],
                            step_ps(cur_s.skip(i as int + 2)),
                        );
                        assert(seq![(p / 2) as int] + step_ps(cur_s.skip(i as int + 2))
                            == step_ps(tail));
                    }
                    next.push(p / 2);
                    i = i + 2;
                } else {
                    let s = if p % 2 == 0 {
                        p + 1
                    } else {
                        p - 1
                    };
                    proof {
                        assert(!pair_at(tail));
                        assert(s as int == sib(p as int));
                        assert(tail.skip(1) =~= cur_s.skip(i as int + 1));
                    }
                    let sd = self.node_at(s);
                    proof {
                        assert(digests_of(out@.push(sd)) =~= digests_of(out@) + seq![sd@]);
                        crate::lemma_seq_add_assoc(
                            digests_of(out@),
                            seq![sd@],
                            level_sibs(self.leaves(), cur_s.skip(i as int + 1)),
                        );
                        assert(seq![node_val(self.leaves(), sib(p as int))] + level_sibs(
                            self.leaves(),
                            cur_s.skip(i as int + 1),
                        ) == level_sibs(self.leaves(), tail));
                        assert(idxs_of(next@.push(p / 2)) =~= idxs_of(next@) + seq![
                            (p / 2) as int,
                        ]);
                        crate::lemma_seq_add_assoc(
                            idxs_of(next@),
                            seq![(p / 2) as int],
                            step_ps(cur_s.skip(i as int + 1)),
                        );
                        assert(seq![(p / 2) as int] + step_ps(cur_s.skip(i as int + 1))
                            == step_ps(tail));
                    }
                    out.push(sd);
                    next.push(p / 2);
                    i = i + 1;
                }
            }
            proof {
                assert(cur_s.skip(cur_s.len() as int) =~= Seq::<int>::empty());
                assert(idxs_of(next@) + Seq::<int>::empty() =~= idxs_of(next@));
                assert(digests_of(out@) + Seq::<Seq<u8>>::empty() =~= digests_of(out@));
                assert(idxs_of(next@) == step_ps(cur_s));
                assert(digests_of(out@) == digests_of(out_pre) + level_sibs(
                    self.leaves(),
                    cur_s,
                ));
                assert(proof_nodes(self.leaves(), cur_s) == level_sibs(self.leaves(), cur_s)
                    + proof_nodes(self.leaves(), step_ps(cur_s)));
                crate::lemma_seq_add_assoc(
                    digests_of(out_pre),
                    level_sibs(self.leaves(), cur_s),
                    proof_nodes(self.leaves(), step_ps(cur_s)),
                );
                crate::lemma_pow2_halves(m);
                m = m / 2;
            }
            cur = next;
        }
        proof {
            assert(idxs_of(cur@)[0] < 2);
            assert(proof_nodes(self.leaves(), idxs_of(cur@)) =~= Seq::<Seq<u8>>::empty());
            assert(digests_of(out@) + Seq::<Seq<u8>>::empty() =~= digests_of(out@));
        }
        Ok(crate::batch::BatchProof { leaf_count: n, nodes: out })
    }
}

} // verus!
