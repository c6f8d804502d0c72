use merkle_coin::{hash_bytes, hash_pair, verify_batch, BatchProof, Digest, Error, MerkleTree};

fn h(i: u64) -> Digest {
    hash_bytes(&i.to_be_bytes())
}

fn leaves(n: u64) -> Vec<Digest> {
    (0..n).map(h).collect()
}

fn tree(n: u64) -> MerkleTree {
    MerkleTree::new(leaves(n)).unwrap()
}

fn values_at(tree: &MerkleTree, indices: &Vec<usize>) -> Vec<Digest> {
    indices.iter().map(|&i| tree.leaf(i)).collect()
}

#[test]
fn construction_rejects_bad_leaf_counts() {
    assert_eq!(MerkleTree::new(Vec::new()).err(), Some(Error::InvalidLeafCount));
    assert_eq!(MerkleTree::new(leaves(1)).err(), Some(Error::InvalidLeafCount));
    assert_eq!(MerkleTree::new(leaves(3)).err(), Some(Error::InvalidLeafCount));
    assert_eq!(MerkleTree::new(leaves(12)).err(), Some(Error::InvalidLeafCount));
    assert!(MerkleTree::new(leaves(2)).is_ok());
    assert!(MerkleTree::new(leaves(16)).is_ok());
}

#[test]
fn two_leaf_root_is_pair_hash() {
    let t = tree(2);
    assert_eq!(t.root(), hash_pair(&h(0), &h(1)));
}

#[test]
fn two_leaf_single_index_proof_is_other_leaf() {
    let t = tree(2);
    let proof = t.prove_batch(&vec![0]).unwrap();
    assert_eq!(proof.leaf_count, 2);
    assert_eq!(proof.nodes.len(), 1);
    assert_eq!(proof.nodes[0], h(1));
    let ok = verify_batch(&t.root(), &vec![0], &vec![h(0)], &proof).unwrap();
    assert!(ok);
}

#[test]
fn round_trip_verifies() {
    for log_n in 1..7u32 {
        let n = 1u64 << log_n;
        let t = tree(n);
        let indices: Vec<usize> = (0..n as usize).step_by(3).collect();
        let proof = t.prove_batch(&indices).unwrap();
        let vals = values_at(&t, &indices);
        assert_eq!(verify_batch(&t.root(), &indices, &vals, &proof), Ok(true));
    }
}

#[test]
fn end_to_end_sixteen_leaves_with_duplicate() {
    let t = tree(16);
    let indices = vec![2usize, 9, 9, 14];
    let proof = t.prove_batch(&indices).unwrap();
    let vals = values_at(&t, &indices);
    assert_eq!(verify_batch(&t.root(), &indices, &vals, &proof), Ok(true));

    // The same proof against a root built from 16 different leaves fails.
    let other: Vec<Digest> = (100..116u64).map(h).collect();
    let other_tree = MerkleTree::new(other).unwrap();
    assert_eq!(verify_batch(&other_tree.root(), &indices, &vals, &proof), Ok(false));
}

#[test]
fn proof_content_is_order_independent() {
    let t = tree(16);
    let proof_a = t.prove_batch(&vec![3usize, 7, 5]).unwrap();
    let proof_b = t.prove_batch(&vec![7usize, 3, 5]).unwrap();
    let proof_c = t.prove_batch(&vec![5usize, 5, 3, 7, 3]).unwrap();
    assert_eq!(proof_a.leaf_count, proof_b.leaf_count);
    assert_eq!(proof_a.nodes, proof_b.nodes);
    assert_eq!(proof_a.nodes, proof_c.nodes);
    let ia = vec![3usize, 7, 5];
    let ib = vec![7usize, 3, 5];
    assert_eq!(verify_batch(&t.root(), &ia, &values_at(&t, &ia), &proof_a), Ok(true));
    assert_eq!(verify_batch(&t.root(), &ib, &values_at(&t, &ib), &proof_b), Ok(true));
}

#[test]
fn tamper_detection_every_bit() {
    let t = tree(16);
    let indices = vec![1usize, 6, 11];
    let proof = t.prove_batch(&indices).unwrap();
    let vals = values_at(&t, &indices);
    let root = t.root();

    // Flip every bit of the claimed root.
    for byte in 0..32 {
        for bit in 0..8 {
            let mut bad = root;
            bad.bytes[byte] ^= 1 << bit;
            assert_eq!(verify_batch(&bad, &indices, &vals, &proof), Ok(false));
        }
    }
    // Flip every bit of every supplied leaf value.
    for v in 0..vals.len() {
        for byte in 0..32 {
            for bit in 0..8 {
                let mut bad_vals = vals.clone();
                bad_vals[v].bytes[byte] ^= 1 << bit;
                assert_eq!(verify_batch(&root, &indices, &bad_vals, &proof), Ok(false));
            }
        }
    }
    // Flip every bit of every proof node.
    for nd in 0..proof.nodes.len() {
        for byte in 0..32 {
            for bit in 0..8 {
                let mut bad_nodes = proof.nodes.clone();
                bad_nodes[nd].bytes[byte] ^= 1 << bit;
                let bad = BatchProof { leaf_count: proof.leaf_count, nodes: bad_nodes };
                assert_eq!(verify_batch(&root, &indices, &vals, &bad), Ok(false));
            }
        }
    }
}

#[test]
fn prove_batch_rejects_bad_queries() {
    let t = tree(8);
    assert_eq!(t.prove_batch(&Vec::new()).err(), Some(Error::IndexOutOfRange));
    assert_eq!(t.prove_batch(&vec![8usize]).err(), Some(Error::IndexOutOfRange));
    assert_eq!(t.prove_batch(&vec![0usize, 3, 99]).err(), Some(Error::IndexOutOfRange));
}

#[test]
fn verify_batch_rejects_malformed_input() {
    let t = tree(8);
    let indices = vec![1usize, 4];
    let proof = t.prove_batch(&indices).unwrap();
    let vals = values_at(&t, &indices);
    let root = t.root();

    // Mismatched lengths, empty query set, index out of range.
    assert_eq!(
        verify_batch(&root, &indices, &vec![h(1)], &proof).err(),
        Some(Error::IndexOutOfRange)
    );
    assert_eq!(
        verify_batch(&root, &Vec::new(), &Vec::new(), &proof).err(),
        Some(Error::IndexOutOfRange)
    );
    assert_eq!(
        verify_batch(&root, &vec![1usize, 8], &vals, &proof).err(),
        Some(Error::IndexOutOfRange)
    );

    // A proof claiming a non-power-of-two tree.
    let bad = BatchProof { leaf_count: 6, nodes: proof.nodes.clone() };
    assert_eq!(verify_batch(&root, &indices, &vals, &bad).err(), Some(Error::MalformedProof));

    // A proof missing a required node, and one with an extra node.
    let mut missing = proof.nodes.clone();
    missing.pop();
    let bad = BatchProof { leaf_count: 8, nodes: missing };
    assert_eq!(verify_batch(&root, &indices, &vals, &bad).err(), Some(Error::MalformedProof));
    let mut extra = proof.nodes.clone();
    extra.push(h(42));
    let bad = BatchProof { leaf_count: 8, nodes: extra };
    assert_eq!(verify_batch(&root, &indices, &vals, &bad).err(), Some(Error::MalformedProof));
}

#[test]
fn conflicting_duplicate_values_fail_verification() {
    let t = tree(8);
    let indices = vec![2usize, 5, 2];
    let proof = t.prove_batch(&indices).unwrap();
    let mut vals = values_at(&t, &indices);
    assert_eq!(verify_batch(&t.root(), &indices, &vals, &proof), Ok(true));
    vals[2] = h(777);
    assert_eq!(verify_batch(&t.root(), &indices, &vals, &proof), Ok(false));
}

#[test]
fn proof_serialization_round_trip() {
    let t = tree(16);
    let indices = vec![0usize, 7, 9, 15];
    let proof = t.prove_batch(&indices).unwrap();
    let bytes = proof.to_bytes();
    assert_eq!(bytes.len(), 16 + 32 * proof.nodes.len());
    let back = BatchProof::from_bytes(&bytes).unwrap();
    assert_eq!(back.leaf_count, proof.leaf_count);
    assert_eq!(back.nodes, proof.nodes);
    let vals = values_at(&t, &indices);
    assert_eq!(verify_batch(&t.root(), &indices, &vals, &back), Ok(true));
}

#[test]
fn proof_deserialization_rejects_garbage() {
    assert_eq!(BatchProof::from_bytes(&Vec::new()).err(), Some(Error::MalformedProof));
    assert_eq!(BatchProof::from_bytes(&vec![0u8; 15]).err(), Some(Error::MalformedProof));
    assert_eq!(BatchProof::from_bytes(&vec![0u8; 17]).err(), Some(Error::MalformedProof));
    // A correct length whose node count field disagrees with the length.
    let t = tree(4);
    let proof = t.prove_batch(&vec![1usize]).unwrap();
    let mut bytes = proof.to_bytes();
    bytes[15] ^= 1;
    assert_eq!(BatchProof::from_bytes(&bytes).err(), Some(Error::MalformedProof));
}

#[test]
fn leaf_accessors_match_construction() {
    let t = tree(4);
    assert_eq!(t.leaf_count(), 4);
    for i in 0..4 {
        assert_eq!(t.leaf(i), h(i as u64));
    }
}
