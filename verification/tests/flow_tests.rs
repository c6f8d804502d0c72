use merkle_coin::{draw_query_batch, hash_bytes, verify_batch, Digest, MerkleTree, RandomCoin};

#[test]
fn prover_and_verifier_agree_end_to_end() {
    // The commitment holder builds a tree over 64 leaf digests.
    let leaves: Vec<Digest> = (0..64u64).map(|i| hash_bytes(&i.to_be_bytes())).collect();
    let tree = MerkleTree::new(leaves).unwrap();
    let root = tree.root();

    // Prover and verifier each derive the query set from the shared seed.
    let mut prover_coin = RandomCoin::new(b"transcript-digest", 999);
    let queries = draw_query_batch(&mut prover_coin, 20, 64);
    let mut verifier_coin = RandomCoin::new(b"transcript-digest", 999);
    let verifier_queries = draw_query_batch(&mut verifier_coin, 20, 64);
    assert_eq!(queries, verifier_queries);

    // The prover answers with leaf values and a batch proof; the proof
    // travels as bytes and the verifier accepts it against the root.
    let values: Vec<Digest> = queries.iter().map(|&i| tree.leaf(i)).collect();
    let proof = tree.prove_batch(&queries).unwrap();
    let wire = proof.to_bytes();
    let received = merkle_coin::BatchProof::from_bytes(&wire).unwrap();
    assert_eq!(verify_batch(&root, &verifier_queries, &values, &received), Ok(true));
}

#[test]
fn zero_digest_and_raw_construction() {
    let z = Digest::zero();
    assert_eq!(z.bytes, [0u8; 32]);
    let d = Digest::new([7u8; 32]);
    assert_eq!(d.bytes, [7u8; 32]);
}
