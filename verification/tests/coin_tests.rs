use merkle_coin::{digest_eq, draw_query_batch, hash_bytes, Error, RandomCoin};

const CAP: usize = 999;

#[test]
fn digest_equality_is_bytewise() {
    let a = hash_bytes(b"abc");
    let b = hash_bytes(b"abc");
    let c = hash_bytes(b"abd");
    assert!(digest_eq(&a, &b));
    assert!(!digest_eq(&a, &c));
    assert_eq!(a, b);
    assert_ne!(a, c);
}

#[test]
fn same_seed_same_outputs() {
    let mut c1 = RandomCoin::new(b"shared-seed", CAP);
    let mut c2 = RandomCoin::new(b"shared-seed", CAP);
    let d1 = c1.draw_integers(50, 1024).unwrap();
    let d2 = c2.draw_integers(50, 1024).unwrap();
    assert_eq!(d1, d2);
    assert_eq!(d1.len(), 50);
    assert!(d1.iter().all(|&v| v < 1024));

    // The same reseed keeps them in lockstep; further draws still agree.
    let e = hash_bytes(b"round-1");
    c1.reseed(&e);
    c2.reseed(&e);
    assert_eq!(c1.draw_integers(50, 7).unwrap(), c2.draw_integers(50, 7).unwrap());
}

#[test]
fn different_seeds_diverge() {
    let mut c1 = RandomCoin::new(b"seed-a", CAP);
    let mut c2 = RandomCoin::new(b"seed-b", CAP);
    assert_ne!(c1.draw_integers(32, 1 << 20).unwrap(), c2.draw_integers(32, 1 << 20).unwrap());
}

#[test]
fn successive_draws_differ() {
    let mut c = RandomCoin::new(b"seed", CAP);
    let d1 = c.draw_integers(32, 1 << 20).unwrap();
    let d2 = c.draw_integers(32, 1 << 20).unwrap();
    assert_ne!(d1, d2);
}

#[test]
fn reseed_changes_outputs() {
    let mut c1 = RandomCoin::new(b"seed", CAP);
    let mut c2 = RandomCoin::new(b"seed", CAP);
    c2.reseed(&hash_bytes(b"entropy"));
    assert_ne!(c1.draw_integers(32, 1 << 20).unwrap(), c2.draw_integers(32, 1 << 20).unwrap());
}

#[test]
fn oversized_draw_is_rejected() {
    let mut c = RandomCoin::new(b"seed", CAP);
    assert_eq!(c.draw_integers(CAP + 1, 16).err(), Some(Error::DrawBatchTooLarge));
    // The failed call leaves the coin untouched.
    let mut fresh = RandomCoin::new(b"seed", CAP);
    assert_eq!(c.draw_integers(8, 16).unwrap(), fresh.draw_integers(8, 16).unwrap());
}

#[test]
fn batch_at_capacity_is_one_draw() {
    let mut orchestrated = RandomCoin::new(b"batch-seed", CAP);
    let batch = draw_query_batch(&mut orchestrated, CAP, 4096);
    let mut manual = RandomCoin::new(b"batch-seed", CAP);
    let single = manual.draw_integers(CAP, 4096).unwrap();
    assert_eq!(batch, single);
    // No reseed happened: both coins continue in lockstep.
    assert_eq!(
        orchestrated.draw_integers(5, 4096).unwrap(),
        manual.draw_integers(5, 4096).unwrap()
    );
}

#[test]
fn batch_one_over_capacity_reseeds_once() {
    let mut orchestrated = RandomCoin::new(b"batch-seed", CAP);
    let batch = draw_query_batch(&mut orchestrated, CAP + 1, 4096);
    assert_eq!(batch.len(), CAP + 1);

    // Manual chunking: one full draw, one reseed with the hash of chunk
    // counter 1, then the remaining single value.
    let mut manual = RandomCoin::new(b"batch-seed", CAP);
    let mut expected = manual.draw_integers(CAP, 4096).unwrap();
    manual.reseed(&hash_bytes(&1u64.to_be_bytes()));
    expected.extend(manual.draw_integers(1, 4096).unwrap());
    assert_eq!(batch, expected);

    // Exactly that one reseed: the coins agree afterwards.
    assert_eq!(
        orchestrated.draw_integers(5, 4096).unwrap(),
        manual.draw_integers(5, 4096).unwrap()
    );
}

#[test]
fn batch_with_small_capacity_chunks_deterministically() {
    let mut c1 = RandomCoin::new(b"small", 3);
    let batch = draw_query_batch(&mut c1, 8, 64);
    assert_eq!(batch.len(), 8);
    assert!(batch.iter().all(|&v| v < 64));

    let mut manual = RandomCoin::new(b"small", 3);
    let mut expected = manual.draw_integers(3, 64).unwrap();
    manual.reseed(&hash_bytes(&1u64.to_be_bytes()));
    expected.extend(manual.draw_integers(3, 64).unwrap());
    manual.reseed(&hash_bytes(&2u64.to_be_bytes()));
    expected.extend(manual.draw_integers(2, 64).unwrap());
    assert_eq!(batch, expected);

    // The whole orchestration is reproducible from the seed alone.
    let mut c2 = RandomCoin::new(b"small", 3);
    assert_eq!(draw_query_batch(&mut c2, 8, 64), batch);
}

#[test]
fn batch_of_zero_is_empty() {
    let mut c = RandomCoin::new(b"seed", CAP);
    assert_eq!(draw_query_batch(&mut c, 0, 16), Vec::<usize>::new());
}

#[test]
fn draws_respect_odd_bounds() {
    let mut c = RandomCoin::new(b"bound-check", CAP);
    for &ub in &[1usize, 2, 3, 5, 7, 1000, 999983] {
        let vals = c.draw_integers(64, ub).unwrap();
        assert_eq!(vals.len(), 64);
        assert!(vals.iter().all(|&v| v < ub));
    }
    // A bound of 1 admits only zero.
    assert!(c.draw_integers(16, 1).unwrap().iter().all(|&v| v == 0));
}
