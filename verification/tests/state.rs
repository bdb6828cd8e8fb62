use sequencer::state::indexed_seed;

#[test]
fn indexed_seed_hashes_seed_and_index() {
    let seed = [7u8; 32];
    for index in [0u64, 1, 2, 1 << 33, u64::MAX] {
        let mut hasher = blake3::Hasher::new();
        hasher.update(&seed);
        hasher.update(&index.to_le_bytes());
        let expected = *hasher.finalize().as_bytes();
        assert_eq!(indexed_seed(&seed, index), expected);
        assert_ne!(indexed_seed(&seed, index), seed);
    }
}

#[test]
fn indexed_seeds_differ_by_index_and_by_seed() {
    let a = indexed_seed(&[0u8; 32], 0);
    assert_ne!(a, indexed_seed(&[0u8; 32], 1));
    assert_ne!(a, indexed_seed(&[1u8; 32], 0));
    assert_eq!(a, indexed_seed(&[0u8; 32], 0));
}

#[test]
fn indexed_seed_of_zero_seed_and_zero_index_is_the_digest_of_forty_zero_bytes() {
    let expected = *blake3::hash(&[0u8; 40]).as_bytes();
    assert_eq!(indexed_seed(&[0u8; 32], 0), expected);
}
