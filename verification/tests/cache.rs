use coincync::cache::{
    proof_cache_key, ring_sig_cache_key, ring_sig_statement_cache_key, VerificationCache,
    MAX_CACHE_SIZE,
};

#[test]
fn test_cache_bulletproof() {
    let mut cache = VerificationCache::new();
    let hash = [1u8; 32];

    assert!(cache.check_bulletproof(&hash, 0).is_none());

    cache.cache_bulletproof(hash, true, 0);
    assert_eq!(cache.check_bulletproof(&hash, 0), Some(true));

    let stats = cache.stats();
    assert_eq!(stats.hits, 1);
    assert_eq!(stats.misses, 1);
}

#[test]
fn test_cache_invalid_not_stored() {
    let mut cache = VerificationCache::new();
    let hash = [2u8; 32];

    cache.cache_bulletproof(hash, false, 0);
    assert!(cache.check_bulletproof(&hash, 0).is_none());
}

#[test]
fn test_proof_cache_key() {
    let proof1 = [1u8; 64];
    let proof2 = [2u8; 64];
    let commitment = [0u8; 32];

    let key1 = proof_cache_key(&proof1, &commitment);
    let key2 = proof_cache_key(&proof2, &commitment);

    assert_ne!(key1, key2);

    assert_eq!(key1, proof_cache_key(&proof1, &commitment));
}

#[test]
fn ring_sig_statement_cache_key_commits_to_every_field() {
    let message = b"message";
    let signature = b"signature";
    let ring = b"ring";
    let pseudo_output = [7u8; 32];
    let baseline = ring_sig_statement_cache_key(message, signature, ring, &pseudo_output);

    assert_eq!(baseline, ring_sig_statement_cache_key(message, signature, ring, &pseudo_output));
    assert_ne!(
        baseline,
        ring_sig_statement_cache_key(b"other-message", signature, ring, &pseudo_output)
    );
    assert_ne!(
        baseline,
        ring_sig_statement_cache_key(message, b"other-signature", ring, &pseudo_output)
    );
    assert_ne!(
        baseline,
        ring_sig_statement_cache_key(message, signature, b"other-ring", &pseudo_output)
    );

    let mut other_pseudo_output = pseudo_output;
    other_pseudo_output[0] ^= 1;
    assert_ne!(
        baseline,
        ring_sig_statement_cache_key(message, signature, ring, &other_pseudo_output)
    );
}

#[test]
fn test_cache_eviction() {
    let mut cache = VerificationCache::new();

    for i in 0..=(MAX_CACHE_SIZE) {
        let mut hash = [0u8; 32];
        hash[..8].copy_from_slice(&(i as u64).to_le_bytes());
        cache.cache_bulletproof(hash, true, i as u64);
    }

    let stats = cache.stats();
    assert!(
        stats.bulletproof_entries <= MAX_CACHE_SIZE,
        "Cache should not exceed max: got {}",
        stats.bulletproof_entries
    );
    // The oldest entry went; the newest stayed.
    let now = MAX_CACHE_SIZE as u64;
    assert!(cache.check_bulletproof(&[0u8; 32], now).is_none());
    let mut newest = [0u8; 32];
    newest[..8].copy_from_slice(&now.to_le_bytes());
    assert_eq!(cache.check_bulletproof(&newest, now), Some(true));
}

#[test]
fn the_tables_are_separate_and_clear_together() {
    let mut cache = VerificationCache::new();
    let key = ring_sig_cache_key(b"m", b"s");
    cache.cache_ring_sig(key, true, 5);
    assert_eq!(cache.check_ring_sig(&key, 5), Some(true));
    assert!(cache.check_bulletproof(&key, 5).is_none());
    cache.clear();
    assert!(cache.check_ring_sig(&key, 5).is_none());
    assert_eq!(cache.stats().ring_sig_entries, 0);
}

#[test]
fn a_lookup_does_not_look_at_the_age() {
    let mut cache = VerificationCache::new();
    cache.cache_bulletproof([3u8; 32], true, 0);
    assert_eq!(cache.check_bulletproof(&[3u8; 32], 100_000_000), Some(true));
    assert_eq!(cache.stats().bulletproof_entries, 1);
}
