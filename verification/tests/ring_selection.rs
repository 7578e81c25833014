use coincync::error::Error;
use coincync::primitives::PublicKey;
use coincync::ring_selection::{OutputRef, RingSelectionConfig, RingSelectionPool, RingSelector};
use rand::rngs::StdRng;
use rand::{Rng, RngCore, SeedableRng};

fn seed(rng: &mut StdRng) -> [u8; 32] {
    let mut bytes = [0u8; 32];
    rng.fill_bytes(&mut bytes);
    bytes
}

#[derive(Clone)]
struct OwnedOutput {
    height: u64,
    public_key: PublicKey,
    commitment: [u8; 32],
}

impl OwnedOutput {
    fn as_ref(&self) -> OutputRef<'_> {
        OutputRef::new(self.height, &self.public_key, &self.commitment)
    }
}

fn make_output(height: u64, index: u64) -> OwnedOutput {
    let mut bytes = [0u8; 32];
    bytes[..8].copy_from_slice(&index.to_le_bytes());
    OwnedOutput { height, public_key: PublicKey::from_bytes(bytes), commitment: bytes }
}

fn output_pool(outputs: &[OwnedOutput]) -> RingSelectionPool<'_> {
    let refs: Vec<OutputRef<'_>> = outputs.iter().map(OwnedOutput::as_ref).collect();
    RingSelectionPool::new(&refs)
}

/// The finding on the age of the real output, if it lies far from the others.
fn outlier(ring: &[OutputRef<'_>], real_index: usize, current_height: u64) -> Option<String> {
    let ages: Vec<f64> =
        ring.iter().map(|o| current_height.saturating_sub(o.height) as f64).collect();
    let n = ages.len() as f64;
    let avg = ages.iter().sum::<f64>() / n;
    let variance = ages.iter().map(|a| (a - avg) * (a - avg)).sum::<f64>() / n;
    let z = (ages[real_index] - avg) / variance.sqrt().max(1.0);
    if z.abs() > 2.5 {
        Some(format!(
            "Real output age ({}) is statistical outlier (z-score: {:.2})",
            ages[real_index], z
        ))
    } else {
        None
    }
}

#[test]
fn test_ring_selection() {
    let mut rng = StdRng::seed_from_u64(1);
    let selector = RingSelector::with_ring_size(11);
    let current_height = 100_000;

    let pool_storage: Vec<OwnedOutput> =
        (0..1000).map(|i| make_output(current_height - (i * 100), i)).collect();
    let pool = output_pool(&pool_storage);

    let real_output = make_output(current_height - 50, 9999);

    let (decoys, real_position, stats) = selector
        .select_decoys(&real_output.public_key, real_output.height, &pool, current_height, seed(&mut rng))
        .unwrap();

    assert_eq!(decoys.len(), 10);
    assert!(real_position < 11);
    assert_eq!(stats.decoys_selected, 10);
    assert!(decoys
        .iter()
        .all(|output| { output.public_key.as_bytes() != real_output.public_key.as_bytes() }));
    let unique_public_keys = decoys
        .iter()
        .map(|output| *output.public_key.as_bytes())
        .collect::<std::collections::HashSet<_>>();
    assert_eq!(unique_public_keys.len(), decoys.len());
    let total: u128 = decoys.iter().map(|o| (current_height - o.height) as u128).sum();
    assert_eq!(stats.age_total, total);
    assert_eq!(stats.age_distribution.iter().sum::<u32>(), 10);
}

#[test]
fn test_ring_quality_check() {
    let selector = RingSelector::with_ring_size(11);
    let current_height = 100_000;

    let ring_storage: Vec<OwnedOutput> =
        (0..11).map(|i| make_output(current_height - (i * 1000), i)).collect();
    let ring = output_pool(&ring_storage);

    let found = outlier(ring.outputs(), 5, current_height);
    let report = selector.verify_ring_quality(ring.outputs(), 5, current_height, found);
    assert!(report.ring_size == 11);
    assert!(report.is_valid);
    assert_eq!(report.real_age, 5000);
    assert_eq!(
        report.summary("5000", "1.00"),
        "Ring OK: 11 members, avg age 5000 blocks, dist score 1.00"
    );
}

#[test]
fn test_ring_assembly_is_uniform_over_supplied_pool() {
    let mut rng = StdRng::seed_from_u64(2);
    let selector = RingSelector::with_ring_size(11);
    let current_height = 200_000;

    let pool_storage: Vec<OwnedOutput> =
        (0..10_000).map(|i| make_output(current_height - (i * 10), i)).collect();
    let pool = output_pool(&pool_storage);

    let real_output = make_output(current_height - 5, 99999);

    let mut recent = 0usize;
    let mut total_decoys = 0usize;
    for _ in 0..50 {
        let (decoys, _, _) = selector
            .select_decoys(&real_output.public_key, real_output.height, &pool, current_height, seed(&mut rng))
            .unwrap();
        for member in decoys {
            total_decoys += 1;
            if member.height > current_height - 10_000 {
                recent += 1;
            }
        }
    }
    let recent_ratio = recent as f64 / total_decoys as f64;
    assert!(
        recent_ratio < 0.25,
        "ring assembly added an age bias: got {:.2}% recent",
        recent_ratio * 100.0
    );
}

#[test]
fn duplicate_public_keys_pool_rejected_structurally() {
    let mut rng = StdRng::seed_from_u64(3);
    let selector = RingSelector::with_ring_size(11);
    let current_height = 100_000;
    let mut pool_storage = Vec::new();
    for i in 0u64..3 {
        for _ in 0..5 {
            pool_storage.push(make_output(current_height - 1_000 - i, i));
        }
    }
    let pool = output_pool(&pool_storage);
    let real_output = make_output(current_height - 50, 9999);

    let result = selector.select_decoys(
        &real_output.public_key,
        real_output.height,
        &pool,
        current_height,
        seed(&mut rng),
    );

    assert!(matches!(result, Err(Error::InvalidRingSize { expected: 10, got: 3 })));
}

#[test]
fn full_public_key_distinguishes_shared_u64_prefixes() {
    let mut rng = StdRng::seed_from_u64(4);
    let selector = RingSelector::with_ring_size(11);
    let current_height = 100_000;
    let pool_storage: Vec<OwnedOutput> = (0u64..10)
        .map(|suffix| {
            let mut bytes = [0x5a; 32];
            bytes[8..16].copy_from_slice(&suffix.to_le_bytes());
            OwnedOutput {
                height: current_height - 1_000,
                public_key: PublicKey::from_bytes(bytes),
                commitment: bytes,
            }
        })
        .collect();
    let pool = output_pool(&pool_storage);
    let real_output = make_output(current_height - 50, 9999);

    let (decoys, _, _) = selector
        .select_decoys(&real_output.public_key, real_output.height, &pool, current_height, seed(&mut rng))
        .unwrap();

    assert_eq!(decoys.len(), 10);
}

#[test]
fn select_decoys_rejects_ring_size_below_two() {
    let mut rng = StdRng::seed_from_u64(10);
    let current_height = 100_000;
    let pool_storage: Vec<OwnedOutput> =
        (0u64..20).map(|i| make_output(current_height - 1_000, i)).collect();
    let pool = output_pool(&pool_storage);
    let real_output = make_output(current_height - 50, 9999);

    let zero = RingSelector::with_ring_size(0);
    let r0 =
        zero.select_decoys(&real_output.public_key, real_output.height, &pool, current_height, seed(&mut rng));
    assert!(matches!(r0, Err(Error::InvalidRingSize { expected: 2, got: 0 })));

    let one = RingSelector::with_ring_size(1);
    let r1 =
        one.select_decoys(&real_output.public_key, real_output.height, &pool, current_height, seed(&mut rng));
    assert!(matches!(r1, Err(Error::InvalidRingSize { expected: 2, got: 1 })));
}

#[test]
fn select_decoys_errs_when_eligible_below_decoy_count_after_age_filter() {
    let mut rng = StdRng::seed_from_u64(11);
    let selector = RingSelector::with_ring_size(11);
    let current_height = 100_000;
    let pool_storage: Vec<OwnedOutput> =
        (0u64..15).map(|i| make_output(current_height, i)).collect();
    let pool = output_pool(&pool_storage);
    let real_output = make_output(current_height - 1_000, 9999);

    let result = selector.select_decoys(
        &real_output.public_key,
        real_output.height,
        &pool,
        current_height,
        seed(&mut rng),
    );
    assert!(matches!(result, Err(Error::InvalidRingSize { expected: 10, got: 0 })));
}

#[test]
fn select_decoys_young_real_output_relaxes_effective_min_age() {
    let mut rng = StdRng::seed_from_u64(12);
    let selector = RingSelector::with_ring_size(11);
    let current_height = 100_000;
    let pool_storage: Vec<OwnedOutput> =
        (0u64..15).map(|i| make_output(current_height - 5, i)).collect();
    let pool = output_pool(&pool_storage);

    let young_real = make_output(current_height - 2, 9999);
    let (decoys, real_position, stats) = selector
        .select_decoys(&young_real.public_key, young_real.height, &pool, current_height, seed(&mut rng))
        .unwrap();
    assert_eq!(decoys.len(), 10);
    assert!(real_position < 11);
    assert_eq!(stats.decoys_selected, 10);

    let old_real = make_output(current_height - 10_000, 8888);
    let contrast =
        selector.select_decoys(&old_real.public_key, old_real.height, &pool, current_height, seed(&mut rng));
    assert!(matches!(contrast, Err(Error::InvalidRingSize { expected: 10, got: 0 })));
}

#[test]
fn is_eligible_decoy_enforces_min_and_max_age_bounds() {
    let config =
        RingSelectionConfig { target_ring_size: 11, min_decoy_age: 10, max_decoy_age: 100 };
    let selector = RingSelector::new(config);
    let current_height = 1_000;
    let real = make_output(current_height - 50, 9999);
    let effective_min_age = 10;

    let at_min = make_output(current_height - 10, 1);
    let below_min = make_output(current_height - 9, 2);
    assert!(selector.is_eligible_decoy(
        &at_min.as_ref(),
        &real.public_key,
        current_height,
        effective_min_age
    ));
    assert!(!selector.is_eligible_decoy(
        &below_min.as_ref(),
        &real.public_key,
        current_height,
        effective_min_age
    ));

    let at_max = make_output(current_height - 100, 3);
    let above_max = make_output(current_height - 101, 4);
    assert!(selector.is_eligible_decoy(
        &at_max.as_ref(),
        &real.public_key,
        current_height,
        effective_min_age
    ));
    assert!(!selector.is_eligible_decoy(
        &above_max.as_ref(),
        &real.public_key,
        current_height,
        effective_min_age
    ));

    let real_as_decoy = make_output(current_height - 50, 9999);
    assert!(!selector.is_eligible_decoy(
        &real_as_decoy.as_ref(),
        &real.public_key,
        current_height,
        effective_min_age
    ));
}

#[test]
fn verify_ring_quality_flags_real_age_outlier() {
    let selector = RingSelector::with_ring_size(11);
    let current_height = 1_000_000;
    let mut ring_storage: Vec<OwnedOutput> =
        (0u64..10).map(|i| make_output(current_height - (1_000 + i), i)).collect();
    ring_storage.push(make_output(current_height - 900_000, 100));
    let ring = output_pool(&ring_storage);
    let real_index = ring.outputs().len() - 1;

    let found = outlier(ring.outputs(), real_index, current_height);
    let report = selector.verify_ring_quality(ring.outputs(), real_index, current_height, found);
    assert!(!report.is_valid);
    assert!(report.issues.iter().any(|issue| issue.contains("outlier")));
}

#[test]
fn verify_ring_quality_flags_duplicate_commitment() {
    let selector = RingSelector::with_ring_size(11);
    let current_height = 100_000;
    let mut ring_storage: Vec<OwnedOutput> =
        (0u64..11).map(|i| make_output(current_height - (1_000 + i * 10), i)).collect();
    let shared = ring_storage[0].commitment;
    ring_storage[1].commitment = shared;
    let ring = output_pool(&ring_storage);

    let found = outlier(ring.outputs(), 0, current_height);
    let report = selector.verify_ring_quality(ring.outputs(), 0, current_height, found);
    assert!(!report.is_valid);
    assert!(report.issues.iter().any(|issue| issue.contains("Duplicate commitment")));
    assert_eq!(
        report.summary("", ""),
        "Ring ISSUES: 1 problems - Duplicate commitment in ring"
    );
}

#[test]
fn an_empty_ring_is_an_issue() {
    let selector = RingSelector::with_ring_size(11);
    let report = selector.verify_ring_quality(&[], 0, 5, None);
    assert_eq!(report.issues, vec!["Empty ring".to_string()]);
    assert!(!report.is_valid);
}

#[test]
fn decoys_differ_from_draw_to_draw() {
    let mut rng = StdRng::seed_from_u64(7);
    let selector = RingSelector::with_ring_size(11);
    let current_height = 100_000;
    let storage: Vec<OwnedOutput> =
        (0..500).map(|i| make_output(current_height - 100 - i, i)).collect();
    let pool = output_pool(&storage);
    let real = make_output(current_height - 50, 9999);
    let (a, _, _) =
        selector.select_decoys(&real.public_key, real.height, &pool, current_height, seed(&mut rng)).unwrap();
    let (b, _, _) =
        selector.select_decoys(&real.public_key, real.height, &pool, current_height, seed(&mut rng)).unwrap();
    assert_ne!(a, b);
}

#[test]
fn a_lonely_age_is_advised_against() {
    let selector = RingSelector::with_ring_size(11);
    let current_height = 100_000;
    let old: Vec<OwnedOutput> =
        (0..20).map(|i| make_output(current_height - 5_000 - i, i)).collect();
    let real = make_output(current_height - 50, 9999);
    let pool = output_pool(&old);
    assert_eq!(
        selector.age_advisory(&real.public_key, real.height, &pool, current_height),
        Some((0, 3))
    );
    let mut near = old.clone();
    near.push(make_output(current_height - 47, 100));
    near.push(make_output(current_height - 53, 101));
    near.push(make_output(current_height - 54, 102));
    let pool = output_pool(&near);
    assert_eq!(
        selector.age_advisory(&real.public_key, real.height, &pool, current_height),
        Some((2, 3))
    );
    near.push(make_output(current_height - 50, 103));
    let pool = output_pool(&near);
    assert_eq!(
        selector.age_advisory(&real.public_key, real.height, &pool, current_height),
        None
    );
}

#[test]
fn a_ring_beyond_every_pool_is_refused() {
    let mut rng = StdRng::seed_from_u64(7);
    let selector = RingSelector::with_ring_size(usize::MAX);
    let storage = [make_output(1, 1)];
    let pool = output_pool(&storage);
    let real = make_output(1, 2);
    let result = selector.select_decoys(&real.public_key, real.height, &pool, 100, seed(&mut rng));
    assert!(matches!(result, Err(Error::InvalidRingSize { expected, got: 1 })
        if expected == usize::MAX - 1));
}

#[test]
fn the_same_seed_draws_the_same_ring() {
    let selector = RingSelector::with_ring_size(11);
    let current_height = 100_000;
    let storage: Vec<OwnedOutput> =
        (0..500).map(|i| make_output(current_height - 100 - i, i)).collect();
    let pool = output_pool(&storage);
    let real = make_output(current_height - 50, 9999);
    let ring = |seed: [u8; 32]| {
        let (decoys, position, _) = selector
            .select_decoys(&real.public_key, real.height, &pool, current_height, seed)
            .unwrap();
        (decoys.iter().map(|o| o.height).collect::<Vec<u64>>(), position)
    };
    assert_eq!(ring([1; 32]), ring([1; 32]));
    assert_ne!(ring([1; 32]), ring([2; 32]));

    // All outputs are eligible, so the ring is what one generator draws.
    let mut rng = StdRng::from_seed([1; 32]);
    let places = rand::seq::index::sample(&mut rng, 500, 10).into_vec();
    let heights: Vec<u64> = places.iter().map(|i| current_height - 100 - *i as u64).collect();
    assert_eq!(ring([1; 32]), (heights, rng.gen_range(0..11u64) as usize));
}
