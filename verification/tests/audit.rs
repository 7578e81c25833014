use coincync::audit::{
    audit_block, BlockAudit, BlockSupplyDelta, SupplySnapshot, SupplyState,
};
use coincync::constants::{FEE_BURN_CONGESTED_PERCENT, FEE_BURN_NORMAL_PERCENT};
use coincync::error::Error;
use coincync::primitives::Amount;

#[test]
fn test_supply_state() {
    let mut state = SupplyState::genesis();
    assert_eq!(state.circulating(), 0);
    state.apply_block(1_000_000, 100_000, 1);
    assert_eq!(state.circulating(), 900_000);
}

#[test]
fn test_supply_proof() {
    let mut state = SupplyState::genesis();
    state.apply_block(5_000_000, 500_000, 100);
    let proof = SupplySnapshot::from_state(&state);
    assert!(proof.verify());
}

#[test]
fn test_multi_block_accumulation() {
    let mut state = SupplyState::genesis();
    state.apply_block(1_000_000, 0, 1);
    assert_eq!(state.total_minted, 1_000_000);
    state.apply_block(2_000_000, 100_000, 2);
    assert_eq!(state.total_minted, 3_000_000);
    assert_eq!(state.circulating(), 2_900_000);
}

#[test]
fn test_supply_state_preserves_values_above_u64_max() {
    let mut state = SupplyState {
        total_minted: u128::from(u64::MAX) - 5,
        total_burned: u128::from(u64::MAX) - 100,
        ..SupplyState::genesis()
    };
    state.apply_block(200, 150, 1);
    assert_eq!(state.total_minted, u128::from(u64::MAX) + 195);
    assert_eq!(state.total_burned, u128::from(u64::MAX) + 50);
    assert_eq!(state.circulating(), 145);

    let encoded = state.encode();
    let decoded = SupplyState::from_bytes(&encoded).expect("deserialize supply state");
    assert_eq!(decoded.total_minted, state.total_minted);
    assert_eq!(decoded.total_burned, state.total_burned);

    let snapshot = SupplySnapshot::from_state(&state);
    assert_eq!(snapshot.total_minted, state.total_minted);
    assert_eq!(snapshot.total_burned, state.total_burned);
    assert!(snapshot.verify());
}

#[test]
fn test_block_audit_accepts_circulating_supply_above_u64_max() {
    let total_fees = 1_000u64;
    let burned = total_fees * FEE_BURN_NORMAL_PERCENT / 100;
    let before = SupplyState {
        total_minted: u128::from(u64::MAX) - 100,
        ..SupplyState::genesis()
    };
    let mut after = before.clone();
    after.apply_block(1_000, burned, 1);

    let audit = audit_block(
        1,
        Amount::from_atomic(total_fees),
        Amount::from_atomic(1_000),
        Amount::from_atomic(1_000),
        true,
        false,
        &before,
        &after,
    );

    assert!(after.circulating() > u128::from(u64::MAX));
    assert!(audit.is_valid(), "{}", audit.summary());
}

#[test]
fn test_supply_proof_tamper() {
    let mut state = SupplyState::genesis();
    state.apply_block(1_000_000, 50_000, 5);
    let mut proof = SupplySnapshot::from_state(&state);
    assert!(proof.verify());
    proof.total_minted += 1;
    assert!(!proof.verify());
}

#[test]
fn test_supply_proof_circulating_tamper_rejected() {
    let mut state = SupplyState::genesis();
    state.apply_block(1_000_000, 50_000, 5);
    let mut proof = SupplySnapshot::from_state(&state);
    assert!(proof.verify(), "clean proof should verify");
    proof.circulating = proof.circulating.saturating_add(1);
    assert!(!proof.verify(), "verify() must reject inconsistent circulating");
}

#[test]
fn audit_lists_every_issue_in_order() {
    let before = SupplyState { total_minted: 1_000, ..SupplyState::genesis() };
    let after = SupplyState { total_minted: 1_500, height: 9, ..SupplyState::genesis() };
    let audit = audit_block(
        7,
        Amount::from_atomic(100),
        Amount::from_atomic(90),
        Amount::from_atomic(200),
        false,
        true,
        &before,
        &after,
    );
    let expected = 1_000 + 100 - 200 * FEE_BURN_CONGESTED_PERCENT / 100;
    assert_eq!(
        audit.issues,
        vec![
            "Emission mismatch: got 100, expected 90".to_string(),
            "Fee distribution invalid".to_string(),
            "Supply height mismatch: expected 7, got 9".to_string(),
            format!("Supply mismatch: expected {}, got 1500", expected),
        ]
    );
    assert!(!audit.supply_valid && !audit.fees_valid && !audit.emission_valid);
    assert!(!audit.is_valid());
}

#[test]
fn summary_texts() {
    let ok = BlockAudit {
        height: 12,
        supply_valid: true,
        fees_valid: true,
        emission_valid: true,
        issues: vec![],
    };
    assert_eq!(ok.summary(), "Block 12 audit: PASSED");
    let bad = BlockAudit {
        height: 120,
        supply_valid: false,
        fees_valid: true,
        emission_valid: true,
        issues: vec!["one".to_string(), "two".to_string()],
    };
    assert_eq!(bad.summary(), "Block 120 audit: FAILED - one, two");
}

#[test]
fn supply_commitment_binds_both_totals() {
    let mut a = SupplyState::genesis();
    let mut b = SupplyState::genesis();
    a.apply_block(10, 5, 1);
    b.apply_block(10, 6, 1);
    assert_ne!(a.supply_commitment, b.supply_commitment);
    assert_ne!(a.supply_commitment, [0u8; 32]);
    assert!(a.verify(5));
    assert!(!a.verify(6));
}

#[test]
fn state_wire_refuses_other_lengths() {
    let state = SupplyState::genesis();
    let mut bytes = state.encode();
    assert_eq!(bytes.len(), 72);
    bytes.push(0);
    assert_eq!(
        SupplyState::from_bytes(&bytes),
        Err(Error::SerializationError("Not all bytes read".to_string()))
    );
    assert_eq!(
        SupplyState::from_bytes(&bytes[..71]),
        Err(Error::SerializationError("Unexpected length of input".to_string()))
    );
}

#[test]
fn block_delta_clamps() {
    let d = BlockSupplyDelta::new(3, Amount::from_atomic(10), Amount::from_atomic(25));
    assert_eq!(d.net_change, -15);
    let high = BlockSupplyDelta::new(3, Amount::from_atomic(u64::MAX), Amount::from_atomic(0));
    assert_eq!(high.net_change, i64::MAX);
    let low = BlockSupplyDelta::new(3, Amount::from_atomic(0), Amount::from_atomic(u64::MAX));
    assert_eq!(low.net_change, i64::MIN);
    assert_eq!((low.emission, low.burned, low.height), (0, u64::MAX, 3));
}

#[test]
fn a_reading_with_more_burned_than_minted_is_refused() {
    let state =
        SupplyState { total_minted: 5, total_burned: 6, ..SupplyState::genesis() };
    let reading = SupplySnapshot::from_state(&state);
    assert_eq!(reading.circulating, 0);
    assert!(!reading.verify());

    let even = SupplyState { total_minted: 6, total_burned: 6, ..SupplyState::genesis() };
    let mut reading = SupplySnapshot::from_state(&even);
    assert!(reading.verify());
    reading.circulating = 1;
    assert!(!reading.verify());
}
