use coincync::curve::generator_h;
use coincync::error::Error;
use coincync::group::{RistrettoPoint, Scalar};
use coincync::lelantus_spark::{prove_spark_spend, spark_commit, spark_pubkey, SparkNote};
use coincync::mw_cutthrough::{build_signed_kernel, MwKernel};
use coincync::primitives::NetworkType;
use coincync::privacy_connector::{
    connect_mw_kernels, connect_recovery_sweep, connect_shielded_note, connect_shielded_spend,
    connect_spark_spend, convert_value, privacy_feature_registry, ConnectorGate, FeatureStatus,
    Scheme, CONNECTOR_AUDITED,
};
use coincync::storage::{
    KernelStore, NoteCommitmentEntry, RecoveryMeta, ShieldedStore, SparkStore,
};
use rand::rngs::OsRng;
use rand::RngCore;

fn regtest_active() -> ConnectorGate {
    ConnectorGate::new(NetworkType::Regtest, 100, Some(50))
}

fn rnd() -> Scalar {
    let mut b = [0u8; 64];
    OsRng.fill_bytes(&mut b);
    Scalar::from_bytes_mod_order_wide(&b)
}

#[test]
fn inert_on_mainnet_without_audit() {
    let g = ConnectorGate::new(NetworkType::Mainnet, 1000, Some(1));
    assert!(g.check(Scheme::MwCutThrough).is_err(), "mainnet must be inert while unaudited");
    assert!(!CONNECTOR_AUDITED);
}

#[test]
fn inert_without_activation_height() {
    let g = ConnectorGate::new(NetworkType::Regtest, 1000, None);
    assert!(g.check(Scheme::MwCutThrough).is_err(), "no activation height => inert");
}

#[test]
fn inert_below_activation_height() {
    let g = ConnectorGate::new(NetworkType::Regtest, 10, Some(50));
    assert!(g.check(Scheme::MwCutThrough).is_err(), "below activation height => inert");
}

#[test]
fn kill_switch_refuses_everything() {
    let mut g = regtest_active();
    assert!(g.check(Scheme::MwCutThrough).is_ok());
    g.kill();
    assert!(g.check(Scheme::MwCutThrough).is_err(), "kill switch must refuse");
    assert!(g.is_killed());
}

#[test]
fn rate_limit_caps_ops_per_block() {
    let mut g = regtest_active().with_max_ops_per_block(2);
    assert!(g.admit_op(Scheme::MwCutThrough).is_ok());
    assert!(g.admit_op(Scheme::MwCutThrough).is_ok());
    assert!(g.admit_op(Scheme::MwCutThrough).is_err(), "3rd op exceeds cap");
    g.reset_block();
    assert!(g.admit_op(Scheme::MwCutThrough).is_ok(), "cap resets per block");
}

#[test]
fn refusals_say_why() {
    let texts = |r: Result<(), Error>| match r {
        Err(Error::InvalidState(t)) => t,
        _ => panic!("not a state error"),
    };
    let mut g = regtest_active().with_max_ops_per_block(0);
    assert_eq!(
        texts(g.admit_op(Scheme::Shielded)),
        "privacy connector: per-block op cap 0 reached for this block"
    );
    g.kill();
    assert_eq!(
        texts(g.check(Scheme::Shielded)),
        "privacy connector: kill switch engaged — all operations refused"
    );
    let low = ConnectorGate::new(NetworkType::Testnet, 10, Some(50));
    assert_eq!(
        texts(low.check(Scheme::LelantusSpark)),
        "privacy connector: 'lelantus-spark' not active until height 50 (current 10)"
    );
    let none = ConnectorGate::new(NetworkType::Testnet, 10, None);
    assert_eq!(
        texts(none.check(Scheme::DeadMansSwitch)),
        "privacy connector: 'dead-mans-switch' has no activation height configured — inert"
    );
    let main = ConnectorGate::new(NetworkType::Mainnet, 10, Some(1));
    assert_eq!(
        texts(main.check(Scheme::MwCutThrough)),
        "privacy connector: 'mw-cut-through' is INERT on mainnet — the hand-rolled ZK awaits external audit (CONNECTOR_AUDITED=false)"
    );
}

#[test]
fn value_converter_is_disabled_until_audited() {
    let g = regtest_active();
    let err = convert_value(&g, Scheme::MwCutThrough, 100, 100);
    assert!(err.is_err(), "converter must be disabled while CONNECTOR_AUDITED=false");
    assert!(matches!(err, Err(Error::NotImplemented(_))));
}

#[test]
fn connect_mw_kernels_accepts_valid_rejects_inflation() {
    let mut g = regtest_active();
    let mut store = KernelStore::new();

    let r = Scalar::from_u64(7);
    let good = build_signed_kernel(&[r], &[r], 1000, 10);
    assert!(connect_mw_kernels(&mut g, &mut store, &[good]).is_ok());
    assert_eq!(store.len(), 1);

    let h = generator_h();
    let hidden = Scalar::from_u64(5);
    let bad = vec![
        MwKernel {
            excess: h.mul(&Scalar::from_u64(10).add(&hidden)).compress(),
            signature: vec![],
            fee: 10,
            height: 1,
        },
        MwKernel {
            excess: h.mul(&Scalar::from_u64(20).sub(&hidden)).compress(),
            signature: vec![],
            fee: 20,
            height: 2,
        },
    ];
    assert!(
        connect_mw_kernels(&mut g, &mut store, &bad).is_err(),
        "connector must reject hidden-value inflation"
    );
    assert_eq!(store.len(), 1);
}

#[test]
fn connect_shielded_note_and_nullifier_double_spend() {
    let mut g = regtest_active();
    let mut store = ShieldedStore::new();
    let entry = NoteCommitmentEntry { commitment: [1u8; 32], height: 5, tx_index: 0, position: 0 };
    assert!(connect_shielded_note(&mut g, &mut store, entry).is_ok());
    assert_eq!(connect_shielded_note(&mut g, &mut store, entry), Ok(1));

    let nf = [9u8; 32];
    assert!(connect_shielded_spend(&mut g, &mut store, nf).is_ok());
    assert!(
        connect_shielded_spend(&mut g, &mut store, nf).is_err(),
        "connector must reject the shielded double-spend via the nullifier set"
    );
    assert!(connect_shielded_spend(&mut g, &mut store, [8u8; 32]).is_ok());
}

#[test]
fn connect_recovery_sweep_gates_on_address_and_timeout() {
    let mut g = regtest_active();
    let addr = [7u8; 32];
    let meta = RecoveryMeta { output_index: 0, recovery_address: addr, timeout_blocks: 720 };
    assert!(connect_recovery_sweep(&mut g, &meta, 100, 1000, [1u8; 32]).is_err());
    assert!(connect_recovery_sweep(&mut g, &meta, 1000, 1050, addr).is_err());
    assert!(connect_recovery_sweep(&mut g, &meta, 100, 100 + 720, addr).is_ok());
}

#[test]
fn registry_reports_every_feature() {
    let g = ConnectorGate::new(NetworkType::Mainnet, 1000, Some(1));
    let reg = privacy_feature_registry(&g);
    assert_eq!(reg.len(), 10, "registry must cover all privacy features");
    let by = |n: &str| reg.iter().find(|f| f.name == n).unwrap().status;
    assert_eq!(by("decoy-defense"), FeatureStatus::Active);
    assert_eq!(by("encrypted-memos"), FeatureStatus::Active);
    assert_eq!(by("traffic-shaping"), FeatureStatus::Active);
    assert_eq!(by("deniable-wallets"), FeatureStatus::Disabled);
    assert_eq!(by("lelantus-spark"), FeatureStatus::GatedInert);
    assert_eq!(by("mw-cut-through"), FeatureStatus::GatedInert);
    assert_eq!(by("shielded-pool"), FeatureStatus::GatedInert);
    assert_eq!(by("dead-mans-switch"), FeatureStatus::GatedInert);
}

#[test]
fn registry_shows_gated_schemes_active_when_admitted() {
    let g = regtest_active();
    let reg = privacy_feature_registry(&g);
    let by = |n: &str| reg.iter().find(|f| f.name == n).unwrap().status;
    assert_eq!(by("mw-cut-through"), FeatureStatus::Active);
    assert_eq!(by("shielded-pool"), FeatureStatus::Active);
    assert_eq!(by("dead-mans-switch"), FeatureStatus::Active);
    assert_eq!(by("decoy-defense"), FeatureStatus::Active);
}

#[test]
fn connect_spark_spend_detects_double_spend() {
    let value = 1000u64;
    let randomness = rnd();
    let n = 4usize;
    let real_index = 1usize;
    let real_serial = rnd();
    let anon: Vec<RistrettoPoint> = (0..n)
        .map(|i| {
            let serial = if i == real_index { real_serial } else { rnd() };
            spark_commit(value, &serial, &randomness)
        })
        .collect();
    let pubkeys: Vec<RistrettoPoint> =
        anon.iter().map(|c| spark_pubkey(c, value, &randomness)).collect();
    let note = SparkNote {
        commitment: anon[real_index].compress(),
        value,
        serial: real_serial.to_bytes(),
        randomness: randomness.to_bytes(),
        diversifier: [0u8; 11],
        height: 1,
        coin_id: real_index as u64,
    };
    let indices: Vec<u64> = (0..n as u64).collect();
    let msg = [9u8; 32];
    let nonces: Vec<Scalar> = (0..n).map(|_| rnd()).collect();
    let proof = prove_spark_spend(&note, &anon, &indices, real_index, &msg, &nonces).unwrap();

    let mut g = regtest_active();
    let mut store = SparkStore::new();
    assert!(connect_spark_spend(&mut g, &mut store, &proof, &pubkeys).is_ok());
    assert!(
        connect_spark_spend(&mut g, &mut store, &proof, &pubkeys).is_err(),
        "connector must reject the double-spend via the serial-tag nullifier"
    );
}
