use coincync::group::Scalar;
use coincync::shielded_spend::bound_coin_commitment;
use coincync::spark_generators::{gen_g, gen_gv, gen_h, gen_k, gen_kv};
use coincync::spark_note::{
    derive_note, spend_serial, NoteConnector, NoteScanKey, SparkAddr2, SparkNoteConnector,
};
use rand::{RngCore, SeedableRng};
use rand_chacha::ChaCha20Rng;

fn scalar(rng: &mut ChaCha20Rng) -> Scalar {
    let mut e = [0u8; 64];
    rng.fill_bytes(&mut e);
    Scalar::from_bytes_mod_order_wide(&e)
}

fn recipient(seed: u64) -> (Scalar, Scalar, SparkAddr2, NoteScanKey) {
    let mut rng = ChaCha20Rng::seed_from_u64(seed);
    let scan_secret = scalar(&mut rng);
    let spend_secret = scalar(&mut rng);
    let addr = SparkAddr2::from_secrets([seed as u8; 11], &scan_secret, &spend_secret);
    let scan_key = NoteScanKey::new(scan_secret, addr.q_spend);
    (scan_secret, spend_secret, addr, scan_key)
}

#[test]
fn create_scan_round_trip_recovers_value_and_openings() {
    let mut rng = ChaCha20Rng::seed_from_u64(100);
    let (_ss, spend_secret, addr, scan_key) = recipient(1);
    let c = SparkNoteConnector;

    let value = 4_242_000u64;
    let note = c.create(&addr, value, &scalar(&mut rng)).unwrap();
    let rec = c.scan(&scan_key, &note).expect("owner recovers its note");

    assert_eq!(rec.value, value);
    let s_full = spend_serial(&rec, &spend_secret);
    let coin = bound_coin_commitment(value, &s_full, &rec.coin_blinding).compress();
    assert_eq!(coin, note.coin, "opening must reproduce the tree coin");
}

#[test]
fn wrong_recipient_does_not_detect() {
    let mut rng = ChaCha20Rng::seed_from_u64(101);
    let (_s, _sp, addr, _key) = recipient(2);
    let (_s2, _sp2, _addr2, other_key) = recipient(3);
    let c = SparkNoteConnector;

    let note = c.create(&addr, 999u64, &scalar(&mut rng)).unwrap();
    assert!(c.scan(&other_key, &note).is_none(), "stranger must not detect");
}

#[test]
fn tampered_amount_is_rejected_by_coin_check() {
    let mut rng = ChaCha20Rng::seed_from_u64(102);
    let (_s, _sp, addr, scan_key) = recipient(4);
    let c = SparkNoteConnector;

    let mut note = c.create(&addr, 7_000_000u64, &scalar(&mut rng)).unwrap();
    note.enc_value[0] ^= 0x01;
    assert!(c.scan(&scan_key, &note).is_none(), "amount binding must hold");
}

#[test]
fn derive_note_is_deterministic() {
    let ss = [7u8; 32];
    let q_spend = [9u8; 32];
    let a = derive_note(&ss, &q_spend);
    let b = derive_note(&ss, &q_spend);
    assert_eq!(a.view_tag, b.view_tag);
    assert_eq!(a.amount_pad, b.amount_pad);
    assert_eq!(a.coin_blinding, b.coin_blinding);
    assert_eq!(a.serial_public, b.serial_public);
}

#[test]
fn view_only_key_recovers_but_cannot_form_spendable_serial() {
    let mut rng = ChaCha20Rng::seed_from_u64(103);
    let (_s, spend_secret, addr, scan_key) = recipient(5);
    let c = SparkNoteConnector;

    let note = c.create(&addr, 55u64, &scalar(&mut rng)).unwrap();
    let rec = c.scan(&scan_key, &note).unwrap();

    let with_pub_only =
        bound_coin_commitment(rec.value, &rec.serial_public, &rec.coin_blinding).compress();
    assert_ne!(with_pub_only, note.coin, "scan-derivable serial must not spend");
    let with_full = bound_coin_commitment(
        rec.value,
        &spend_serial(&rec, &spend_secret),
        &rec.coin_blinding,
    )
    .compress();
    assert_eq!(with_full, note.coin, "only spend_secret completes the serial");
}

#[test]
fn a_malformed_address_gets_no_note() {
    let (_s, _sp, mut addr, _key) = recipient(6);
    addr.q_scan = [0u8; 32];
    let c = SparkNoteConnector;
    assert!(c.create(&addr, 1, &Scalar::one()).is_err());
    let (_s, _sp, mut addr, _key) = recipient(6);
    addr.q_spend = [0xff; 32];
    assert!(c.create(&addr, 1, &Scalar::one()).is_err());
}

#[test]
fn generators_are_deterministic_distinct_and_nonidentity() {
    let gens = [gen_g(), gen_h(), gen_k(), gen_gv(), gen_kv()];
    assert_eq!(gens, [gen_g(), gen_h(), gen_k(), gen_gv(), gen_kv()]);
    for i in 0..gens.len() {
        for j in (i + 1)..gens.len() {
            assert_ne!(gens[i], gens[j], "generators {i} and {j} must differ");
        }
    }
    for g in gens {
        assert!(!g.is_identity());
    }
}
