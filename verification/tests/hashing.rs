use coincync::curve::{generator_h, hash_to_point, hash_to_scalar};
use coincync::group::{RistrettoPoint, Scalar};
use coincync::hashing::{hash_data, hash_domain};
use coincync::mw_cutthrough::sign_kernel;
use coincync::spark_generators::gen_k;
use coincync::spark_note::derive_note;
use sha3::Digest;

fn hex32(s: &str) -> [u8; 32] {
    hex::decode(s).unwrap().try_into().unwrap()
}

#[test]
fn blake3_known_answers() {
    assert_eq!(
        hash_data(b""),
        hex32("af1349b9f5f9a1a6a0404dea36dcc9499bcb25c9adc112b7cc9a93cae41f3262")
    );
    assert_eq!(
        hash_data(b"abc"),
        hex32("6437b3ac38465133ffb63b75273a8db548c558465d79db03fd359c6cd5bd9d85")
    );
    assert_eq!(hash_domain(b"a", b"bc"), hash_data(b"abc"));
}

#[test]
fn sha3_512_known_answer() {
    assert_eq!(
        hash_to_scalar(b"abc").to_bytes(),
        hex32("09d2887f9d03ebee60ebb54f43943022a02cb32b0a120c217d45f7518e7ad109")
    );
}

#[test]
fn note_secrets_known_answer() {
    let secrets = derive_note(&[7u8; 32], &[9u8; 32]);
    assert_eq!(secrets.amount_pad, [180, 232, 126, 251, 193, 34, 12, 189]);
    assert_eq!(secrets.view_tag, 177);
    assert_eq!(
        secrets.coin_blinding.to_bytes(),
        hex32("fcc953674bb8e25f221ab282b4214d7c3e563b7a143cc5a01187ce5417f2950a")
    );
    assert_eq!(
        secrets.serial_public.to_bytes(),
        hex32("f0ed573555bef097ebecbd1033bd4a4056a4ca07fabdf6aada3c463fa7da3008")
    );
}

#[test]
fn points_come_from_the_one_way_map() {
    let uniform = |data: &[u8]| {
        let wide: [u8; 64] = sha3::Sha3_512::digest(data).into();
        curve25519_dalek::ristretto::RistrettoPoint::from_uniform_bytes(&wide).compress().to_bytes()
    };
    assert_eq!(hash_to_point(b"abc").compress(), uniform(b"CoinCync_hash_to_point_v1abc"));
    assert_eq!(gen_k().compress(), uniform(b"COINCYNC_SPARK_GEN_K_v1"));
    assert_eq!(generator_h().compress(), uniform(&RistrettoPoint::basepoint().compress()));
}

#[test]
fn kernel_nonces_come_from_the_long_blake3_output() {
    let mut input = b"coincync/mw-kernel-nonce/v1".to_vec();
    let x = Scalar::from_u64(77);
    input.extend_from_slice(&x.to_bytes());
    input.extend_from_slice(&5u64.to_le_bytes());
    input.extend_from_slice(&9u64.to_le_bytes());
    let mut wide = [0u8; 64];
    blake3::Hasher::new().update(&input).finalize_xof().fill(&mut wide);
    let nonce = Scalar::from_bytes_mod_order_wide(&wide);
    let sig = sign_kernel(&x, 5, 9);
    assert_eq!(sig[..32], RistrettoPoint::mul_base(&nonce).compress());
    assert_eq!(sig.len(), 64);
}
