use coincync::clsag::{
    clsag_sign, clsag_verify, ring_from_bytes, ring_to_bytes, simple_ring_sign, simple_ring_verify,
    ClsagSignature, RingMember,
};
use coincync::curve::{Commitment, KeyImage, PublicPoint, SecretScalar};
use coincync::group::Scalar;
use rand::rngs::OsRng;
use rand::RngCore;

fn entropy() -> [u8; 64] {
    let mut e = [0u8; 64];
    OsRng.fill_bytes(&mut e);
    e
}

fn secret() -> SecretScalar {
    SecretScalar::random(&entropy())
}

fn nonces(n: usize) -> Vec<Scalar> {
    (0..=n).map(|_| Scalar::from_bytes_mod_order_wide(&entropy())).collect()
}

#[test]
fn test_simple_ring_signature() {
    let key = secret();
    let public = key.to_public();

    let decoy1 = secret().to_public();
    let decoy2 = secret().to_public();

    let ring = vec![public, decoy1, decoy2];
    let message = b"test transaction";

    let sig = simple_ring_sign(message, &ring, 0, &key, &nonces(3)).unwrap();

    assert_eq!(sig.ring_size(), 3);
    assert!(simple_ring_verify(message, &ring, &sig));
}

#[test]
fn test_simple_ring_wrong_message() {
    let key = secret();
    let public = key.to_public();
    let decoy = secret().to_public();

    let ring = vec![public, decoy];
    let message = b"correct";
    let wrong = b"wrong";

    let sig = simple_ring_sign(message, &ring, 0, &key, &nonces(2)).unwrap();

    assert!(simple_ring_verify(message, &ring, &sig));
    assert!(!simple_ring_verify(wrong, &ring, &sig));
}

#[test]
fn test_key_image_linkability() {
    let key = secret();
    let public = key.to_public();
    let decoy = secret().to_public();

    let ring = vec![public, decoy];

    let sig1 = simple_ring_sign(b"msg1", &ring, 0, &key, &nonces(2)).unwrap();
    let sig2 = simple_ring_sign(b"msg2", &ring, 0, &key, &nonces(2)).unwrap();

    assert_eq!(sig1.key_image, sig2.key_image);
}

#[test]
fn test_different_real_index() {
    let key = secret();
    let public = key.to_public();
    let decoy1 = secret().to_public();
    let decoy2 = secret().to_public();

    let ring = vec![decoy1, public, decoy2];
    let message = b"test";

    let sig = simple_ring_sign(message, &ring, 1, &key, &nonces(3)).unwrap();
    assert!(simple_ring_verify(message, &ring, &sig));
}

#[test]
fn simple_ring_sign_refuses_a_bad_index_and_a_short_ring() {
    let key = secret();
    let ring = vec![key.to_public(), secret().to_public()];
    assert!(simple_ring_sign(b"m", &ring, 2, &key, &nonces(2)).is_err());
    let one = vec![key.to_public()];
    assert!(simple_ring_sign(b"m", &one, 0, &key, &nonces(1)).is_err());
    assert!(simple_ring_sign(b"m", &ring, 1, &key, &nonces(2)).is_err());
}

#[test]
fn test_clsag_sign_verify() {
    let key = secret();
    let public = key.to_public();

    let z_real = secret();
    let value = 1000u64;
    let real_commitment = Commitment::commit(value, &z_real);

    let z_pseudo = secret();
    let pseudo_output = Commitment::commit(value, &z_pseudo);

    let blinding_diff = SecretScalar::from_scalar(z_real.as_scalar().sub(z_pseudo.as_scalar()));

    let decoy1_secret = secret();
    let decoy1_commitment = Commitment::commit(value, &secret());

    let decoy2_secret = secret();
    let decoy2_commitment = Commitment::commit(value, &secret());

    let ring = vec![
        RingMember::new(public, real_commitment),
        RingMember::new(decoy1_secret.to_public(), decoy1_commitment),
        RingMember::new(decoy2_secret.to_public(), decoy2_commitment),
    ];

    let message = b"CLSAG test transaction";

    let sig = clsag_sign(message, &ring, 0, &key, &blinding_diff, &pseudo_output, &nonces(3))
        .unwrap();

    assert!(clsag_verify(message, &ring, &pseudo_output, &sig));

    assert!(!clsag_verify(b"wrong message", &ring, &pseudo_output, &sig));

    let wrong_pseudo = Commitment::commit(value + 1, &secret());
    assert!(!clsag_verify(message, &ring, &wrong_pseudo, &sig));
}

#[test]
fn test_clsag_serialization() {
    let key = secret();
    let public = key.to_public();

    let z_real = secret();
    let real_commitment = Commitment::commit(100, &z_real);

    let z_pseudo = secret();
    let pseudo_output = Commitment::commit(100, &z_pseudo);

    let blinding_diff = SecretScalar::from_scalar(z_real.as_scalar().sub(z_pseudo.as_scalar()));

    let decoy = secret();
    let decoy_commitment = Commitment::commit(100, &secret());

    let ring = vec![
        RingMember::new(public, real_commitment),
        RingMember::new(decoy.to_public(), decoy_commitment),
    ];

    let message = b"test";

    let sig = clsag_sign(message, &ring, 0, &key, &blinding_diff, &pseudo_output, &nonces(2))
        .unwrap();

    let bytes = sig.to_bytes().unwrap();
    let sig2 = ClsagSignature::from_bytes(&bytes).unwrap();
    assert_eq!(sig, sig2);

    assert!(clsag_verify(message, &ring, &pseudo_output, &sig2));

    // A truncated encoding, or one with a byte too many, is refused.
    assert!(ClsagSignature::from_bytes(&bytes[..bytes.len() - 1]).is_err());
    let mut longer = bytes.clone();
    longer.push(0);
    assert!(ClsagSignature::from_bytes(&longer).is_err());
}

#[test]
fn clsag_verify_rejects_identity_ring_public_key() {
    let key = secret();
    let public = key.to_public();
    let z_real = secret();
    let real_commitment = Commitment::commit(1000, &z_real);
    let z_pseudo = secret();
    let pseudo_output = Commitment::commit(1000, &z_pseudo);
    let blinding_diff = SecretScalar::from_scalar(z_real.as_scalar().sub(z_pseudo.as_scalar()));
    let decoy = secret().to_public();
    let decoy_commitment = Commitment::commit(1000, &secret());
    let ring = vec![
        RingMember::new(public, real_commitment),
        RingMember::new(decoy, decoy_commitment),
    ];
    let message = b"R-1 identity ring member test";
    let sig = clsag_sign(message, &ring, 0, &key, &blinding_diff, &pseudo_output, &nonces(2))
        .unwrap();
    assert!(
        clsag_verify(message, &ring, &pseudo_output, &sig),
        "sanity: unmodified ring verifies"
    );

    let mut malicious_ring = ring.clone();
    malicious_ring[1] =
        RingMember::new(PublicPoint::identity(), malicious_ring[1].commitment.clone());

    assert!(
        !clsag_verify(message, &malicious_ring, &pseudo_output, &sig),
        "R-1: verifier must reject identity ring-member public_key"
    );
}

#[test]
fn test_key_image_uniqueness() {
    let secret1 = secret();
    let secret2 = secret();

    let ki1 = KeyImage::from_secret(&secret1);
    let ki2 = KeyImage::from_secret(&secret2);

    assert_ne!(
        ki1.to_bytes(),
        ki2.to_bytes(),
        "Different keys must produce different key images"
    );
}

#[test]
fn clsag_sign_refuses_a_key_outside_the_ring() {
    let key = secret();
    let z = secret();
    let ring = vec![
        RingMember::new(secret().to_public(), Commitment::commit(5, &z)),
        RingMember::new(secret().to_public(), Commitment::commit(5, &secret())),
    ];
    let pseudo = Commitment::commit(5, &z);
    let zero = SecretScalar::from_scalar(Scalar::zero());
    assert!(clsag_sign(b"m", &ring, 0, &key, &zero, &pseudo, &nonces(2)).is_err());
    assert!(clsag_sign(b"m", &ring, 2, &key, &zero, &pseudo, &nonces(2)).is_err());
}

#[test]
fn ring_bytes_round_trip() {
    let ring = vec![
        RingMember::new(secret().to_public(), Commitment::commit(5, &secret())),
        RingMember::new(secret().to_public(), Commitment::commit(6, &secret())),
    ];
    let bytes = ring_to_bytes(&ring);
    assert_eq!(bytes.len(), 4 + 2 * 64);
    assert_eq!(bytes[..4], [2, 0, 0, 0]);
    assert_eq!(ring_from_bytes(&bytes), Some(ring));
    assert_eq!(ring_from_bytes(&bytes[1..]), None);
}

#[test]
fn texts_of_signatures() {
    let key = secret();
    let ring = vec![key.to_public(), secret().to_public()];
    let sig = simple_ring_sign(b"m", &ring, 0, &key, &nonces(2)).unwrap();
    let image = sig.key_image.debug_text();
    assert_eq!(
        sig.debug_text(),
        format!("SimpleRingSignature {{ key_image: {}, ring_size: 2 }}", image)
    );
    let sig = ClsagSignature {
        key_image: sig.key_image,
        commitment_image: ring[0],
        c1: [0; 32],
        responses: vec![[0; 32]; 3],
    };
    assert_eq!(
        sig.debug_text(),
        format!("ClsagSignature {{ key_image: {}, ring_size: 3 }}", image)
    );
}
