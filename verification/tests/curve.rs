use coincync::curve::{generator, generator_h, hash_to_scalar, Commitment, KeyImage, PublicPoint, SecretScalar};
use coincync::group::{RistrettoPoint, Scalar};
use rand::rngs::OsRng;
use rand::RngCore;

fn secret() -> SecretScalar {
    let mut e = [0u8; 64];
    OsRng.fill_bytes(&mut e);
    SecretScalar::random(&e)
}

#[test]
fn test_secret_to_public() {
    let key = secret();
    let public = key.to_public();
    assert!(!public.is_identity());
}

#[test]
fn test_point_serialization() {
    let key = secret();
    let public = key.to_public();

    let bytes = public.to_bytes();
    let recovered = PublicPoint::from_bytes(bytes).unwrap();
    assert_eq!(public, recovered);
}

#[test]
fn test_commitment() {
    let value = 1000u64;
    let blinding = secret();
    let commitment = Commitment::commit(value, &blinding);

    let commitment2 = Commitment::commit(value, &blinding);
    assert_eq!(commitment, commitment2);

    let blinding2 = secret();
    let commitment3 = Commitment::commit(value, &blinding2);
    assert_ne!(commitment, commitment3);
}

#[test]
fn test_commitment_homomorphic() {
    let v1 = 100u64;
    let v2 = 200u64;
    let b1 = secret();
    let b2 = secret();

    let c1 = Commitment::commit(v1, &b1);
    let c2 = Commitment::commit(v2, &b2);
    let c_sum = c1.add(&c2);

    let b_sum = b1.add(&b2);
    let c_expected = Commitment::commit(v1 + v2, &b_sum);
    assert_eq!(c_sum, c_expected);
    assert_eq!(c_sum.sub(&c2), c1);
}

#[test]
fn test_key_image() {
    let key = secret();
    let ki1 = KeyImage::from_secret(&key);
    let ki2 = KeyImage::from_secret(&key);

    assert_eq!(ki1, ki2);

    let secret2 = secret();
    let ki3 = KeyImage::from_secret(&secret2);
    assert_ne!(ki1, ki3);
}

#[test]
fn test_child_derivation() {
    let parent = secret();
    let child1 = parent.derive_child(b"test", 0);
    let child2 = parent.derive_child(b"test", 1);
    let child3 = parent.derive_child(b"test", 0);

    assert_eq!(child1.to_bytes(), child3.to_bytes());

    assert_ne!(child1.to_bytes(), child2.to_bytes());
}

#[test]
fn test_identity_point_operations() {
    let identity = PublicPoint::identity();
    assert!(identity.is_identity());

    let key = secret();
    let p = key.to_public();
    let sum = identity.add(&p);
    assert_eq!(sum, p);

    let diff = p.sub(&p);
    assert!(diff.is_identity());

    let bytes = identity.to_bytes();
    let recovered = PublicPoint::from_bytes(bytes).unwrap();
    assert!(recovered.is_identity());
}

#[test]
fn scalar_arithmetic_wraps_at_the_group_order() {
    let one = Scalar::one();
    let minus_one = Scalar::zero().sub(&one);
    let mut order_less_one = [
        0xecu8, 0xd3, 0xf5, 0x5c, 0x1a, 0x63, 0x12, 0x58, 0xd6, 0x9c, 0xf7, 0xa2, 0xde, 0xf9, 0xde,
        0x14, 0, 0, 0, 0, 0, 0, 0, 0, 0, 0, 0, 0, 0, 0, 0, 0x10,
    ];
    assert_eq!(minus_one.to_bytes(), order_less_one);
    assert!(Scalar::from_canonical_bytes(&order_less_one).is_some());
    order_less_one[0] += 1;
    assert!(Scalar::from_canonical_bytes(&order_less_one).is_none());
    assert_eq!(Scalar::from_bytes_mod_order(&order_less_one).to_bytes(), [0u8; 32]);
    assert_eq!(minus_one.neg().to_bytes(), one.to_bytes());
    assert_eq!(
        Scalar::from_u64(7).mul(&Scalar::from_u64(6)).to_bytes(),
        Scalar::from_u64(42).to_bytes()
    );
    assert!(SecretScalar::from_canonical_bytes(order_less_one).is_none());
    assert_eq!(SecretScalar::from_bytes(order_less_one).to_bytes(), [0u8; 32]);
}

#[test]
fn generators_are_fixed_and_distinct() {
    assert_eq!(generator().compress(), RistrettoPoint::basepoint().compress());
    assert_ne!(generator_h().compress(), generator().compress());
    assert!(!generator_h().is_identity());
    // The encoding of the basepoint, and of the neutral element.
    assert_eq!(
        generator().compress(),
        [
            0xe2, 0xf2, 0xae, 0x0a, 0x6a, 0xbc, 0x4e, 0x71, 0xa8, 0x84, 0xa9, 0x61, 0xc5, 0x00, 0x51,
            0x5f, 0x58, 0xe3, 0x0b, 0x6a, 0xa5, 0x82, 0xdd, 0x8d, 0xb6, 0xa6, 0x59, 0x45, 0xe0, 0x8d,
            0x2d, 0x76
        ]
    );
    assert_eq!(RistrettoPoint::identity().compress(), [0u8; 32]);
}

#[test]
fn point_operations_follow_the_exponents() {
    let a = secret();
    let b = secret();
    assert_eq!(a.to_public().add(&b.to_public()), a.add(&b).to_public());
    assert_eq!(a.to_public().sub(&b.to_public()), a.sub(&b).to_public());
    assert_eq!(a.to_public().mul(&b), a.mul(&b).to_public());
    assert_eq!(a.to_public().mul_scalar(b.as_scalar()), b.to_public().mul(&a));
    assert!(a.to_public().equals(&a.to_public()));
    assert!(!a.to_public().equals(&b.to_public()));
}

#[test]
fn malformed_encodings_are_refused() {
    assert!(PublicPoint::from_bytes([0xffu8; 32]).is_none());
    assert!(Commitment::from_bytes([0xffu8; 32]).is_none());
    assert!(KeyImage::from_bytes([0xffu8; 32]).is_none());
    let image = KeyImage::from_secret(&secret());
    assert_eq!(KeyImage::from_bytes(image.to_bytes()), Some(image));
}

#[test]
fn clearing_a_point_leaves_the_identity() {
    let mut p = secret().to_public();
    p.zeroize();
    assert!(p.is_identity());
}

#[test]
fn hashing_to_a_scalar_depends_on_the_input() {
    assert_eq!(hash_to_scalar(b"a").to_bytes(), hash_to_scalar(b"a").to_bytes());
    assert_ne!(hash_to_scalar(b"a").to_bytes(), hash_to_scalar(b"b").to_bytes());
}

#[test]
fn texts_show_the_first_bytes_of_a_point_and_nothing_of_a_secret() {
    let key = SecretScalar::from_scalar(Scalar::one());
    assert_eq!(key.debug_text(), "SecretScalar([REDACTED])");
    let point = key.to_public();
    assert_eq!(point.debug_text(), "PublicPoint(e2f2ae0a6abc4e71)");
    assert_eq!(
        point.display_text(),
        "e2f2ae0a6abc4e71a884a961c500515f58e30b6aa582dd8db6a65945e08d2d76"
    );
    assert_eq!(Commitment::from_point(point).debug_text(), "Commitment(e2f2ae0a6abc4e71)");
    assert_eq!(KeyImage::from_point(point).debug_text(), "KeyImage(e2f2ae0a6abc4e71)");
    assert_eq!(KeyImage::from_point(point).display_text(), point.display_text());
}
