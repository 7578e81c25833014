use coincync::curve::hash_to_scalar;
use coincync::group::{RistrettoPoint, Scalar};
use coincync::kernel_offset::{AggregateOffset, KernelOffset};
use rand::rngs::StdRng;
use rand::{RngCore, SeedableRng};

fn entropy(rng: &mut StdRng) -> [u8; 64] {
    let mut e = [0u8; 64];
    rng.fill_bytes(&mut e);
    e
}

#[test]
fn generate_returns_canonical_scalar() {
    let off = KernelOffset::generate();
    assert!(off.as_scalar().is_some());
}

#[test]
fn aggregate_of_two_offsets_equals_scalar_sum() {
    let mut rng = StdRng::seed_from_u64(0xC0DE);
    let a = KernelOffset::generate_with(&entropy(&mut rng));
    let b = KernelOffset::generate_with(&entropy(&mut rng));
    let combined = a.aggregate(b).expect("canonical");

    let a_s = a.as_scalar().unwrap();
    let b_s = b.as_scalar().unwrap();
    assert_eq!(combined.0, a_s.add(&b_s).to_bytes());
}

#[test]
fn aggregate_is_commutative() {
    let mut rng = StdRng::seed_from_u64(0xBEEF);
    let a = KernelOffset::generate_with(&entropy(&mut rng));
    let b = KernelOffset::generate_with(&entropy(&mut rng));
    assert_eq!(a.aggregate(b), b.aggregate(a));
}

#[test]
fn add_offset_chain_is_commutative() {
    let mut rng = StdRng::seed_from_u64(0xCAFE);
    let a = KernelOffset::generate_with(&entropy(&mut rng));
    let b = KernelOffset::generate_with(&entropy(&mut rng));
    let c = KernelOffset::generate_with(&entropy(&mut rng));

    let order1 = AggregateOffset::zero()
        .add_offset(a)
        .unwrap()
        .add_offset(b)
        .unwrap()
        .add_offset(c)
        .unwrap();
    let order2 = AggregateOffset::zero()
        .add_offset(c)
        .unwrap()
        .add_offset(a)
        .unwrap()
        .add_offset(b)
        .unwrap();
    assert_eq!(order1, order2);
}

#[test]
fn verify_round_trip_with_offset() {
    let mut rng = StdRng::seed_from_u64(0x1234);
    let offset = KernelOffset::generate_with(&entropy(&mut rng));
    let off_scalar = offset.as_scalar().unwrap();

    let true_excess = Scalar::from_bytes_mod_order_wide(&entropy(&mut rng));

    let published_excess_scalar = true_excess.sub(&off_scalar);
    let published_excess = RistrettoPoint::mul_base(&published_excess_scalar).compress();

    let k = Scalar::from_bytes_mod_order_wide(&entropy(&mut rng));
    let r_bytes = RistrettoPoint::mul_base(&k).compress();

    let key_point = RistrettoPoint::mul_base(&true_excess);
    let mut chal_buf = Vec::with_capacity(96);
    chal_buf.extend_from_slice(&r_bytes);
    chal_buf.extend_from_slice(&key_point.compress());
    let msg = [42u8; 32];
    chal_buf.extend_from_slice(&msg);
    let c = hash_to_scalar(&chal_buf);
    let s = k.add(&c.mul(&true_excess));

    let mut sig = [0u8; 64];
    sig[..32].copy_from_slice(&r_bytes);
    sig[32..].copy_from_slice(&s.to_bytes());

    assert!(offset.verify_against(&published_excess, &sig, &msg));
    assert!(!offset.verify_against(&published_excess, &sig, &[43u8; 32]));
}

#[test]
fn verify_rejects_wrong_offset() {
    let mut rng = StdRng::seed_from_u64(0xABCD);
    let real_offset = KernelOffset::generate_with(&entropy(&mut rng));
    let bogus_offset = KernelOffset::generate_with(&entropy(&mut rng));

    let excess = [0u8; 32];
    let sig = [0u8; 64];
    let msg = [9u8; 32];

    assert!(!real_offset.verify_against(&excess, &sig, &msg));
    assert!(!bogus_offset.verify_against(&excess, &sig, &msg));
}

#[test]
fn non_canonical_offsets_do_not_aggregate() {
    let bad = KernelOffset([0xff; 32]);
    assert!(bad.as_scalar().is_none());
    assert_eq!(bad.aggregate(KernelOffset([0; 32])), None);
    assert_eq!(AggregateOffset::zero().add_offset(bad), None);
    assert!(AggregateOffset([0xff; 32]).to_point().is_none());
    assert!(AggregateOffset::default().to_point().unwrap().is_identity());
}
