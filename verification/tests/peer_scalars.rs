use coincync::group::{RistrettoPoint, Scalar};
use coincync::peer_scalars::{PeerPoint, PeerScalar};
use rand::rngs::OsRng;
use rand::RngCore;

fn random_scalar() -> Scalar {
    let mut e = [0u8; 64];
    OsRng.fill_bytes(&mut e);
    Scalar::from_bytes_mod_order_wide(&e)
}

fn random_point() -> RistrettoPoint {
    RistrettoPoint::mul_base(&random_scalar())
}

#[test]
fn scalar_decode_accepts_canonical() {
    assert!(PeerScalar::decode([0u8; 32]).is_ok());
    let s = random_scalar();
    assert!(PeerScalar::decode(s.to_bytes()).is_ok());
}

#[test]
fn scalar_decode_rejects_non_canonical() {
    let mut bytes = [0xffu8; 32];
    bytes[31] = 0xff;
    assert!(PeerScalar::decode(bytes).is_err());
}

#[test]
fn point_decode_accepts_valid_ristretto() {
    assert!(PeerPoint::decode([0u8; 32]).is_ok());
    let p = random_point();
    assert!(PeerPoint::decode(p.compress()).is_ok());
}

#[test]
fn point_decode_rejects_junk() {
    let bytes = [0xffu8; 32];
    assert!(PeerPoint::decode(bytes).is_err());
}

#[test]
fn point_decode_non_identity_rejects_identity() {
    assert!(PeerPoint::decode([0u8; 32]).is_ok());
    assert!(PeerPoint::decode_non_identity([0u8; 32]).is_err());
}

#[test]
fn point_decode_non_identity_accepts_random() {
    let p = random_point();
    assert!(PeerPoint::decode_non_identity(p.compress()).is_ok());
}

#[test]
fn scalar_zero_roundtrips() {
    let z = PeerScalar::zero();
    assert_eq!(z.as_scalar().to_bytes(), [0u8; 32]);
}

#[test]
fn scalar_borsh_roundtrip_valid() {
    let s = random_scalar();
    let ps = PeerScalar::decode(s.to_bytes()).unwrap();
    let buf = ps.to_wire();
    assert_eq!(buf.len(), 32);
    assert_eq!(buf, s.to_bytes().to_vec());
    assert_eq!(buf, borsh::to_vec(&s.to_bytes()).unwrap());
    let ps2 = PeerScalar::from_wire(&buf).unwrap();
    assert_eq!(ps2.as_scalar().to_bytes(), s.to_bytes());
}

#[test]
fn scalar_borsh_rejects_non_canonical() {
    let mut bytes = [0xffu8; 32];
    bytes[31] = 0xff;
    let result = PeerScalar::from_wire(&bytes);
    assert!(result.is_err(), "borsh MUST reject non-canonical scalar via decode()");
}

#[test]
fn scalar_serde_json_roundtrip_valid() {
    let s = random_scalar();
    let ps = PeerScalar::decode(s.to_bytes()).unwrap();
    let json = serde_json::to_string(&ps.as_scalar().to_bytes()).unwrap();
    let bytes: [u8; 32] = serde_json::from_str(&json).unwrap();
    let ps2 = PeerScalar::decode(bytes).unwrap();
    assert_eq!(ps2.as_scalar().to_bytes(), s.to_bytes());
}

#[test]
fn scalar_serde_json_rejects_non_canonical() {
    let mut bytes = [0xffu8; 32];
    bytes[31] = 0xff;
    let json = serde_json::to_string(&bytes).unwrap();
    let read: [u8; 32] = serde_json::from_str(&json).unwrap();
    let result = PeerScalar::decode(read);
    assert!(result.is_err(), "serde JSON MUST reject non-canonical scalar bytes");
}

#[test]
fn point_borsh_roundtrip_valid() {
    let p = random_point();
    let pp = PeerPoint::decode_non_identity(p.compress()).unwrap();
    let buf = pp.to_wire();
    assert_eq!(buf.len(), 32);
    let pp2 = PeerPoint::from_wire(&buf).unwrap();
    assert_eq!(pp2.as_point().compress(), p.compress());
    assert!(PeerPoint::from_wire(&buf[1..]).is_err());
}

#[test]
fn point_borsh_rejects_identity_via_non_identity_default() {
    let bytes = [0u8; 32];
    let result = PeerPoint::from_wire(&bytes);
    assert!(result.is_err(), "borsh MUST reject identity via decode_non_identity");
}

#[test]
fn point_borsh_rejects_junk_bytes() {
    let bytes = [0xffu8; 32];
    let result = PeerPoint::from_wire(&bytes);
    assert!(result.is_err(), "borsh MUST reject non-Ristretto bytes");
}

#[test]
fn point_serde_json_roundtrip_valid() {
    let p = random_point();
    let pp = PeerPoint::decode_non_identity(p.compress()).unwrap();
    let json = serde_json::to_string(&pp.as_point().compress()).unwrap();
    let bytes: [u8; 32] = serde_json::from_str(&json).unwrap();
    let pp2 = PeerPoint::decode_non_identity(bytes).unwrap();
    assert_eq!(pp2.as_point().compress(), p.compress());
}

#[test]
fn point_serde_json_rejects_identity() {
    let bytes = [0u8; 32];
    let json = serde_json::to_string(&bytes).unwrap();
    let read: [u8; 32] = serde_json::from_str(&json).unwrap();
    let result = PeerPoint::decode_non_identity(read);
    assert!(result.is_err(), "serde JSON MUST reject identity via decode_non_identity");
}

#[test]
fn peerpoint_field_in_struct_rejected_at_borsh_parse() {
    fn carrier(bytes: &[u8]) -> Option<(u8, PeerPoint)> {
        Some((*bytes.first()?, PeerPoint::from_wire(&bytes[1..]).ok()?))
    }

    let p = random_point();
    let point = PeerPoint::decode_non_identity(p.compress()).unwrap();
    let mut buf = vec![7u8];
    buf.extend_from_slice(&point.to_wire());
    let (tag, parsed) = carrier(&buf).unwrap();
    assert_eq!(tag, 7);
    assert_eq!(parsed.as_point().compress(), p.compress());

    let mut bad = vec![7u8];
    bad.extend_from_slice(&[0u8; 32]);
    assert!(
        carrier(&bad).is_none(),
        "struct with PeerPoint field MUST reject identity at borsh parse"
    );
}

#[test]
fn peerscalar_field_in_struct_rejected_at_borsh_parse() {
    let mut bad = vec![7u8];
    let mut scalar_bytes = [0xffu8; 32];
    scalar_bytes[31] = 0xff;
    bad.extend_from_slice(&scalar_bytes);
    assert!(
        PeerScalar::from_wire(&bad[1..]).is_err(),
        "struct with PeerScalar field MUST reject non-canonical bytes at borsh parse"
    );
}
