use coincync::secure::{
    ct_cmp, ct_copy_if, ct_eq, ct_select_slice, ct_select_u64, ct_select_u8, is_zero,
    secure_random, secure_random_32, secure_random_64, secure_zero, verify_hash, verify_mac,
    SecureArray, SecureBytes,
};
use std::cmp::Ordering;

#[test]
fn test_secure_bytes_zeroize() {
    let mut secure = SecureBytes::new(vec![1, 2, 3, 4, 5]);
    assert_eq!(secure.len(), 5);
    secure.zeroize();
    assert!(secure.as_bytes().iter().all(|&b| b == 0));
}

#[test]
fn test_secure_array_zeroize() {
    let mut arr: SecureArray<32> = SecureArray::new([0xAB; 32]);
    assert_eq!(arr.as_bytes()[0], 0xAB);
    arr.zeroize();
    assert_eq!(arr.as_bytes(), &[0u8; 32]);
}

#[test]
fn test_ct_eq() {
    let a = [1u8, 2, 3, 4];
    let b = [1u8, 2, 3, 4];
    let c = [1u8, 2, 3, 5];
    assert!(ct_eq(&a, &b));
    assert!(!ct_eq(&a, &c));
    assert!(!ct_eq(&a, &[1, 2, 3]));
}

#[test]
fn test_ct_cmp() {
    let a = [1u8, 2, 3];
    let b = [1u8, 2, 4];
    let c = [1u8, 2, 3];
    assert_eq!(ct_cmp(&a, &b), Ordering::Less);
    assert_eq!(ct_cmp(&b, &a), Ordering::Greater);
    assert_eq!(ct_cmp(&a, &c), Ordering::Equal);
}

#[test]
fn ct_cmp_is_decided_by_the_first_difference() {
    assert_eq!(ct_cmp(&[0, 255, 255], &[1, 0, 0]), Ordering::Less);
    assert_eq!(ct_cmp(&[255, 0], &[0, 255]), Ordering::Greater);
    assert_eq!(ct_cmp(&[9], &[0, 0]), Ordering::Less);
    assert_eq!(ct_cmp(&[0, 0], &[9]), Ordering::Greater);
    assert_eq!(ct_cmp(&[], &[]), Ordering::Equal);
}

#[test]
fn test_ct_copy_if() {
    let mut dst = [0u8; 4];
    let src = [1u8, 2, 3, 4];
    ct_copy_if(false, &mut dst, &src);
    assert_eq!(dst, [0, 0, 0, 0]);
    ct_copy_if(true, &mut dst, &src);
    assert_eq!(dst, [1, 2, 3, 4]);
}

#[test]
fn selections() {
    assert_eq!(ct_select_u8(true, 7, 9), 7);
    assert_eq!(ct_select_u8(false, 7, 9), 9);
    assert_eq!(ct_select_u64(true, u64::MAX, 3), u64::MAX);
    assert_eq!(ct_select_u64(false, u64::MAX, 3), 3);
    let mut dst = [0u8; 3];
    ct_select_slice(true, &mut dst, &[1, 2, 3], &[4, 5, 6]);
    assert_eq!(dst, [1, 2, 3]);
    ct_select_slice(false, &mut dst, &[1, 2, 3], &[4, 5, 6]);
    assert_eq!(dst, [4, 5, 6]);
}

#[test]
fn test_is_zero() {
    assert!(is_zero(&[0, 0, 0, 0]));
    assert!(!is_zero(&[0, 0, 1, 0]));
    assert!(is_zero(&[]));
}

#[test]
fn test_secure_random() {
    let a = secure_random_32();
    let b = secure_random_32();
    assert!(!ct_eq(a.as_bytes(), b.as_bytes()));
    assert!(!is_zero(a.as_bytes()));
    assert!(!is_zero(secure_random_64().as_bytes()));
    let mut buf = [0u8; 40];
    secure_random(&mut buf);
    assert!(!is_zero(&buf));
}

#[test]
fn test_verify_hash() {
    let a = [0xABu8; 32];
    let b = [0xABu8; 32];
    let c = [0xCDu8; 32];
    assert!(verify_hash(&a, &b));
    assert!(!verify_hash(&a, &c));
    assert!(verify_mac(&a[..16], &b[..16]));
    assert!(!verify_mac(&a[..16], &b[..15]));
}

#[test]
fn test_zeroize_on_drop() {
    let data = vec![0xAB_u8; 64];
    let mut secure = SecureBytes::new(data);
    assert!(secure.as_bytes().iter().any(|&b| b != 0));
    secure.zeroize();
    assert!(secure.as_bytes().iter().all(|&b| b == 0), "All bytes must be zero after zeroize");
}

#[test]
fn buffers() {
    let mut z = SecureBytes::zeroed(3);
    assert_eq!(z.as_bytes(), &[0, 0, 0]);
    z.as_bytes_mut()[1] = 7;
    assert_eq!(z.as_bytes(), &[0, 7, 0]);
    assert!(!z.is_empty());
    assert!(SecureBytes::with_capacity(10).is_empty());
    assert_eq!(SecureBytes::from(vec![1, 2]).as_bytes(), &[1, 2]);
    assert_eq!(SecureBytes::from(&[3u8, 4][..]).as_bytes(), &[3, 4]);
    assert_eq!(z.clone().as_bytes(), z.as_bytes());
    let mut a: SecureArray<4> = SecureArray::zeroed();
    a.as_bytes_mut()[3] = 9;
    assert_eq!(a.as_bytes(), &[0, 0, 0, 9]);
    assert_eq!(SecureArray::from([5u8; 2]).as_bytes(), &[5, 5]);
    let mut slice = [1u8, 2, 3];
    secure_zero(&mut slice);
    assert_eq!(slice, [0, 0, 0]);
}

#[test]
fn texts_of_secrets_show_only_their_size() {
    assert_eq!(SecureBytes::new(vec![1, 2, 3]).debug_text(), "SecureBytes([REDACTED 3 bytes])");
    let a: SecureArray<32> = SecureArray::zeroed();
    assert_eq!(a.debug_text(), "SecureArray<32>([REDACTED])");
}

#[test]
fn every_pair_of_bytes_is_ordered() {
    for x in 0..=255u8 {
        for y in 0..=255u8 {
            assert_eq!(ct_cmp(&[7, x, 9], &[7, y, 1]), [7, x, 9].cmp(&[7, y, 1]));
        }
    }
}
