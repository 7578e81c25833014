use coincync::audit_key::AuditKey;
use coincync::curve::{hash_to_scalar, PublicPoint, SecretScalar};
use coincync::primitives::{Address, AddressType, KeyEpoch, Network, PublicKey, SecretKey};
use coincync::scanner::{IndexedOutput, ScanOutput, StealthIndex, ViewOnlyScanner};
use coincync::stealth::{
    coinbase_stealth_address, compute_one_time_secret, generate_stealth_address_checked,
    generate_stealth_address_checked_ext, generate_stealth_address_for, generate_stealth_outputs,
    is_output_ours, scan_outputs, RecipientKeys, StealthAddress,
};
use coincync::subaddress::{Subaddress, SubaddressManager};
use rand::rngs::OsRng;
use rand::RngCore;

fn entropy() -> [u8; 64] {
    let mut e = [0u8; 64];
    OsRng.fill_bytes(&mut e);
    e
}

fn generate_ec_keypair() -> (SecretKey, PublicKey) {
    let secret = SecretScalar::random(&entropy());
    let public = secret.to_public();
    (SecretKey::from_bytes(secret.to_bytes()), PublicKey::from_bytes(public.to_bytes()))
}

fn generate_stealth_address(
    spend_pub: &PublicKey,
    view_pub: &PublicKey,
    output_idx: u8,
) -> (StealthAddress, SecretKey) {
    generate_stealth_address_checked(spend_pub, view_pub, output_idx, &entropy()).unwrap()
}

#[test]
fn test_stealth_address_roundtrip() {
    let (_spend_secret, spend_public) = generate_ec_keypair();
    let (view_secret, view_public) = generate_ec_keypair();

    let (stealth, _tx_secret) = generate_stealth_address(&spend_public, &view_public, 0);

    assert!(
        is_output_ours(&stealth, &view_secret, &spend_public, 0),
        "Recipient should detect their own output"
    );
}

#[test]
fn test_stealth_address_methods() {
    let (spend_secret, spend_public) = generate_ec_keypair();
    let (view_secret, view_public) = generate_ec_keypair();

    let (stealth, _) = generate_stealth_address(&spend_public, &view_public, 0);

    assert!(stealth.is_ours(&view_secret, &spend_public, 0));
    assert!(!stealth.is_ours(&view_secret, &spend_public, 1));

    let spending_key = stealth.compute_spending_key(&view_secret, &spend_secret, 0).unwrap();
    let one_time_scalar = SecretScalar::from_bytes(*spending_key.as_bytes());
    let derived_public = one_time_scalar.to_public();
    assert_eq!(stealth.public_key.as_bytes(), &derived_public.to_bytes());
}

#[test]
fn test_recipient_keys_scanning() {
    let (_spend_secret, spend_public) = generate_ec_keypair();
    let (view_secret, view_public) = generate_ec_keypair();

    let recipient = RecipientKeys::new(&view_secret, &spend_public).unwrap();

    let (stealth1, _) = generate_stealth_address(&spend_public, &view_public, 0);
    let (stealth2, _) = generate_stealth_address(&spend_public, &view_public, 1);

    assert!(recipient.owns(&stealth1, 0));
    assert!(recipient.owns(&stealth2, 1));
    assert!(!recipient.owns(&stealth1, 1));
}

#[test]
fn test_batch_scanning() {
    let (_spend_secret, spend_public) = generate_ec_keypair();
    let (view_secret, view_public) = generate_ec_keypair();

    let outputs: Vec<(StealthAddress, u8)> = (0..5)
        .map(|i| {
            let (stealth, _) = generate_stealth_address(&spend_public, &view_public, i);
            (stealth, i)
        })
        .collect();

    let found = scan_outputs(&outputs, &view_secret, &spend_public).unwrap();
    assert_eq!(found.len(), 5);
    assert_eq!(found, vec![0, 1, 2, 3, 4]);
}

#[test]
fn test_address_integration() {
    let (_spend_secret, spend_public) = generate_ec_keypair();
    let (view_secret, view_public) = generate_ec_keypair();

    let address = Address::new(Network::Testnet, spend_public, view_public);

    let (stealth, _) = generate_stealth_address_for(&address, 0, &entropy()).unwrap();
    assert!(stealth.is_ours(&view_secret, &spend_public, 0));
}

#[test]
fn test_hex_serialization() {
    let (_, spend_public) = generate_ec_keypair();
    let (_, view_public) = generate_ec_keypair();

    let (stealth, _) = generate_stealth_address(&spend_public, &view_public, 0);

    let hex = stealth.to_hex();
    let restored = StealthAddress::from_hex(&hex).unwrap();

    assert_eq!(stealth.public_key.as_bytes(), restored.public_key.as_bytes());
    assert_eq!(stealth.tx_public_key.as_bytes(), restored.tx_public_key.as_bytes());
    assert_eq!(hex.len(), 128);
    assert!(StealthAddress::from_hex(&hex[2..]).is_err());
    assert!(StealthAddress::from_hex("zz").is_err());
}

#[test]
fn test_subaddress_generation() {
    let (_spend_secret, spend_public) = generate_ec_keypair();
    let (view_secret, view_public) = generate_ec_keypair();

    let sub = Subaddress::generate(&spend_public, &view_secret, 0, 1).unwrap();

    assert_ne!(sub.spend_public.as_bytes(), spend_public.as_bytes());

    assert_ne!(
        sub.view_public.as_bytes(),
        view_public.as_bytes(),
        "subaddress view key must be C_i = a*D_i, not the main a*G"
    );
}

#[test]
fn subaddress_view_keys_are_unlinkable_and_output_is_detectable() {
    let (_b, spend_public) = generate_ec_keypair();
    let (view_secret, view_public) = generate_ec_keypair();

    let sub1 = Subaddress::generate(&spend_public, &view_secret, 0, 1).unwrap();
    let sub2 = Subaddress::generate(&spend_public, &view_secret, 0, 2).unwrap();

    assert_ne!(
        sub1.view_public.as_bytes(),
        sub2.view_public.as_bytes(),
        "two subaddresses must have distinct view keys"
    );
    assert_ne!(sub1.view_public.as_bytes(), view_public.as_bytes());
    assert_ne!(sub2.view_public.as_bytes(), view_public.as_bytes());

    let (stealth, _tx_secret) = generate_stealth_address_checked_ext(
        &sub1.spend_public,
        &sub1.view_public,
        0,
        true,
        &entropy(),
    )
    .unwrap();
    assert!(
        is_output_ours(&stealth, &view_secret, &sub1.spend_public, 0),
        "wallet must detect its own subaddress output"
    );

    assert!(
        !is_output_ours(&stealth, &view_secret, &sub2.spend_public, 0),
        "a sub1 output must not be detected as sub2's"
    );
}

#[test]
fn generate_stealth_address_for_selects_form_by_address_type() {
    let (_b, spend_public) = generate_ec_keypair();
    let (view_secret, view_public) = generate_ec_keypair();

    let sub = Subaddress::generate(&spend_public, &view_secret, 0, 7).unwrap();
    let mut sub_addr = Address::new(Network::Testnet, sub.spend_public, sub.view_public);
    sub_addr.address_type = AddressType::Subaddress;
    let (stealth, _) = generate_stealth_address_for(&sub_addr, 0, &entropy()).unwrap();
    assert!(
        is_output_ours(&stealth, &view_secret, &sub.spend_public, 0),
        "subaddress output via generate_stealth_address_for must be detectable at D_i"
    );

    let main_addr = Address::new(Network::Testnet, spend_public, view_public);
    assert_eq!(main_addr.address_type, AddressType::Standard);
    let (main_stealth, _) = generate_stealth_address_for(&main_addr, 0, &entropy()).unwrap();
    assert!(
        is_output_ours(&main_stealth, &view_secret, &spend_public, 0),
        "main-address output must still be detectable"
    );
}

#[test]
fn test_view_only_scanner() {
    let (_, spend_public) = generate_ec_keypair();
    let (view_secret, view_public) = generate_ec_keypair();

    let scanner = ViewOnlyScanner::new(&view_secret, &spend_public).unwrap();

    let (stealth, _) = generate_stealth_address(&spend_public, &view_public, 0);

    let outputs = vec![ScanOutput { stealth, output_idx: 0, amount: Some(100) }];

    let results = scanner.scan(&outputs);
    assert_eq!(results.len(), 1);
    assert_eq!(results[0].amount, Some(100));
    assert!(scanner.has_outputs(&[(stealth, 0)]));
    assert!(!scanner.has_outputs(&[(stealth, 1)]));
}

#[test]
fn audit_key_multi_account_scan_finds_nonzero_account_subaddress() {
    let (_spend_secret, spend_public) = generate_ec_keypair();
    let (view_secret, _view_public) = generate_ec_keypair();

    let sub = Subaddress::generate(&spend_public, &view_secret, 2, 3).unwrap();
    let (stealth, _) = generate_stealth_address_checked_ext(
        &sub.spend_public,
        &sub.view_public,
        0,
        true,
        &entropy(),
    )
    .unwrap();
    let outputs = vec![ScanOutput { stealth, output_idx: 0, amount: Some(100) }];

    let audit = AuditKey::new(view_secret.clone(), spend_public)
        .with_subaddress_max_index(5)
        .with_subaddress_max_account(3);
    let results = audit.to_scanner().unwrap().scan(&outputs);
    assert_eq!(results.len(), 1, "multi-account scan must find the output");
    assert_eq!(results[0].subaddress_account, Some(2));
    assert_eq!(results[0].subaddress_index, Some(3));

    let audit_acct0 = AuditKey::new(view_secret, spend_public).with_subaddress_max_index(5);
    let results0 = audit_acct0.to_scanner().unwrap().scan(&outputs);
    assert!(results0.is_empty(), "account-0-only scan must miss an account-2 subaddress");
}

#[test]
fn test_stealth_address_wrong_keys() {
    let (_spend_secret1, spend_public1) = generate_ec_keypair();
    let (view_secret1, view_public1) = generate_ec_keypair();

    let (_spend_secret2, spend_public2) = generate_ec_keypair();
    let (view_secret2, _view_public2) = generate_ec_keypair();

    let (stealth, _) = generate_stealth_address(&spend_public1, &view_public1, 0);

    assert!(is_output_ours(&stealth, &view_secret1, &spend_public1, 0));
    assert!(
        !is_output_ours(&stealth, &view_secret2, &spend_public2, 0),
        "Wrong recipient should not detect output"
    );
}

#[test]
fn test_stealth_address_output_index_matters() {
    let (_spend_secret, spend_public) = generate_ec_keypair();
    let (view_secret, view_public) = generate_ec_keypair();

    let (stealth, _) = generate_stealth_address(&spend_public, &view_public, 0);

    assert!(is_output_ours(&stealth, &view_secret, &spend_public, 0));
    assert!(
        !is_output_ours(&stealth, &view_secret, &spend_public, 1),
        "Wrong output index should not match"
    );
}

#[test]
fn recipient_owns_rejects_malformed_tx_public_forgery() {
    let (_spend_secret, spend_public) = generate_ec_keypair();
    let (view_secret, view_public) = generate_ec_keypair();
    let recipient = RecipientKeys::new(&view_secret, &spend_public).unwrap();

    let (real_stealth, _) = generate_stealth_address(&spend_public, &view_public, 0);
    assert!(recipient.owns(&real_stealth, 0));

    let invalid_tx_public = [0xFF; 32];
    assert!(PublicPoint::from_bytes(invalid_tx_public).is_none());
    let output_idx = 3u8;
    let shared = PublicPoint::identity();
    let scalar_input = [shared.to_bytes().as_slice(), &[output_idx]].concat();
    let one_time_base = SecretScalar::from_scalar(hash_to_scalar(&scalar_input)).to_public();
    let spend_point = PublicPoint::from_bytes(*spend_public.as_bytes()).unwrap();
    let forged = StealthAddress {
        public_key: PublicKey::from_bytes(one_time_base.add(&spend_point).to_bytes()),
        tx_public_key: PublicKey::from_bytes(invalid_tx_public),
    };

    assert!(!recipient.owns(&forged, output_idx));
}

#[test]
fn test_stealth_addresses_unique() {
    let (_spend_secret, spend_public) = generate_ec_keypair();
    let (view_secret, view_public) = generate_ec_keypair();

    let (stealth1, _) = generate_stealth_address(&spend_public, &view_public, 0);
    let (stealth2, _) = generate_stealth_address(&spend_public, &view_public, 0);

    assert_ne!(
        stealth1.public_key.as_bytes(),
        stealth2.public_key.as_bytes(),
        "Each stealth address should be unique"
    );

    assert!(is_output_ours(&stealth1, &view_secret, &spend_public, 0));
    assert!(is_output_ours(&stealth2, &view_secret, &spend_public, 0));
}

#[test]
fn test_one_time_secret_derivation() {
    let (spend_secret, spend_public) = generate_ec_keypair();
    let (view_secret, view_public) = generate_ec_keypair();

    let (stealth, _) = generate_stealth_address(&spend_public, &view_public, 0);

    assert!(is_output_ours(&stealth, &view_secret, &spend_public, 0));

    let one_time_secret =
        compute_one_time_secret(&stealth, &view_secret, &spend_secret, 0).unwrap();

    let one_time_scalar = SecretScalar::from_bytes(*one_time_secret.as_bytes());
    let derived_public = one_time_scalar.to_public();

    assert_eq!(
        stealth.public_key.as_bytes(),
        &derived_public.to_bytes(),
        "One-time secret should derive to the stealth public key"
    );
}

#[test]
fn test_audit_key() {
    let (_, spend_public) = generate_ec_keypair();
    let (view_secret, _view_public) = generate_ec_keypair();

    let audit = AuditKey::new(view_secret.clone(), spend_public).with_range(Some(100), Some(1000));

    assert!(audit.is_in_range(500));
    assert!(!audit.is_in_range(50));
    assert!(!audit.is_in_range(1500));

    let export = audit.export();
    let imported = AuditKey::import(&export).unwrap();

    assert_eq!(imported.start_height, Some(100));
    assert_eq!(imported.end_height, Some(1000));
    assert_eq!(imported.view_secret.as_bytes(), view_secret.as_bytes());
    assert_eq!(imported.spend_public, spend_public);

    let mut bad = export.clone();
    bad.view_secret_hex = "xyz".to_string();
    assert!(AuditKey::import(&bad).is_err());
}

#[test]
fn test_stealth_index() {
    let (_, spend_public) = generate_ec_keypair();
    let (view_secret, _view_public) = generate_ec_keypair();

    let keys = RecipientKeys::new(&view_secret, &spend_public).unwrap();
    let mut index = StealthIndex::new(keys);

    let view_scalar = SecretScalar::from_bytes(*view_secret.as_bytes());
    let view_public = PublicKey::from_bytes(view_scalar.to_public().to_bytes());

    let (stealth, _) = generate_stealth_address(&spend_public, &view_public, 0);

    let outputs = vec![IndexedOutput { stealth, output_idx: 0, block_height: 100, tx_index: 0 }];

    index.index_outputs(&outputs);
    assert_eq!(index.len(), 1);
    assert_eq!(index.lookup(&stealth.tx_public_key), Some(&outputs));
    assert_eq!(index.all_outputs(), outputs);
    index.clear();
    assert!(index.is_empty());
}

#[test]
fn test_subaddress_collision() {
    let (_spend_secret, spend_public) = generate_ec_keypair();
    let (view_secret, _view_public) = generate_ec_keypair();

    let sub0 = Subaddress::generate(&spend_public, &view_secret, 0, 0).unwrap();
    let sub1 = Subaddress::generate(&spend_public, &view_secret, 0, 1).unwrap();
    let sub2 = Subaddress::generate(&spend_public, &view_secret, 0, 2).unwrap();

    assert_ne!(sub0.spend_public.as_bytes(), sub1.spend_public.as_bytes());
    assert_ne!(sub1.spend_public.as_bytes(), sub2.spend_public.as_bytes());
    assert_ne!(sub0.spend_public.as_bytes(), sub2.spend_public.as_bytes());
}

#[test]
fn the_manager_counts_up_and_remembers() {
    let (_, spend_public) = generate_ec_keypair();
    let (view_secret, _) = generate_ec_keypair();
    let mut manager = SubaddressManager::new(spend_public, view_secret);
    let a = manager.next().unwrap();
    let b = manager.next().unwrap();
    assert_eq!(b.index, a.index + 1);
    assert_eq!(manager.get_or_generate(a.index).unwrap(), a);
    assert_eq!(manager.all(), vec![a, b]);
}

#[test]
fn epoch_keys_find_and_spend() {
    let (spend_secret, spend_public) = generate_ec_keypair();
    let (view_secret, view_public) = generate_ec_keypair();
    let keys = KeyEpoch { view_secret, spend_public, spend_secret };
    let (stealth, _) = generate_stealth_address(&spend_public, &view_public, 9);
    assert!(stealth.is_ours_with_epoch(&keys, 9));
    let key = stealth.compute_spending_key_with_epoch(&keys, 9).unwrap();
    assert_eq!(
        SecretScalar::from_bytes(*key.as_bytes()).to_public().to_bytes(),
        *stealth.public_key.as_bytes()
    );
}

#[test]
fn coinbase_addresses_repeat_for_the_same_inputs() {
    let (_, spend_public) = generate_ec_keypair();
    let (view_secret, view_public) = generate_ec_keypair();
    let (a, _) = coinbase_stealth_address(&spend_public, &view_public, 7, 0, &[5; 32]).unwrap();
    let (b, _) = coinbase_stealth_address(&spend_public, &view_public, 7, 0, &[5; 32]).unwrap();
    let (c, _) = coinbase_stealth_address(&spend_public, &view_public, 8, 0, &[5; 32]).unwrap();
    assert_eq!(a, b);
    assert_ne!(a, c);
    assert!(a.is_ours(&view_secret, &spend_public, 0));
}

#[test]
fn malformed_recipients_are_refused() {
    let (_, good) = generate_ec_keypair();
    let bad = PublicKey::from_bytes([0xff; 32]);
    assert!(generate_stealth_address_checked(&bad, &good, 0, &entropy()).is_err());
    assert!(generate_stealth_address_checked(&good, &bad, 0, &entropy()).is_err());
    let address = Address::new(Network::Mainnet, good, good);
    let many: Vec<&Address> = (0..256).map(|_| &address).collect();
    let seeds = vec![[1u8; 64]; 256];
    assert!(generate_stealth_outputs(&many, &seeds).is_err());
    let two = [&address, &address];
    assert_eq!(generate_stealth_outputs(&two, &seeds).unwrap().len(), 2);
}

#[test]
fn an_audit_detects_every_subaddress_of_its_grid() {
    let (_, spend_public) = generate_ec_keypair();
    let (view_secret, view_public) = generate_ec_keypair();
    let audit = AuditKey::new(view_secret, spend_public)
        .with_subaddress_max_index(1)
        .with_subaddress_max_account(1);
    let scanner = audit.to_scanner().unwrap();
    for account in 0..=1 {
        for index in 0..=1 {
            let sub = Subaddress::generate(&spend_public, &view_secret, account, index).unwrap();
            let (stealth, _) = generate_stealth_address_checked_ext(
                &sub.spend_public,
                &sub.view_public,
                0,
                true,
                &entropy(),
            )
            .unwrap();
            let results = scanner.scan(&[ScanOutput { stealth, output_idx: 0, amount: None }]);
            assert_eq!(results.len(), 1);
            assert_eq!(results[0].subaddress_account, Some(account));
            assert_eq!(results[0].subaddress_index, Some(index));
        }
    }
    let (stealth, _) = generate_stealth_address(&spend_public, &view_public, 0);
    let results = scanner.scan(&[ScanOutput { stealth, output_idx: 0, amount: None }]);
    assert_eq!(results[0].subaddress_account, None);
}

#[test]
fn the_text_of_an_address_is_short() {
    let key = PublicKey::from_bytes([0xcd; 32]);
    assert_eq!(StealthAddress::new(key, key).debug_text(), "StealthAddress(cdcdcdcd...)");
}

#[test]
fn wiped_keys_own_nothing() {
    let (_, spend_public) = generate_ec_keypair();
    let (view_secret, view_public) = generate_ec_keypair();
    let (stealth, _) = generate_stealth_address(&spend_public, &view_public, 0);
    let mut keys = RecipientKeys::new(&view_secret, &spend_public).unwrap();
    assert!(keys.owns(&stealth, 0));
    keys.zeroize();
    assert!(!keys.owns(&stealth, 0));
    let mut secret = SecretScalar::from_bytes([7; 32]);
    secret.zeroize();
    assert_eq!(secret.to_bytes(), [0; 32]);
}
