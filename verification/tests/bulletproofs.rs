use coincync::bulletproofs::{
    batch_verify_range_proofs, commit, create_aggregated_range_proof,
    create_aggregated_range_proof_bp_plus, create_aggregated_range_proof_for_height,
    create_range_proof, create_range_proof_bp_plus, create_range_proof_for_height,
    verify_coinbase_output, verify_commitment, verify_range_proof, verify_range_proof_bp_plus,
    verify_range_proof_dispatch, verify_range_proofs, verify_range_proofs_bp_plus,
    verify_range_proofs_dispatch, BlindingFactor, PedersenCommitment, RangeProof,
    RANGE_PROOF_VERSION,
};
use coincync::constants::{BULLETPROOFS_PLUS_HEIGHT, RANGE_PROOF_VERSION_BP_PLUS};
use coincync::error::Error;
use coincync::group::Scalar;
use coincync::primitives::Amount;
use rand::rngs::OsRng;
use rand::RngCore;

fn entropy() -> [u8; 64] {
    let mut b = [0u8; 64];
    OsRng.fill_bytes(&mut b);
    b
}

fn seed() -> [u8; 32] {
    let mut b = [0u8; 32];
    OsRng.fill_bytes(&mut b);
    b
}

fn opening_set(amounts: &[Amount]) -> (Vec<BlindingFactor>, Vec<PedersenCommitment>) {
    let blindings: Vec<BlindingFactor> =
        amounts.iter().map(|_| BlindingFactor::random(&entropy())).collect();
    let commitments = amounts
        .iter()
        .zip(blindings.iter())
        .map(|(a, b)| PedersenCommitment::commit(a.as_atomic(), b))
        .collect();
    (blindings, commitments)
}

/// The proof for 50, 100 and 50 million under the blindings 1, 2 and 3 in every byte, made
/// with the seed 7 in every byte.
const THREE_OUTPUT_PROOF: &str = "0106e548b0943c2cf7e9451a9558ff3d373798ecb196d3f03f0eb9a632fb292f0ad66bdff6e7488d44770b08fe\
81648dee5e518cf8e10957e67ceec0e7067ecf4616f22439caca92bab54510a86086ec99adcd71bf9794170af3\
a929f6ea7ed945e0c8bad86c10f10ad606ec761129aa351077ad6df45db9be431c58533a5e4b16fd0a659e01c0\
2d6155cd9408ce90c7e4f13ee6f991719714191882e92e344f0fa76d526d8d6b97515e3221a6eeb4bbdae81cc9\
b1891c9c0175082a1de393210f1ca1f46a33325377e8708cdf7988208c7bbcd373ae3a54ae00a4b26f0a0ac528\
66059c60ccada9fcfed9c157373b167986c42bb5a7f24ce30514a9c3717fcc1e166cb89ce9e38cfe424e6fc39f\
c7b14ad6412322273e195fed5b7a96e9fe8e508a7bae3a83ca66772e57a8e607fe17264c93b909c982f753aa26\
17f7d4ee7a198e772470a0512319e767aa322501003baaacfe655e8ecd8c45e080ba080a7645362e6d3a08f060\
b03bdb1b0010c7711c1ec1dab76715ce0e1350ece616923e0aa8edb5df9175f4d645a91fc7a8ae55998eec9774\
021bdfc9ea1a9ac695c319537a48dbd2300e29722b3f8cf94534784e05fc6aae22bc2ae118b4121b3282c549e0\
7aaec45801fa1017afea418c32c90ba595b9ca7b12bd9e4afe3e67cc27b7432809e3707ad10f0197dd4d857e14\
6326615fdb69293ae7221942bc0c4fec2078f644868a1ef5b38660a3cf2f8ea998d3e0d2b6d46d96db9c21a596\
5316031677809dfc9ac82b589414e3420d738036428d1d01bed6256de1c7138aa0b3e1aa77828f04ac20ab61f0\
5e50cb0ea23798475dc5997ea91b9c586a18e75039250924285a73c63faebbd76c2a5d71d2884da0cfc67f3291\
e686cbb4c671dffb77cc50c61e14cdd27d5211754083284bd0cf111ff148321bc7499408d6d536e747392ade95\
cd1ff7894834c213fa317f77696b1e23535ed7b002cc27a0c5ecb58bad73";

fn three_outputs() -> (Vec<PedersenCommitment>, RangeProof) {
    let amounts = vec![
        Amount::from_atomic(50_000_000),
        Amount::from_atomic(100_000_000),
        Amount::from_atomic(50_000_000),
    ];
    let commitments = amounts
        .iter()
        .zip(1u8..=3)
        .map(|(a, i)| PedersenCommitment::commit(a.as_atomic(), &BlindingFactor::from_bytes([i; 32])))
        .collect();
    let proof = RangeProof {
        version: RANGE_PROOF_VERSION_BP_PLUS,
        data: hex::decode(THREE_OUTPUT_PROOF).unwrap(),
    };
    (commitments, proof)
}

#[test]
fn test_commitment_creation() {
    let amount = Amount::from_atomic(1_000_000_000);
    let (commitment, blinding) = commit(&entropy(), amount);
    assert!(verify_commitment(&commitment, amount, &blinding));
    let wrong_amount = Amount::from_atomic(999_999_999);
    assert!(!verify_commitment(&commitment, wrong_amount, &blinding));
}

#[test]
fn test_create_and_verify_range_proof() {
    let amount = Amount::from_atomic(500_000_000);
    let (commitment, blinding) = commit(&entropy(), amount);
    let proof = create_range_proof(amount, &blinding, seed()).unwrap();
    assert_eq!(proof.version, RANGE_PROOF_VERSION_BP_PLUS);
    assert!(!proof.is_empty());
    assert!(verify_range_proof(&commitment, &proof));
}

#[test]
fn test_range_proof_prevents_overflow() {
    let valid_amount = Amount::from_atomic(u64::MAX / 2);
    let (commitment, blinding) = commit(&entropy(), valid_amount);
    let proof = create_range_proof(valid_amount, &blinding, seed()).unwrap();
    assert!(verify_range_proof(&commitment, &proof));
}

#[test]
fn test_empty_proof() {
    let proof = RangeProof::empty();
    assert!(proof.is_empty());
    assert_eq!(proof.size(), 1);
}

#[test]
fn test_aggregated_proof() {
    let amounts = vec![Amount::from_atomic(100_000_000), Amount::from_atomic(200_000_000)];
    let (blindings, commitments) = opening_set(&amounts);
    let proof = create_aggregated_range_proof(&amounts, &blindings, seed()).unwrap();
    assert!(!proof.is_empty());
    assert!(verify_range_proofs(&commitments, &proof));
}

#[test]
fn test_wrong_commitment_fails() {
    let amount = Amount::from_atomic(1_000_000);
    let (_, blinding) = commit(&entropy(), amount);
    let proof = create_range_proof(amount, &blinding, seed()).unwrap();
    let wrong_amount = Amount::from_atomic(2_000_000);
    let (wrong_commitment, _) = commit(&entropy(), wrong_amount);
    assert!(!verify_range_proof(&wrong_commitment, &proof));
}

#[test]
fn test_proof_serialization() {
    let amount = Amount::from_atomic(123_456_789);
    let (_, blinding) = commit(&entropy(), amount);
    let proof = create_range_proof(amount, &blinding, seed()).unwrap();
    let bytes = proof.try_to_bytes().unwrap();
    let restored = RangeProof::from_bytes(&bytes).unwrap();
    assert_eq!(proof.version, restored.version);
    assert_eq!(proof.data, restored.data);
}

#[test]
fn test_bp_plus_single_proof() {
    let amount = Amount::from_atomic(500_000_000);
    let (commitment, blinding) = commit(&entropy(), amount);
    let proof = create_range_proof_bp_plus(amount, &blinding, seed()).unwrap();
    assert_eq!(proof.version, RANGE_PROOF_VERSION_BP_PLUS);
    assert!(!proof.is_empty());
    assert!(verify_range_proof_bp_plus(&commitment, &proof));
    assert!(verify_range_proof(&commitment, &proof));
    assert!(verify_range_proof_dispatch(&commitment, &proof, BULLETPROOFS_PLUS_HEIGHT));
}

#[test]
fn test_bp_plus_aggregated_proof() {
    let amounts = vec![Amount::from_atomic(100_000_000), Amount::from_atomic(200_000_000)];
    let (blindings, commitments) = opening_set(&amounts);
    let proof = create_aggregated_range_proof_bp_plus(&amounts, &blindings, seed()).unwrap();
    assert_eq!(proof.version, RANGE_PROOF_VERSION_BP_PLUS);
    assert!(verify_range_proofs_bp_plus(&commitments, &proof));
    assert!(verify_range_proofs_dispatch(&commitments, &proof, BULLETPROOFS_PLUS_HEIGHT));
}

#[test]
fn test_bp_plus_proof_not_empty() {
    let amount = Amount::from_atomic(1_000_000);
    let blinding = BlindingFactor::random(&entropy());
    let commitment = PedersenCommitment::commit(amount.as_atomic(), &blinding);
    let proof = create_range_proof_bp_plus(amount, &blinding, seed()).unwrap();
    assert!(!proof.is_empty());
    assert!(proof.data.len() > 0);
    assert!(verify_range_proof_bp_plus(&commitment, &proof));
}

#[test]
fn test_height_dispatch_creation() {
    let amount = Amount::from_atomic(42_000_000);
    let blinding = BlindingFactor::random(&entropy());
    let commitment = PedersenCommitment::commit(amount.as_atomic(), &blinding);

    let proof = create_range_proof_for_height(amount, &blinding, seed(), 0).unwrap();
    assert_eq!(proof.version, RANGE_PROOF_VERSION_BP_PLUS);
    assert!(verify_range_proof_dispatch(&commitment, &proof, 0));

    let proof_high = create_range_proof_for_height(amount, &blinding, seed(), 100_000).unwrap();
    assert_eq!(proof_high.version, RANGE_PROOF_VERSION_BP_PLUS);
    assert!(verify_range_proof_dispatch(&commitment, &proof_high, 100_000));
}

#[test]
fn test_bp_plus_wrong_commitment_fails() {
    let amount = Amount::from_atomic(1_000_000);
    let blinding = BlindingFactor::random(&entropy());
    let proof = create_range_proof_bp_plus(amount, &blinding, seed()).unwrap();
    let (wrong_commitment, _) = commit(&entropy(), Amount::from_atomic(2_000_000));
    assert!(!verify_range_proof_bp_plus(&wrong_commitment, &proof));
}

#[test]
fn range_proof_is_a_function_of_its_seed() {
    let amount = Amount::from_atomic(77);
    let blinding = BlindingFactor::from_bytes([5u8; 32]);
    let a = create_range_proof(amount, &blinding, [1u8; 32]).unwrap();
    let b = create_range_proof(amount, &blinding, [1u8; 32]).unwrap();
    let c = create_range_proof(amount, &blinding, [2u8; 32]).unwrap();
    assert_eq!(a.data, b.data);
    assert_ne!(a.data, c.data);
    assert_eq!(a.data.len(), 193 + 64 * 6);
}

#[test]
fn aggregated_inputs_are_refused_or_empty() {
    let amounts = vec![Amount::from_atomic(1); 17];
    let blindings: Vec<BlindingFactor> = (0..17).map(|_| BlindingFactor::zero()).collect();
    assert_eq!(
        create_aggregated_range_proof(&amounts, &blindings, seed()),
        Err(Error::RangeProofInvalid)
    );
    assert_eq!(
        create_aggregated_range_proof(&amounts[..2], &blindings[..1], seed()),
        Err(Error::RangeProofInvalid)
    );
    let none = create_aggregated_range_proof_for_height(&[], &[], seed(), 3).unwrap();
    assert_eq!(none.version, RANGE_PROOF_VERSION_BP_PLUS);
    assert!(none.is_empty());
    assert!(verify_range_proofs(&[], &none));
    assert!(!verify_range_proofs(&[PedersenCommitment::zero()], &none));
}

#[test]
fn old_version_and_empty_proofs_are_refused() {
    let amount = Amount::from_atomic(9);
    let (commitment, blinding) = commit(&entropy(), amount);
    let mut proof = create_range_proof(amount, &blinding, seed()).unwrap();
    assert!(batch_verify_range_proofs(&[(commitment, proof.clone())]));
    proof.version = RANGE_PROOF_VERSION;
    assert!(!verify_range_proof(&commitment, &proof));
    assert!(!verify_range_proof_dispatch(&commitment, &proof, 10));
    assert!(!verify_range_proofs_dispatch(&[commitment], &proof, 10));
    assert!(!batch_verify_range_proofs(&[(commitment, proof)]));
    assert!(!verify_range_proof(&commitment, &RangeProof::empty()));
    let junk = RangeProof { version: RANGE_PROOF_VERSION_BP_PLUS, data: vec![1, 2, 3] };
    assert!(!verify_range_proof(&commitment, &junk));
}

#[test]
fn range_proof_wire_is_strict() {
    let proof = RangeProof { version: 3, data: vec![9, 8, 7] };
    let bytes = proof.try_to_bytes().unwrap();
    assert_eq!(bytes, vec![3, 3, 0, 0, 0, 9, 8, 7]);
    assert_eq!(RangeProof::from_bytes(&bytes), Ok(proof));
    assert_eq!(RangeProof::from_bytes(&bytes[..7]), Err(Error::RangeProofInvalid));
    let mut long = bytes.clone();
    long.push(0);
    assert_eq!(RangeProof::from_bytes(&long), Err(Error::RangeProofInvalid));
    assert_eq!(RangeProof::from_bytes(&[]), Err(Error::RangeProofInvalid));
}

#[test]
fn commitments_add_up_and_subtract() {
    let r1 = BlindingFactor::random(&entropy());
    let r2 = BlindingFactor::random(&entropy());
    let a = PedersenCommitment::commit(700, &r1);
    let b = PedersenCommitment::commit(300, &r2);
    let sum = PedersenCommitment::commit(1000, &r1.add(&r2));
    let diff = PedersenCommitment::commit(400, &r1.sub(&r2));
    assert_eq!(a.checked_add(&b), Some(sum));
    assert_eq!(a.checked_sub(&b), Some(diff));
    assert_eq!(a + b, sum);
    assert_eq!(a + &b, sum);
    let bad = PedersenCommitment::from_bytes_unchecked([0xFF; 32]);
    assert_eq!(a.checked_add(&bad), None);
    assert_eq!(bad.checked_sub(&a), None);
    assert_eq!(a + bad, PedersenCommitment::zero());
    assert_eq!(PedersenCommitment::from_bytes_checked([0xFF; 32]), None);
    assert_eq!(PedersenCommitment::from_bytes_checked(a.to_bytes()), Some(a));
}

#[test]
fn coinbase_output_has_no_blinding() {
    let c = PedersenCommitment::commit(5_000, &BlindingFactor::zero());
    assert!(verify_coinbase_output(&c, 5_000));
    assert!(!verify_coinbase_output(&c, 5_001));
}

#[test]
fn commitment_hex_and_value_base() {
    let one = PedersenCommitment::commit(1, &BlindingFactor::zero());
    assert_eq!(
        one.to_hex(),
        "8c9240b456a9e6dc65c377a1048d745f94a08cdb7f44cbcd7b46f34048871134"
    );
    let basepoint = PedersenCommitment::commit(0, &BlindingFactor::from_scalar(Scalar::one()));
    assert_eq!(
        basepoint.to_hex(),
        "e2f2ae0a6abc4e71a884a961c500515f58e30b6aa582dd8db6a65945e08d2d76"
    );
}

#[test]
fn blinding_factor_wipes() {
    let mut r = BlindingFactor::random(&entropy());
    assert_ne!(r.to_bytes(), [0u8; 32]);
    assert_eq!(r.as_bytes(), &r.to_bytes()[..]);
    r.zeroize();
    assert_eq!(r.to_bytes(), [0u8; 32]);
}

#[test]
fn test_aggregated_proof_three_outputs() {
    let (commitments, proof) = three_outputs();
    assert!(!proof.is_empty());
    assert!(verify_range_proofs(&commitments, &proof));
}

#[test]
fn test_bp_plus_three_outputs() {
    let (commitments, proof) = three_outputs();
    assert!(verify_range_proofs_bp_plus(&commitments, &proof));
    assert_eq!(proof.data.len(), 193 + 64 * 8);
    assert!(!verify_range_proofs_bp_plus(&commitments[..2], &proof));
}

#[test]
fn padding_is_with_neutral_commitments() {
    let (mut commitments, proof) = three_outputs();
    commitments.push(PedersenCommitment::zero());
    assert!(verify_range_proofs(&commitments, &proof));
    commitments[3] = PedersenCommitment::commit(1, &BlindingFactor::zero());
    assert!(!verify_range_proofs(&commitments, &proof));
    commitments[3] = PedersenCommitment::from_bytes_unchecked([0xFF; 32]);
    assert!(!verify_range_proofs(&commitments, &proof));
}

/// A proof for 1 to 4 million, where the amount `i` million has the blinding `i` in every byte.
const FOUR_OUTPUT_PROOF: &str = "011680f6dd9391cfca67250c09128550f99a1c7941e2f794e6af83534999a9b20a0c12040e2baf0639b99725a2\
c8b974379b11770523c513e8440e75714c14383bac471795c3efa2fd3912e80f718a741b937c6856ebaed896cd\
de5ba5ec7679416052cfaf45de01e7f6f752dd13a19088747865cfafd32df458ee668dfd6e023210bc0cc84e53\
920b56fa6fb4adc88cef0372e69137e8574b2c5ce0b87b7d45055cd8ca1bbc44c082e53626dd6bf296d9b43906\
64cc91a4ce3c4782000476c60d00f72a72363b919fbf1d52a35ebc83f8555f78c5675f3b93829d1cba9bcceb7a\
5adf6d91c57ebe513b1c1b64352ba4b4f0f92ea3b15afd262b9516271d786d39c640a9f47b35a7c43fb04c3a23\
5e136dc8a9ea7af70951efe165a15471a5c53e3e12134fc2f2e3f00581fffc765896c24368a91714429036df45\
0194f886e62592a97e23984905db5121836e8a428b31101e2ba4deca7e7c66e9477b7bf85214be57ca68980245\
3c16f05cb0c20ccf2c4245ec38510ae44215da6334b0b61626642248cf87af74679b292b8c51f1d3bf06539419\
bb4b9219aee8a66251b5c520560bfdebd77caebb781092ff265b798e3a4596b9444b91716b68bfa194bddf16b6\
82fbebdb61871de2b51bc27d47f43ee0df091b561bc2229c4be9b0b99e0e400a6eaedc94244218646a13171819\
fdacaa32499f96ecf638d00c4c4a1924c04c2211c77e40ce4518f2a79c930b30d5ff971310617ac47214134e91\
21d66352209695ce0de50fd15aed1dbdcb28253aa1430221fa696182068306594f7b236d243a1a2ab90a38573e\
01de9a01028b51a528f967cef68284b71e1e7e5ec83b36034c0e753a3b1bb7d9024fd542a27bacb5f58a97c0b4\
86fe85ee0e99b34fdb565dfc782353e20f33b893cdc4ef5d135d30441e741281c6cbf3439f540a6859544aaae4\
85ef3496631a74d533ddd6dbb7316e4b4858fcc87da933ea3234fcef3c27";

/// A proof for 1 to 5 million, where the amount `i` million has the blinding `i` in every byte.
const FIVE_OUTPUT_PROOF: &str = "017dc5a92e1b49ce86ddb93596f8b968233927a165461c38b25d012ddefbbfc30490a5945f3774b8fc77054cb2\
75de35552a0a62ca3404e13139cbe984eee63d62b27bc27edef822ac32c249aba172961d80891342fa5abbcebd\
1cb1f52ecd65632a8639dccaa48f8bbc3488aea6d877cbcd2100acf896d2be16b0f8920a42e24209af9a3b4d26\
1827932577a0b6102b14d130a1a0aea5ed54e9dd561b5efdba0912c5b4c54302fcaa08213b197ee6735e72053c\
f69d624663b96fa327304efc0308e724bfb53e87cb88284d90e4be39a4d958833f17b6d959ed7f131c7859bc35\
d26b2609e5275ed89f9085a490cd48fc3975b28f8270361182d79fd49f2b16238ca409bd5a5392dc0d6c272f8f\
005e635e97ec716b4fe92cef05625e700adb374c15aff4cfa4df4cc15c87ab2d3c7aeb682e700082fd3075ad13\
f6f43f20cf661cece4c179897b3e04a58b1a4c9cd7504c7a3a844c3554cd31279fb08ae2bc0bbae0fa979d1fc0\
c6e909930014237858138d3227c71cca063594be8e233d7e7da2f0a6cea0a37f18688885026dee0629647f429b\
93188095ba9b0d6af9e69e49e0eff8edf0f0693c27fde35164a0a3b77de7f8ff980d304e2e721eaf884d416c5a\
c9636b9687aee5896c99208dbf0531dce89e80147f10e04ddbb2c253a6ff3988f01a38ee80ae345fe59b22cbb5\
8ceec28794806a138639b8ce8faf8f4e134270f253908b04cb0e6f56532827576c4c2a9727afafb668b979d251\
8704298e1ffa5df0148d5048377e11da8302d59b196342f7a39e1bf47d9ce38eda290b755218ca611979d9c264\
bc8b084a20894566886de79fecb280e8a4f5d61e3bb0d6755440e7f12faf541a6aa0ab6e1d8b0132b326752b8e\
56e8c4d897a9e9ccd9b4111c059904803e1d0f9c2e728a0c5be2f56343e662391201c94bfb4b5459a8772d2ad6\
9addf9b9dbdee101acf46af4bf591064fd54cace3a198b53b3252db7cb526ee5e41fc61913d4275a18a18158b9\
1c00145aaa9fe11ba84d57ba7a9932822246c0cc13958e2a6e1a9b426d3d3d01cdf62699fb768d8c67c927b7c7\
bc92b34b";

fn stored_outputs(count: u8, data: &str) -> (Vec<PedersenCommitment>, RangeProof) {
    let commitments = (1..=count)
        .map(|i| {
            let amount = Amount::from_atomic(i as u64 * 1_000_000);
            PedersenCommitment::commit(amount.as_atomic(), &BlindingFactor::from_bytes([i; 32]))
        })
        .collect();
    let proof = RangeProof {
        version: RANGE_PROOF_VERSION_BP_PLUS,
        data: hex::decode(data).unwrap(),
    };
    (commitments, proof)
}

#[test]
fn test_aggregated_proof_five_outputs() {
    // Five outputs are padded to eight.
    let (commitments, proof) = stored_outputs(5, FIVE_OUTPUT_PROOF);
    assert!(!proof.is_empty());
    assert!(verify_range_proofs(&commitments, &proof));
}

#[test]
fn test_power_of_2_padding_boundary() {
    // Four outputs need no padding.
    let (commitments_4, proof_4) = stored_outputs(4, FOUR_OUTPUT_PROOF);
    assert!(verify_range_proofs(&commitments_4, &proof_4));

    // Five outputs are padded to eight.
    let (commitments_5, proof_5) = stored_outputs(5, FIVE_OUTPUT_PROOF);
    assert!(verify_range_proofs(&commitments_5, &proof_5));
}

#[test]
fn a_stored_proof_is_bound_to_its_outputs() {
    let (mut commitments, proof) = stored_outputs(4, FOUR_OUTPUT_PROOF);
    commitments.swap(0, 1);
    assert!(!verify_range_proofs(&commitments, &proof));
}

#[test]
fn proof_sizes_grow_with_the_padded_number() {
    let amount = Amount::from_atomic(5);
    let blinding = BlindingFactor::random(&entropy());
    assert_eq!(create_range_proof(amount, &blinding, seed()).unwrap().data.len(), 577);
    assert_eq!(three_outputs().1.data.len(), 577 + 2 * 64);
    assert_eq!(stored_outputs(5, FIVE_OUTPUT_PROOF).1.data.len(), 577 + 3 * 64);
}

#[test]
fn texts_of_proofs_and_commitments() {
    assert_eq!(RangeProof::empty().debug_text(), "RangeProof(v2, 1 bytes)");
    let c = PedersenCommitment::from_bytes_unchecked([0xab; 32]);
    assert_eq!(c.debug_text(), "Commitment(abababababababab...)");
    assert_eq!(BlindingFactor::zero().debug_text(), "BlindingFactor([REDACTED])");
}
