use coincync::clsag_multisig::{integration_status, _protocol_documentation};
use coincync::halo2_circuit::{ActionPublicInputs, ShieldedActionProof};

#[test]
fn integration_status_names_actual_implementation() {
    let s = integration_status();
    assert!(
        s.contains("wallet/multisig.rs"),
        "must reference the file where threshold-CLSAG is actually implemented"
    );
    assert!(
        s.contains("NOT IMPLEMENTED"),
        "must be explicit that the distributed variant is not shipped"
    );
    assert!(
        s.contains("clsag_sign_multisig"),
        "must name the actual practical implementation function"
    );
    assert!(
        !s.contains("threshold ring signing: COMPLETE"),
        "must NOT falsely mark the distributed variant complete"
    );
    _protocol_documentation();
}

#[test]
fn no_shielded_action_is_accepted() {
    let proof = ShieldedActionProof { bytes: vec![1, 2, 3] };
    let inputs = ActionPublicInputs::default();
    assert_eq!(inputs.anchor, [0u8; 32]);
    assert!(!proof.is_empty());
    assert!(!proof.verify(&inputs));
    assert!(ShieldedActionProof::empty().is_empty());
    assert!(!ShieldedActionProof::default().verify(&inputs));
}
