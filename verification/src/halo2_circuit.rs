//! The shielded action: its public inputs and its proof. There is no circuit yet, so no
//! proof is accepted.
use vstd::prelude::*;

verus! {

/// What a verifier sees of a shielded action.
#[derive(Clone, Copy, Debug, PartialEq, Eq)]
pub struct ActionPublicInputs {
    /// The root of the note tree.
    pub anchor: [u8; 32],
    /// The nullifier of the spent note.
    pub nullifier: [u8; 32],
    /// The commitment of the new note.
    pub commitment: [u8; 32],
    /// The commitment to the value.
    pub value_commitment: [u8; 32],
}

impl Default for ActionPublicInputs {
    fn default() -> (r: ActionPublicInputs)
        ensures
            r.anchor@ == Seq::new(32, |i: int| 0u8),
            r.nullifier@ == Seq::new(32, |i: int| 0u8),
            r.commitment@ == Seq::new(32, |i: int| 0u8),
            r.value_commitment@ == Seq::new(32, |i: int| 0u8),
    {
        let zero: [u8; 32] = [0u8; 32];
        assert(zero@ =~= Seq::new(32, |i: int| 0u8));
        ActionPublicInputs {
            anchor: zero,
            nullifier: zero,
            commitment: zero,
            value_commitment: zero,
        }
    }
}

/// The proof of a shielded action, as bytes.
#[derive(Clone, Debug, PartialEq, Eq)]
pub struct ShieldedActionProof {
    /// The bytes.
    pub bytes: Vec<u8>,
}

impl Default for ShieldedActionProof {
    fn default() -> (r: ShieldedActionProof)
        ensures
            r.bytes@.len() == 0,
    {
        ShieldedActionProof::empty()
    }
}

impl ShieldedActionProof {
    /// The proof without bytes.
    pub fn empty() -> (r: ShieldedActionProof)
        ensures
            r.bytes@.len() == 0,
    {
        let bytes: Vec<u8> = Vec::new();
        ShieldedActionProof { bytes }
    }

    /// Whether the proof has no bytes.
    pub fn is_empty(&self) -> (r: bool)
        ensures
            r == (self.bytes@.len() == 0),
    {
        self.bytes.len() == 0
    }

    /// Whether the proof is accepted. None is.
    pub fn verify(&self, _inputs: &ActionPublicInputs) -> (r: bool)
        ensures
            !r,
    {
        false
    }
}

} // verus!
