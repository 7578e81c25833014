//! Threshold signing for CLSAG: the data flow of a fully distributed variant, and what is
//! implemented of it.
use vstd::prelude::*;

verus! {

/// What a coordinator would share with the signers of a distributed variant.
#[derive(Clone, Debug, PartialEq, Eq)]
pub struct ClsagThresholdParams {
    /// The challenge at the position of the signer.
    pub challenge_at_real: [u8; 32],
    /// The coefficient of the spend key.
    pub mu_p: [u8; 32],
    /// The message.
    pub message: Vec<u8>,
    /// The number of ring members.
    pub ring_size: usize,
    /// The position of the signer.
    pub real_index: usize,
}

/// The status text.
pub const INTEGRATION_STATUS: &'static str =
    "─── CLSAG threshold-signing status ─────────────────────────────\n\
     \n\
     [SHIPPED] Standalone FROST(ed25519) keygen + signing\n\
     Location: src/wallet/multisig.rs (functions: generate_shares,\n\
     signing_round1, signing_round2, aggregate_signature).\n\
     \n\
     [SHIPPED] Standalone single-signer CLSAG\n\
     Location: src/crypto/clsag.rs (functions: clsag_sign, clsag_verify).\n\
     \n\
     [SHIPPED] Practical threshold CLSAG via Reconstruct-Sign-Zeroize\n\
     Location: src/wallet/multisig.rs::clsag_sign_multisig (line 427).\n\
     Coordinator collects M signing shares, Lagrange-interpolates the\n\
     group secret into a `SecretScalar` (ZeroizeOnDrop), signs via the\n\
     standard clsag_sign path, and the reconstructed key wipes on drop.\n\
     The on-chain signature is byte-indistinguishable from single-signer.\n\
     Security note: the group secret exists in coordinator memory for\n\
     ~microseconds; hardware-wallet-style single-machine signing has\n\
     the same window. See wallet/multisig.rs:319-338 for the trade-off.\n\
     \n\
     [NOT IMPLEMENTED] Fully-distributed CLSAG threshold signing\n\
     Location: this file (design only). Would require a fork of\n\
     frost-core to expose raw nonce scalars for the CLSAG-specific\n\
     challenge chain. Deferred to a future release.\n\
     \n\
     ─── Integration math (documented for the v2 distributed path) ──\n\
     s_real = alpha - c * (mu_p * x + mu_c * z)\n\
       - alpha  : FROST distributed nonce (round 1) — v2\n\
       - mu_p*x : FROST distributed signing (round 2) — v2\n\
       - mu_c*z : coordinator adds blinding factor\n\
     See `_protocol_documentation` below for the full math block.";

/// What is implemented of threshold signing, and where.
pub fn integration_status() -> (r: &'static str)
    ensures
        r@ == INTEGRATION_STATUS@,
{
    INTEGRATION_STATUS
}

/// The math of the fully distributed variant, which is not implemented.
///
/// A single signer draws `alpha`, publishes `L = alpha*G` and `R = alpha*Hp(P)`, runs the chain of
/// challenges to its own position, and answers `s = alpha - c*(mu_p*x + mu_c*z)`. In the
/// distributed variant each signer draws a part of `alpha`; the coordinator adds the parts
/// up and runs the chain; each signer answers its part `alpha_i - c*mu_p*x_i`; the coordinator
/// adds the answers up and subtracts `c*mu_c*z`. The signature has the same form.
pub fn _protocol_documentation() {
}

} // verus!
