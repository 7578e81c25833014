//! The turnstile: value that crosses between the transparent and the shielded pool.
//!
//! A transparent commitment `T = v*H + r*G` and a shielded commitment `V = v*Gv + b*K` are
//! proved to hide the same value. Shielding and unshielding prove the same relation.
use vstd::prelude::*;
use crate::curve;
use crate::error::{Error, Result};
use crate::group;
use crate::group::{RistrettoPoint, Scalar};
use crate::shielded_spend;
use crate::spark_range;
use crate::spark_range::{prove_value_bridge, verify_value_bridge, ValueEqualityProof};

verus! {

/// The proof of a crossing.
pub type TurnstileProof = ValueEqualityProof;

/// Proves that a value crosses unchanged.
pub fn prove_value_crossing(
    value: u64,
    transparent_blinding: &Scalar,
    shielded_blinding: &Scalar,
    nonces: &[Scalar; 3],
) -> (p: TurnstileProof)
    ensures
        spark_range::is_equality_proof(
            p,
            value as nat,
            shielded_blinding@,
            transparent_blinding@,
            nonces@[0]@,
            nonces@[1]@,
            nonces@[2]@,
        ),
{
    prove_value_bridge(value, shielded_blinding, transparent_blinding, nonces)
}

/// Checks that a transparent and a shielded commitment hide the same value.
pub fn verify_value_crossing(
    transparent_commitment: &RistrettoPoint,
    shielded_value_commitment: &RistrettoPoint,
    crossing: &TurnstileProof,
) -> (r: Result<()>)
    ensures
        r == if spark_range::equality_valid(
            shielded_value_commitment@,
            transparent_commitment@,
            *crossing,
        ) {
            Ok::<(), Error>(())
        } else {
            Err(Error::SparkVerifyFailed)
        },
{
    verify_value_bridge(shielded_value_commitment, transparent_commitment, crossing)
}

/// An honest crossing is accepted for the transparent and the shielded commitment to its
/// value, unless a nonce commitment is the neutral element.
pub proof fn law_crossing_conserves_value(
    p: TurnstileProof,
    value: u64,
    transparent_blinding: Scalar,
    shielded_blinding: Scalar,
    nonces: [Scalar; 3],
)
    requires
        spark_range::is_equality_proof(
            p,
            value as nat,
            shielded_blinding@,
            transparent_blinding@,
            nonces@[0]@,
            nonces@[1]@,
            nonces@[2]@,
        ),
        shielded_spend::value_point(nonces@[0]@, nonces@[1]@) != 0,
        curve::pedersen(nonces@[0]@, nonces@[2]@) != 0,
    ensures
        spark_range::equality_valid(
            shielded_spend::value_point(value as nat, shielded_blinding@),
            curve::pedersen(value as nat, transparent_blinding@),
            p,
        ),
{
    group::lemma_scalar_range(transparent_blinding);
    group::lemma_scalar_range(nonces@[2]);
    spark_range::law_honest_equality_verifies(
        p,
        value as nat,
        shielded_blinding@,
        transparent_blinding@,
        nonces@[0]@,
        nonces@[1]@,
        nonces@[2]@,
    );
}

} // verus!
