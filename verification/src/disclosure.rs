//! Selective disclosure: proofs of single facts about a wallet.
//!
//! A balance proof shows that a commitment hides at least a threshold, an ownership proof that
//! the prover holds the key of an output, a sum proof what several outputs add up to, and
//! a source proof that a key image belongs to a public key.
use vstd::prelude::*;
use crate::bulletproofs;
use crate::bulletproofs::{
    create_range_proof, verify_range_proof, BlindingFactor, PedersenCommitment, RangeProof,
};
use crate::bytes;
use crate::bytes::{append, append_tag, append_u64, bytes_equal};
use crate::curve;
use crate::curve::{hash_to_point, hash_to_scalar, KeyImage, PublicPoint, SecretScalar};
use crate::entropy::{os_random_32, os_random_64, unix_time};
use crate::error;
use crate::error::{Error, Result};
use crate::field;
use crate::group;
use crate::group::{RistrettoPoint, Scalar};
use crate::hashing;
use crate::hashing::hash_tagged;
use crate::primitives::{Amount, PublicKey, SecretKey};
use crate::secure::ct_eq;
use crate::stealth;

verus! {

/// The kinds of disclosure.
#[derive(Clone, Copy, Debug, PartialEq, Eq, Structural)]
pub enum DisclosureType {
    /// A balance is at least a threshold.
    Balance,
    /// An output is owned.
    Ownership,
    /// Outputs add up to a total.
    Sum,
    /// A key image belongs to a public key.
    Source,
}

/// An output on the chain.
#[derive(Clone, Copy, Debug, PartialEq, Eq)]
pub struct OutputRef {
    /// The hash of the transaction.
    pub tx_hash: crate::primitives::Hash,
    /// The index of the output in it.
    pub output_index: u8,
}

// --- Balance -----------------------------------------------------------------------

/// A proof that a commitment hides a value that is not below a threshold.
#[derive(Clone, Debug, PartialEq, Eq)]
pub struct BalanceProof {
    /// The threshold.
    pub threshold: u64,
    /// The commitment to the value less the threshold, under another blinding.
    pub adjusted_commitment: [u8; 32],
    /// The range proof of that commitment.
    pub range_proof: RangeProof,
    /// The nonce commitment, encoded.
    pub schnorr_r: [u8; 32],
    /// The response for the difference of the blindings.
    pub schnorr_s: [u8; 32],
    /// The commitment on the chain.
    pub original_commitment: [u8; 32],
    /// When the proof was made.
    pub timestamp: u64,
}

/// What the challenge of a balance proof hashes.
pub open spec fn balance_input(
    r: Seq<u8>,
    original: Seq<u8>,
    adjusted: Seq<u8>,
    threshold: u64,
) -> Seq<u8> {
    bytes::tag("COINCYNC_BALANCE_PROOF_v1") + r + original + adjusted
        + vstd::bytes::spec_u64_to_le_bytes(threshold)
}

/// The challenge of a balance proof.
pub open spec fn balance_challenge(
    r: Seq<u8>,
    original: Seq<u8>,
    adjusted: Seq<u8>,
    threshold: u64,
) -> nat {
    field::red(
        field::le_nat(hashing::sha3_512(balance_input(r, original, adjusted, threshold))) as int,
    )
}

fn compute_balance_challenge(
    r: &[u8; 32],
    original: &[u8; 32],
    adjusted: &[u8; 32],
    threshold: u64,
) -> (c: Scalar)
    ensures
        c@ == balance_challenge(r@, original@, adjusted@, threshold),
{
    let mut input: Vec<u8> = Vec::new();
    append_tag(&mut input, "COINCYNC_BALANCE_PROOF_v1");
    append(&mut input, r);
    append(&mut input, original);
    append(&mut input, adjusted);
    append_u64(&mut input, threshold);
    assert(input@ =~= balance_input(r@, original@, adjusted@, threshold));
    Scalar::from_bytes_mod_order_wide(&hashing::sha3_512_digest(input.as_slice()))
}

/// What the making of a balance proof draws at random.
pub struct BalanceDraw {
    /// The blinding of the adjusted commitment.
    pub blinding: nat,
    /// The seed of the range proof.
    pub seed: Seq<u8>,
    /// The nonce.
    pub nonce: nat,
    /// The time.
    pub time: u64,
}

/// What making a balance proof gives, for what was drawn.
pub open spec fn balance_made(
    r: Result<BalanceProof>,
    value: u64,
    blinding: nat,
    commitment: Seq<u8>,
    threshold: u64,
    draw: BalanceDraw,
) -> bool {
    if value < threshold {
        r matches Err(e) && error::is_crypto(
            e,
            "Cannot prove balance: value is less than threshold"@,
        )
    } else {
        let rest = Amount { atomic: (value - threshold) as u64 };
        match r {
            Ok(p) => {
                let c = balance_challenge(
                    p.schnorr_r@,
                    commitment,
                    p.adjusted_commitment@,
                    threshold,
                );
                &&& p.threshold == threshold
                &&& p.timestamp == draw.time
                &&& p.original_commitment@ == commitment
                &&& group::encodes(
                    p.adjusted_commitment@,
                    curve::pedersen(rest@, draw.blinding),
                )
                &&& bulletproofs::made_single(Ok(p.range_proof), rest, draw.blinding, draw.seed)
                &&& group::encodes(p.schnorr_r@, draw.nonce)
                &&& p.schnorr_s@ == field::scalar_bytes(
                    field::minus(
                        draw.nonce,
                        field::times(c, field::minus(blinding, draw.blinding)),
                    ),
                )
            },
            Err(e) => bulletproofs::made_single(Err(e), rest, draw.blinding, draw.seed),
        }
    }
}

/// Proves that a commitment hides a value that is not below a threshold.
pub fn create_balance_proof(
    value: u64,
    blinding: &BlindingFactor,
    commitment: &PedersenCommitment,
    threshold: u64,
) -> (r: Result<BalanceProof>)
    ensures
        exists|draw: BalanceDraw|
            draw.blinding < field::order() && draw.nonce < field::order() && #[trigger] balance_made(
                r,
                value,
                blinding@,
                commitment@,
                threshold,
                draw,
            ),
{
    let fresh = os_random_64();
    let seed = os_random_32();
    let nonce = os_random_64();
    let time: u64 = unix_time();
    proof {
        field::lemma_red_range(field::le_nat(fresh@) as int);
        field::lemma_red_range(field::le_nat(nonce@) as int);
    }
    create_balance_proof_with(value, blinding, commitment, threshold, &fresh, seed, &nonce, time)
}

/// Proves that a commitment hides a value that is not below a threshold, with given
/// randomness and time.
pub fn create_balance_proof_with(
    value: u64,
    blinding: &BlindingFactor,
    commitment: &PedersenCommitment,
    threshold: u64,
    fresh: &[u8; 64],
    seed: [u8; 32],
    nonce: &[u8; 64],
    time: u64,
) -> (r: Result<BalanceProof>)
    ensures
        balance_made(
            r,
            value,
            blinding@,
            commitment@,
            threshold,
            (BalanceDraw {
                blinding: field::red(field::le_nat(fresh@) as int),
                seed: seed@,
                nonce: field::red(field::le_nat(nonce@) as int),
                time,
            }),
        ),
{
    if value < threshold {
        return Err(error::crypto("Cannot prove balance: value is less than threshold"));
    }
    let adjusted_value: u64 = value - threshold;
    let adjusted_blinding = BlindingFactor::random(fresh);
    let adjusted = PedersenCommitment::commit(adjusted_value, &adjusted_blinding);
    let range_proof = match create_range_proof(
        Amount::from_atomic(adjusted_value),
        &adjusted_blinding,
        seed,
    ) {
        Ok(p) => p,
        Err(e) => {
            return Err(e);
        },
    };
    let d = blinding.sub(&adjusted_blinding);
    let k = SecretScalar::random(nonce);
    let r_point = k.to_public().to_bytes();
    let c = compute_balance_challenge(
        &r_point,
        commitment.as_bytes(),
        adjusted.as_bytes(),
        threshold,
    );
    let s = k.as_scalar().sub(&c.mul(d.as_scalar()));
    Ok(
        BalanceProof {
            threshold,
            adjusted_commitment: adjusted.to_bytes(),
            range_proof,
            schnorr_r: r_point,
            schnorr_s: s.to_bytes(),
            original_commitment: commitment.to_bytes(),
            timestamp: time,
        },
    )
}

/// Whether the equation of a balance proof holds: `s*G + c*(C - t*H - C') == R`.
pub open spec fn balance_equation(p: BalanceProof) -> bool {
    let original = group::ristretto_log(p.original_commitment@)->0;
    let adjusted = group::ristretto_log(p.adjusted_commitment@)->0;
    let r = group::ristretto_log(p.schnorr_r@)->0;
    let c = balance_challenge(
        p.schnorr_r@,
        p.original_commitment@,
        p.adjusted_commitment@,
        p.threshold,
    );
    let delta = field::minus(original, field::times(curve::h_log(), p.threshold as nat));
    field::plus(
        field::red(field::le_nat(p.schnorr_s@) as int),
        field::times(field::minus(delta, adjusted), c),
    ) == r
}

/// What checking a balance proof gives.
pub open spec fn balance_verdict(r: Result<bool>, p: BalanceProof) -> bool {
    if group::ristretto_log(p.original_commitment@) is None {
        r matches Err(e) && error::is_crypto(e, "Invalid original commitment"@)
    } else if group::ristretto_log(p.adjusted_commitment@) is None {
        r matches Err(e) && error::is_crypto(e, "Invalid adjusted commitment"@)
    } else if group::ristretto_log(p.schnorr_r@) is None {
        r matches Err(e) && error::is_crypto(e, "Invalid Schnorr R point"@)
    } else {
        r == Ok::<bool, Error>(
            balance_equation(p) && bulletproofs::single_accepted(
                p.adjusted_commitment@,
                p.range_proof.version,
                p.range_proof.data@,
            ),
        )
    }
}

/// Checks a balance proof.
pub fn verify_balance_proof(claim: &BalanceProof) -> (r: Result<bool>)
    ensures
        balance_verdict(r, *claim),
{
    let original = match RistrettoPoint::decompress(&claim.original_commitment) {
        Some(p) => p,
        None => {
            return Err(error::crypto("Invalid original commitment"));
        },
    };
    let adjusted = match RistrettoPoint::decompress(&claim.adjusted_commitment) {
        Some(p) => p,
        None => {
            return Err(error::crypto("Invalid adjusted commitment"));
        },
    };
    let r_point = match RistrettoPoint::decompress(&claim.schnorr_r) {
        Some(p) => p,
        None => {
            return Err(error::crypto("Invalid Schnorr R point"));
        },
    };
    let h = curve::generator_h();
    let delta = original.sub(&h.mul(&Scalar::from_u64(claim.threshold)));
    let c = compute_balance_challenge(
        &claim.schnorr_r,
        &claim.original_commitment,
        &claim.adjusted_commitment,
        claim.threshold,
    );
    let s = Scalar::from_bytes_mod_order(&claim.schnorr_s);
    let diff = delta.sub(&adjusted);
    let lhs = RistrettoPoint::mul_base(&s).add(&diff.mul(&c));
    let lhs_bytes = lhs.compress();
    let r_bytes = r_point.compress();
    if !ct_eq(&lhs_bytes, &r_bytes) {
        return Ok(false);
    }
    let adj_commitment = match PedersenCommitment::from_bytes_checked(claim.adjusted_commitment) {
        Some(c) => c,
        None => {
            return Err(error::crypto("Invalid adjusted commitment for range proof"));
        },
    };
    Ok(verify_range_proof(&adj_commitment, &claim.range_proof))
}

/// What the challenge of a balance proof hashes determines the nonce commitment, both
/// commitments and the threshold.
pub proof fn law_balance_input_injective(
    r1: Seq<u8>,
    o1: Seq<u8>,
    a1: Seq<u8>,
    t1: u64,
    r2: Seq<u8>,
    o2: Seq<u8>,
    a2: Seq<u8>,
    t2: u64,
)
    requires
        r1.len() == 32 && o1.len() == 32 && a1.len() == 32,
        r2.len() == 32 && o2.len() == 32 && a2.len() == 32,
        balance_input(r1, o1, a1, t1) == balance_input(r2, o2, a2, t2),
    ensures
        r1 == r2,
        o1 == o2,
        a1 == a2,
        t1 == t2,
{
    let t = bytes::tag("COINCYNC_BALANCE_PROOF_v1");
    bytes::lemma_u64_bytes(t1, t2);
    bytes::lemma_u64_bytes(t2, t1);
    bytes::lemma_same_tails(
        t + r1 + o1 + a1,
        vstd::bytes::spec_u64_to_le_bytes(t1),
        t + r2 + o2 + a2,
        vstd::bytes::spec_u64_to_le_bytes(t2),
    );
    bytes::lemma_same_tails(t + r1 + o1, a1, t + r2 + o2, a2);
    bytes::lemma_same_tails(t + r1, o1, t + r2, o2);
    bytes::lemma_same_tails(t, r1, t, r2);
}

/// What is left of the original commitment when the threshold on `H` and the adjusted
/// commitment are taken off: a multiple of the basepoint where the values match.
pub open spec fn balance_gap(p: BalanceProof) -> nat {
    field::minus(
        field::minus(
            group::ristretto_log(p.original_commitment@)->0,
            field::times(curve::h_log(), p.threshold as nat),
        ),
        group::ristretto_log(p.adjusted_commitment@)->0,
    )
}

/// An accepted balance proof holds a range proof that is accepted for the adjusted
/// commitment.
pub proof fn law_accepted_balance_is_in_range(p: BalanceProof)
    requires
        balance_verdict(Ok(true), p),
    ensures
        bulletproofs::single_accepted(
            p.adjusted_commitment@,
            p.range_proof.version,
            p.range_proof.data@,
        ),
{
}

/// A balance proof commits to the threshold and to both commitments. Where one nonce
/// commitment and one response are accepted for two claims with the same gap, two different
/// strings hash to one challenge.
pub proof fn law_balance_binds_claim(p: BalanceProof, q: BalanceProof)
    requires
        balance_verdict(Ok(true), p),
        balance_verdict(Ok(true), q),
        p.schnorr_r@ == q.schnorr_r@,
        p.schnorr_s@ == q.schnorr_s@,
        p.threshold != q.threshold || p.original_commitment@ != q.original_commitment@
            || p.adjusted_commitment@ != q.adjusted_commitment@,
        balance_gap(p) == balance_gap(q),
        field::unit(balance_gap(p)),
    ensures
        ({
            let left = balance_input(
                p.schnorr_r@,
                p.original_commitment@,
                p.adjusted_commitment@,
                p.threshold,
            );
            let right = balance_input(
                q.schnorr_r@,
                q.original_commitment@,
                q.adjusted_commitment@,
                q.threshold,
            );
            &&& left != right
            &&& field::red(field::le_nat(hashing::sha3_512(left)) as int) == field::red(
                field::le_nat(hashing::sha3_512(right)) as int,
            )
        }),
{
    let s = field::red(field::le_nat(p.schnorr_s@) as int);
    let gap = balance_gap(p);
    let c1 = balance_challenge(
        p.schnorr_r@,
        p.original_commitment@,
        p.adjusted_commitment@,
        p.threshold,
    );
    let c2 = balance_challenge(
        q.schnorr_r@,
        q.original_commitment@,
        q.adjusted_commitment@,
        q.threshold,
    );
    broadcast use field::lemma_red_range;

    field::lemma_cancel_term(s, field::times(gap, c1), field::times(gap, c2));
    field::lemma_cancel(gap, c1, c2);
    if balance_input(p.schnorr_r@, p.original_commitment@, p.adjusted_commitment@, p.threshold)
        == balance_input(
        q.schnorr_r@,
        q.original_commitment@,
        q.adjusted_commitment@,
        q.threshold,
    ) {
        law_balance_input_injective(
            p.schnorr_r@,
            p.original_commitment@,
            p.adjusted_commitment@,
            p.threshold,
            q.schnorr_r@,
            q.original_commitment@,
            q.adjusted_commitment@,
            q.threshold,
        );
    }
}

/// An accepted balance proof whose threshold is changed is refused, unless the string with
/// the new threshold hashes to the one challenge `u*(R - s)` that the response answers, for
/// `u` the inverse of the new gap.
pub proof fn law_changed_threshold_refused(p: BalanceProof, q: BalanceProof, u: nat)
    requires
        balance_verdict(Ok(true), p),
        p.schnorr_r@ == q.schnorr_r@,
        p.schnorr_s@ == q.schnorr_s@,
        p.original_commitment@ == q.original_commitment@,
        p.adjusted_commitment@ == q.adjusted_commitment@,
        p.threshold != q.threshold,
        field::times(u, balance_gap(q)) == 1,
        ({
            let left = balance_input(
                p.schnorr_r@,
                p.original_commitment@,
                p.adjusted_commitment@,
                p.threshold,
            );
            let right = balance_input(
                q.schnorr_r@,
                q.original_commitment@,
                q.adjusted_commitment@,
                q.threshold,
            );
            left != right ==> field::red(field::le_nat(hashing::sha3_512(right)) as int)
                != field::times(
                u,
                field::minus(
                    group::ristretto_log(q.schnorr_r@)->0,
                    field::red(field::le_nat(q.schnorr_s@) as int),
                ),
            )
        }),
    ensures
        !balance_verdict(Ok(true), q),
{
    if balance_input(p.schnorr_r@, p.original_commitment@, p.adjusted_commitment@, p.threshold)
        == balance_input(
        q.schnorr_r@,
        q.original_commitment@,
        q.adjusted_commitment@,
        q.threshold,
    ) {
        law_balance_input_injective(
            p.schnorr_r@,
            p.original_commitment@,
            p.adjusted_commitment@,
            p.threshold,
            q.schnorr_r@,
            q.original_commitment@,
            q.adjusted_commitment@,
            q.threshold,
        );
    }
    if balance_verdict(Ok(true), q) {
        let s = field::red(field::le_nat(q.schnorr_s@) as int);
        let gap = balance_gap(q);
        let c = balance_challenge(
            q.schnorr_r@,
            q.original_commitment@,
            q.adjusted_commitment@,
            q.threshold,
        );
        broadcast use field::lemma_red_range;

        field::lemma_minus_left((s + field::times(gap, c)) as int, s);
        field::lemma_red_small(field::times(gap, c));
        field::lemma_inverse(u, gap, c);
    }
}

/// Two accepted balance proofs with one nonce commitment, one gap and two challenges give
/// the gap away as a multiple of the basepoint: what the threshold leaves is what the
/// adjusted commitment hides, up to the blinding.
pub proof fn law_two_balance_proofs_open_the_gap(p: BalanceProof, q: BalanceProof, u: nat)
    requires
        balance_verdict(Ok(true), p),
        balance_verdict(Ok(true), q),
        p.schnorr_r@ == q.schnorr_r@,
        balance_gap(p) == balance_gap(q),
        field::times(
            u,
            field::minus(
                balance_challenge(
                    q.schnorr_r@,
                    q.original_commitment@,
                    q.adjusted_commitment@,
                    q.threshold,
                ),
                balance_challenge(
                    p.schnorr_r@,
                    p.original_commitment@,
                    p.adjusted_commitment@,
                    p.threshold,
                ),
            ),
        ) == 1,
    ensures
        balance_gap(p) == field::times(
            u,
            field::minus(
                field::red(field::le_nat(p.schnorr_s@) as int),
                field::red(field::le_nat(q.schnorr_s@) as int),
            ),
        ),
{
    let s1 = field::red(field::le_nat(p.schnorr_s@) as int);
    let s2 = field::red(field::le_nat(q.schnorr_s@) as int);
    let gap = balance_gap(p);
    let c1 = balance_challenge(
        p.schnorr_r@,
        p.original_commitment@,
        p.adjusted_commitment@,
        p.threshold,
    );
    let c2 = balance_challenge(
        q.schnorr_r@,
        q.original_commitment@,
        q.adjusted_commitment@,
        q.threshold,
    );
    broadcast use field::lemma_red_range;

    field::lemma_answers(s1, s2, gap, c1, c2);
    field::lemma_solve(u, field::minus(c2, c1), gap, field::minus(s1, s2));
}

/// An honest balance proof for a commitment to its value is accepted if the verifier accepts
/// its range proof.
pub proof fn law_honest_balance_accepted(
    p: BalanceProof,
    value: u64,
    blinding: nat,
    commitment: Seq<u8>,
    threshold: u64,
    draw: BalanceDraw,
    r: Result<bool>,
)
    requires
        threshold <= value,
        group::encodes(commitment, curve::pedersen(value as nat, blinding)),
        balance_made(Ok(p), value, blinding, commitment, threshold, draw),
        bulletproofs::single_accepted(
            p.adjusted_commitment@,
            p.range_proof.version,
            p.range_proof.data@,
        ),
        balance_verdict(r, p),
    ensures
        r == Ok::<bool, Error>(true),
{
    let h = curve::h_log() as int;
    let v = value as int;
    let t = threshold as int;
    let a = draw.blinding as int;
    let b = blinding as int;
    let c = balance_challenge(
        p.schnorr_r@,
        p.original_commitment@,
        p.adjusted_commitment@,
        p.threshold,
    );
    let d = field::minus(blinding, draw.blinding);
    let delta = field::minus(
        curve::pedersen(value as nat, blinding),
        field::times(curve::h_log(), threshold as nat),
    );
    let rest = curve::pedersen((value - threshold) as nat, draw.blinding);
    assert(field::minus(delta, rest) == d) by {
        field::lemma_plus_left(h * v, blinding);
        field::lemma_sub_red(h * v + b, h * t);
        field::lemma_plus_left(h * (v - t), draw.blinding);
        field::lemma_sub_red(h * v + b - h * t, h * (v - t) + a);
        assert(h * v + b - h * t - (h * (v - t) + a) == b - a) by (nonlinear_arith);
    }
    let s = field::minus(draw.nonce, field::times(c, d));
    field::lemma_red_range(draw.nonce - field::times(c, d));
    field::lemma_scalar_bytes(s);
    field::lemma_red_small(s);
    assert(field::plus(s, field::times(d, c)) == draw.nonce) by {
        assert(c * d == d * c) by (nonlinear_arith);
        let w = field::times(c, d);
        field::lemma_plus_left(draw.nonce - w, w);
        field::lemma_red_small(draw.nonce);
    }
}

// --- Ownership ---------------------------------------------------------------------

/// A proof that the prover holds the key of an output.
#[derive(Clone, Debug, PartialEq, Eq)]
pub struct OwnershipProof {
    /// The hash of the transaction.
    pub tx_hash: crate::primitives::Hash,
    /// The index of the output in it.
    pub output_index: u8,
    /// The one-time public key of the output.
    pub stealth_address: PublicKey,
    /// The nonce commitment, encoded.
    pub schnorr_r: [u8; 32],
    /// The response.
    pub schnorr_s: [u8; 32],
    /// The message that the proof is bound to.
    pub message: Vec<u8>,
    /// When the proof was made.
    pub timestamp: u64,
}

/// What the challenge of an ownership proof hashes.
pub open spec fn ownership_input(
    r: Seq<u8>,
    key: Seq<u8>,
    tx_hash: Seq<u8>,
    output_index: u8,
    message: Seq<u8>,
) -> Seq<u8> {
    r + key + tx_hash + seq![output_index] + message
}

/// The challenge of an ownership proof.
pub open spec fn ownership_challenge(
    r: Seq<u8>,
    key: Seq<u8>,
    tx_hash: Seq<u8>,
    output_index: u8,
    message: Seq<u8>,
) -> nat {
    curve::scalar_hash(
        hashing::domain_hash(
            bytes::tag("COINCYNC_OWNERSHIP_v1"),
            ownership_input(r, key, tx_hash, output_index, message),
        ),
    )
}

fn compute_ownership_challenge(
    r: &[u8; 32],
    key: &[u8; 32],
    tx_hash: &[u8; 32],
    output_index: u8,
    message: &[u8],
) -> (c: Scalar)
    ensures
        c@ == ownership_challenge(r@, key@, tx_hash@, output_index, message@),
{
    let mut input: Vec<u8> = Vec::new();
    append(&mut input, r);
    append(&mut input, key);
    append(&mut input, tx_hash);
    input.push(output_index);
    append(&mut input, message);
    assert(input@ =~= ownership_input(r@, key@, tx_hash@, output_index, message@));
    hash_to_scalar(&hash_tagged("COINCYNC_OWNERSHIP_v1", input.as_slice()))
}

/// What making an ownership proof gives, for a nonce and a time.
pub open spec fn ownership_made(
    r: Result<OwnershipProof>,
    tx_hash: Seq<u8>,
    output_index: u8,
    key: Seq<u8>,
    secret: Seq<u8>,
    message: Seq<u8>,
    nonce: nat,
    time: u64,
) -> bool {
    let x = stealth::key_scalar(secret);
    if group::ristretto_encoding(x) != key {
        r matches Err(e) && error::is_crypto(e, "Secret key does not match stealth address"@)
    } else {
        r matches Ok(p) && {
            let c = ownership_challenge(p.schnorr_r@, key, tx_hash, output_index, message);
            &&& p.tx_hash@ == tx_hash
            &&& p.output_index == output_index
            &&& p.stealth_address@ == key
            &&& p.message@ == message
            &&& p.timestamp == time
            &&& group::encodes(p.schnorr_r@, nonce)
            &&& p.schnorr_s@ == field::scalar_bytes(field::plus(nonce, field::times(c, x)))
            &&& group::encodes(key, x)
        }
    }
}

/// Proves that the prover holds the key of an output.
pub fn create_ownership_proof(
    tx_hash: &crate::primitives::Hash,
    output_index: u8,
    stealth_address: &PublicKey,
    one_time_secret: &SecretKey,
    message: &[u8],
) -> (r: Result<OwnershipProof>)
    ensures
        exists|nonce: nat, time: u64|
            nonce < field::order() && #[trigger] ownership_made(
                r,
                tx_hash@,
                output_index,
                stealth_address@,
                one_time_secret@,
                message@,
                nonce,
                time,
            ),
{
    let nonce = os_random_64();
    let time: u64 = unix_time();
    proof {
        field::lemma_red_range(field::le_nat(nonce@) as int);
    }
    create_ownership_proof_with(
        tx_hash,
        output_index,
        stealth_address,
        one_time_secret,
        message,
        &nonce,
        time,
    )
}

/// Proves that the prover holds the key of an output, with a given nonce and time.
pub fn create_ownership_proof_with(
    tx_hash: &crate::primitives::Hash,
    output_index: u8,
    stealth_address: &PublicKey,
    one_time_secret: &SecretKey,
    message: &[u8],
    nonce: &[u8; 64],
    time: u64,
) -> (r: Result<OwnershipProof>)
    ensures
        ownership_made(
            r,
            tx_hash@,
            output_index,
            stealth_address@,
            one_time_secret@,
            message@,
            field::red(field::le_nat(nonce@) as int),
            time,
        ),
{
    let x = SecretScalar::from_bytes(*one_time_secret.as_bytes());
    let expected = x.to_public().to_bytes();
    if !bytes_equal(&expected, stealth_address.as_bytes()) {
        return Err(error::crypto("Secret key does not match stealth address"));
    }
    let k = SecretScalar::random(nonce);
    let r_point = k.to_public().to_bytes();
    let c = compute_ownership_challenge(
        &r_point,
        stealth_address.as_bytes(),
        tx_hash.as_bytes(),
        output_index,
        message,
    );
    let cx = SecretScalar::from_scalar(c).mul(&x);
    let s = k.add(&cx);
    let mut bound: Vec<u8> = Vec::new();
    append(&mut bound, message);
    assert(bound@ =~= message@);
    Ok(
        OwnershipProof {
            tx_hash: *tx_hash,
            output_index,
            stealth_address: *stealth_address,
            schnorr_r: r_point,
            schnorr_s: s.to_bytes(),
            message: bound,
            timestamp: time,
        },
    )
}

/// What checking an ownership proof gives: whether `s*G == R + c*P`.
pub open spec fn ownership_verdict(r: Result<bool>, p: OwnershipProof) -> bool {
    match (group::ristretto_log(p.schnorr_r@), group::ristretto_log(p.stealth_address@)) {
        (None, _) => r matches Err(e) && error::is_crypto(e, "Invalid Schnorr R point"@),
        (_, None) => r matches Err(e) && error::is_crypto(e, "Invalid stealth address point"@),
        (Some(nonce), Some(key)) => {
            let c = ownership_challenge(
                p.schnorr_r@,
                p.stealth_address@,
                p.tx_hash@,
                p.output_index,
                p.message@,
            );
            r == Ok::<bool, Error>(
                field::red(field::le_nat(p.schnorr_s@) as int) == field::plus(
                    nonce,
                    field::times(key, c),
                ),
            )
        },
    }
}

/// Checks an ownership proof.
pub fn verify_ownership_proof(claim: &OwnershipProof) -> (r: Result<bool>)
    ensures
        ownership_verdict(r, *claim),
{
    let r_point = match PublicPoint::from_bytes(claim.schnorr_r) {
        Some(p) => p,
        None => {
            return Err(error::crypto("Invalid Schnorr R point"));
        },
    };
    let p_point = match PublicPoint::from_bytes(*claim.stealth_address.as_bytes()) {
        Some(p) => p,
        None => {
            return Err(error::crypto("Invalid stealth address point"));
        },
    };
    let c = compute_ownership_challenge(
        &claim.schnorr_r,
        claim.stealth_address.as_bytes(),
        claim.tx_hash.as_bytes(),
        claim.output_index,
        claim.message.as_slice(),
    );
    let lhs = SecretScalar::from_bytes(claim.schnorr_s).to_public();
    let rhs = r_point.add(&p_point.mul_scalar(&c));
    let lhs_bytes = lhs.to_bytes();
    let rhs_bytes = rhs.to_bytes();
    Ok(ct_eq(&lhs_bytes, &rhs_bytes))
}

/// What the challenge of an ownership proof hashes determines the nonce commitment, the
/// key, the transaction, the place of the output and the message.
pub proof fn law_ownership_input_injective(
    r1: Seq<u8>,
    key1: Seq<u8>,
    tx1: Seq<u8>,
    index1: u8,
    message1: Seq<u8>,
    r2: Seq<u8>,
    key2: Seq<u8>,
    tx2: Seq<u8>,
    index2: u8,
    message2: Seq<u8>,
)
    requires
        r1.len() == 32 && key1.len() == 32 && tx1.len() == 32,
        r2.len() == 32 && key2.len() == 32 && tx2.len() == 32,
        ownership_input(r1, key1, tx1, index1, message1) == ownership_input(
            r2,
            key2,
            tx2,
            index2,
            message2,
        ),
    ensures
        r1 == r2,
        key1 == key2,
        tx1 == tx2,
        index1 == index2,
        message1 == message2,
{
    let (i1, i2) = (seq![index1], seq![index2]);
    bytes::lemma_same_heads(
        r1 + key1 + tx1 + i1,
        message1,
        r2 + key2 + tx2 + i2,
        message2,
    );
    bytes::lemma_same_heads(r1 + key1 + tx1, i1, r2 + key2 + tx2, i2);
    bytes::lemma_same_heads(r1 + key1, tx1, r2 + key2, tx2);
    bytes::lemma_same_heads(r1, key1, r2, key2);
    assert(i1[0] == i2[0]);
}

/// An ownership proof commits to its transaction, its output and its message. Where one
/// nonce commitment and one response are accepted under one key for two claims, two
/// different strings hash to one challenge.
pub proof fn law_ownership_binds_claim(p: OwnershipProof, q: OwnershipProof)
    requires
        ownership_verdict(Ok(true), p),
        ownership_verdict(Ok(true), q),
        p.schnorr_r@ == q.schnorr_r@,
        p.schnorr_s@ == q.schnorr_s@,
        p.stealth_address@ == q.stealth_address@,
        p.tx_hash@ != q.tx_hash@ || p.output_index != q.output_index || p.message@ != q.message@,
        field::unit(group::ristretto_log(p.stealth_address@)->0),
    ensures
        ({
            let left = ownership_input(
                p.schnorr_r@,
                p.stealth_address@,
                p.tx_hash@,
                p.output_index,
                p.message@,
            );
            let right = ownership_input(
                p.schnorr_r@,
                p.stealth_address@,
                q.tx_hash@,
                q.output_index,
                q.message@,
            );
            &&& left != right
            &&& curve::scalar_hash(
                hashing::domain_hash(bytes::tag("COINCYNC_OWNERSHIP_v1"), left),
            ) == curve::scalar_hash(
                hashing::domain_hash(bytes::tag("COINCYNC_OWNERSHIP_v1"), right),
            )
        }),
{
    let r = group::ristretto_log(p.schnorr_r@)->0;
    let key = group::ristretto_log(p.stealth_address@)->0;
    let c1 = ownership_challenge(
        p.schnorr_r@,
        p.stealth_address@,
        p.tx_hash@,
        p.output_index,
        p.message@,
    );
    let c2 = ownership_challenge(
        q.schnorr_r@,
        q.stealth_address@,
        q.tx_hash@,
        q.output_index,
        q.message@,
    );
    broadcast use field::lemma_red_range;

    field::lemma_cancel_term(r, field::times(key, c1), field::times(key, c2));
    field::lemma_cancel(key, c1, c2);
    if ownership_input(
        p.schnorr_r@,
        p.stealth_address@,
        p.tx_hash@,
        p.output_index,
        p.message@,
    ) == ownership_input(
        p.schnorr_r@,
        p.stealth_address@,
        q.tx_hash@,
        q.output_index,
        q.message@,
    ) {
        law_ownership_input_injective(
            p.schnorr_r@,
            p.stealth_address@,
            p.tx_hash@,
            p.output_index,
            p.message@,
            p.schnorr_r@,
            p.stealth_address@,
            q.tx_hash@,
            q.output_index,
            q.message@,
        );
    }
}

/// An accepted ownership proof is refused once its transaction, its output or its message is
/// changed, unless the changed string hashes to the same challenge as the first.
pub proof fn law_changed_ownership_refused(p: OwnershipProof, q: OwnershipProof, r: Result<bool>)
    requires
        ownership_verdict(Ok(true), p),
        ownership_verdict(r, q),
        p.schnorr_r@ == q.schnorr_r@,
        p.schnorr_s@ == q.schnorr_s@,
        p.stealth_address@ == q.stealth_address@,
        p.tx_hash@ != q.tx_hash@ || p.output_index != q.output_index || p.message@ != q.message@,
        field::unit(group::ristretto_log(p.stealth_address@)->0),
        ({
            let left = ownership_input(
                p.schnorr_r@,
                p.stealth_address@,
                p.tx_hash@,
                p.output_index,
                p.message@,
            );
            let right = ownership_input(
                p.schnorr_r@,
                p.stealth_address@,
                q.tx_hash@,
                q.output_index,
                q.message@,
            );
            left != right ==> curve::scalar_hash(
                hashing::domain_hash(bytes::tag("COINCYNC_OWNERSHIP_v1"), left),
            ) != curve::scalar_hash(
                hashing::domain_hash(bytes::tag("COINCYNC_OWNERSHIP_v1"), right),
            )
        }),
    ensures
        r == Ok::<bool, Error>(false),
{
    if r == Ok::<bool, Error>(true) {
        law_ownership_binds_claim(p, q);
    }
}

/// Two accepted ownership proofs with one key, one nonce commitment and two challenges give
/// the secret of the key away: only who knows it can prove the ownership.
pub proof fn law_two_ownership_proofs_give_the_secret(p: OwnershipProof, q: OwnershipProof, u: nat)
    requires
        ownership_verdict(Ok(true), p),
        ownership_verdict(Ok(true), q),
        p.schnorr_r@ == q.schnorr_r@,
        p.stealth_address@ == q.stealth_address@,
        group::ristretto_log(p.stealth_address@)->0 < field::order(),
        field::times(
            u,
            field::minus(
                ownership_challenge(
                    p.schnorr_r@,
                    p.stealth_address@,
                    p.tx_hash@,
                    p.output_index,
                    p.message@,
                ),
                ownership_challenge(
                    q.schnorr_r@,
                    q.stealth_address@,
                    q.tx_hash@,
                    q.output_index,
                    q.message@,
                ),
            ),
        ) == 1,
    ensures
        group::ristretto_log(p.stealth_address@)->0 == field::times(
            u,
            field::minus(
                field::red(field::le_nat(p.schnorr_s@) as int),
                field::red(field::le_nat(q.schnorr_s@) as int),
            ),
        ),
{
    let r = group::ristretto_log(p.schnorr_r@)->0;
    let key = group::ristretto_log(p.stealth_address@)->0;
    let s1 = field::red(field::le_nat(p.schnorr_s@) as int);
    let s2 = field::red(field::le_nat(q.schnorr_s@) as int);
    let c1 = ownership_challenge(
        p.schnorr_r@,
        p.stealth_address@,
        p.tx_hash@,
        p.output_index,
        p.message@,
    );
    let c2 = ownership_challenge(
        q.schnorr_r@,
        q.stealth_address@,
        q.tx_hash@,
        q.output_index,
        q.message@,
    );
    field::lemma_two_responses(r, key, c1, c2);
    field::lemma_solve(u, field::minus(c1, c2), key, field::minus(s1, s2));
}

/// An honest ownership proof is accepted.
pub proof fn law_honest_ownership_accepted(
    p: OwnershipProof,
    tx_hash: Seq<u8>,
    output_index: u8,
    key: Seq<u8>,
    secret: Seq<u8>,
    message: Seq<u8>,
    nonce: nat,
    time: u64,
    r: Result<bool>,
)
    requires
        ownership_made(Ok(p), tx_hash, output_index, key, secret, message, nonce, time),
        ownership_verdict(r, p),
    ensures
        r == Ok::<bool, Error>(true),
{
    let x = stealth::key_scalar(secret);
    let c = ownership_challenge(p.schnorr_r@, key, tx_hash, output_index, message);
    field::lemma_plus_scalar_bytes(nonce, field::times(c, x));
    field::lemma_red_small(field::plus(nonce, field::times(c, x)));
    assert(x * c == c * x) by (nonlinear_arith);
}

// --- Sum ---------------------------------------------------------------------------

/// A proof of what several outputs add up to.
#[derive(Debug, PartialEq, Eq)]
pub struct SumProof {
    /// The total.
    pub claimed_total: u64,
    /// The outputs.
    pub output_refs: Vec<OutputRef>,
    /// The sum of the blinding factors.
    pub sum_blinding: [u8; 32],
    /// The range of heights of the outputs.
    pub height_range: (u64, u64),
    /// When the proof was made.
    pub timestamp: u64,
    /// The hash that binds the fields.
    pub challenge: crate::primitives::Hash,
}

impl Clone for SumProof {
    fn clone(&self) -> (r: Self)
        ensures
            r.claimed_total == self.claimed_total,
            r.output_refs@ == self.output_refs@,
            r.sum_blinding == self.sum_blinding,
            r.height_range == self.height_range,
            r.timestamp == self.timestamp,
            r.challenge == self.challenge,
    {
        let mut output_refs: Vec<OutputRef> = Vec::new();
        let mut i: usize = 0;
        while i < self.output_refs.len()
            invariant
                i <= self.output_refs@.len(),
                output_refs@ == self.output_refs@.take(i as int),
            decreases self.output_refs@.len() - i,
        {
            output_refs.push(self.output_refs[i]);
            assert(output_refs@ =~= self.output_refs@.take(i + 1));
            i = i + 1;
        }
        assert(output_refs@ =~= self.output_refs@);
        SumProof {
            claimed_total: self.claimed_total,
            output_refs,
            sum_blinding: self.sum_blinding,
            height_range: (self.height_range.0, self.height_range.1),
            timestamp: self.timestamp,
            challenge: self.challenge,
        }
    }
}

/// What the amounts of a list of outputs add up to.
pub open spec fn outputs_total(o: Seq<(u64, BlindingFactor, crate::primitives::Hash, u8)>) -> nat
    decreases o.len(),
{
    if o.len() == 0 {
        0
    } else {
        outputs_total(o.drop_last()) + o.last().0 as nat
    }
}

/// What the blinding factors of a list of outputs add up to.
pub open spec fn outputs_blinding(
    o: Seq<(u64, BlindingFactor, crate::primitives::Hash, u8)>,
) -> nat
    decreases o.len(),
{
    if o.len() == 0 {
        0
    } else {
        field::plus(outputs_blinding(o.drop_last()), o.last().1@)
    }
}

/// What the hash that binds the fields of a sum proof goes over.
pub open spec fn sum_input(
    total: u64,
    blinding: Seq<u8>,
    range: (u64, u64),
    time: u64,
    count: nat,
) -> Seq<u8> {
    vstd::bytes::spec_u64_to_le_bytes(total) + blinding + vstd::bytes::spec_u64_to_le_bytes(
        range.0,
    ) + vstd::bytes::spec_u64_to_le_bytes(range.1) + vstd::bytes::spec_u64_to_le_bytes(time)
        + vstd::bytes::spec_u32_to_le_bytes(count as u32)
}

/// The hash that binds the fields of a sum proof.
pub open spec fn sum_challenge(
    total: u64,
    blinding: Seq<u8>,
    range: (u64, u64),
    time: u64,
    count: nat,
) -> Seq<u8> {
    hashing::domain_hash(
        bytes::tag("COINCYNC_SUM_PROOF_v1"),
        sum_input(total, blinding, range, time, count),
    )
}

#[verifier::truncate]
fn count_u32(n: usize) -> (r: u32)
    ensures
        r == n as u32,
{
    n as u32
}

fn compute_sum_challenge(
    total: u64,
    blinding: &[u8; 32],
    range: (u64, u64),
    time: u64,
    count: usize,
) -> (r: [u8; 32])
    ensures
        r@ == sum_challenge(total, blinding@, range, time, count as nat),
{
    let mut input: Vec<u8> = Vec::new();
    append_u64(&mut input, total);
    append(&mut input, blinding);
    append_u64(&mut input, range.0);
    append_u64(&mut input, range.1);
    append_u64(&mut input, time);
    append(&mut input, vstd::bytes::u32_to_le_bytes(count_u32(count)).as_slice());
    assert(input@ =~= sum_input(total, blinding@, range, time, count as nat));
    hash_tagged("COINCYNC_SUM_PROOF_v1", input.as_slice())
}

/// Whether a list of references is that of a list of outputs.
pub open spec fn refers_to(
    refs: Seq<OutputRef>,
    o: Seq<(u64, BlindingFactor, crate::primitives::Hash, u8)>,
) -> bool {
    &&& refs.len() == o.len()
    &&& forall|i: int|
        0 <= i < o.len() ==> (#[trigger] refs[i]).tx_hash == o[i].2 && refs[i].output_index
            == o[i].3
}

/// What making a sum proof gives, for a time.
pub open spec fn sum_made(
    r: Result<SumProof>,
    o: Seq<(u64, BlindingFactor, crate::primitives::Hash, u8)>,
    range: (u64, u64),
    time: u64,
) -> bool {
    if o.len() == 0 {
        r matches Err(e) && error::is_crypto(e, "Cannot create sum proof with no outputs"@)
    } else if outputs_total(o) > u64::MAX {
        r matches Err(e) && error::is_crypto(e, "Sum overflow"@)
    } else {
        r matches Ok(p) && {
            &&& p.claimed_total == outputs_total(o)
            &&& refers_to(p.output_refs@, o)
            &&& p.sum_blinding@ == field::scalar_bytes(outputs_blinding(o))
            &&& p.height_range == range
            &&& p.timestamp == time
            &&& p.challenge@ == sum_challenge(
                outputs_total(o) as u64,
                p.sum_blinding@,
                range,
                time,
                o.len(),
            )
        }
    }
}

/// Proves what several outputs add up to.
pub fn create_sum_proof(
    outputs: &[(u64, BlindingFactor, crate::primitives::Hash, u8)],
    height_range: (u64, u64),
) -> (r: Result<SumProof>)
    ensures
        exists|time: u64| #[trigger] sum_made(r, outputs@, height_range, time),
{
    let time: u64 = unix_time();
    create_sum_proof_at(outputs, height_range, time)
}

proof fn lemma_total_grows(
    o: Seq<(u64, BlindingFactor, crate::primitives::Hash, u8)>,
    n: int,
)
    requires
        0 <= n <= o.len(),
    ensures
        outputs_total(o.take(n)) <= outputs_total(o),
    decreases o.len() - n,
{
    if n < o.len() {
        assert(o.take(n + 1).drop_last() =~= o.take(n));
        lemma_total_grows(o, n + 1);
    } else {
        assert(o.take(n) =~= o);
    }
}

/// Proves what several outputs add up to, at a given time.
pub fn create_sum_proof_at(
    outputs: &[(u64, BlindingFactor, crate::primitives::Hash, u8)],
    height_range: (u64, u64),
    time: u64,
) -> (r: Result<SumProof>)
    ensures
        sum_made(r, outputs@, height_range, time),
{
    let n: usize = outputs.len();
    if n == 0 {
        return Err(error::crypto("Cannot create sum proof with no outputs"));
    }
    let mut total: u64 = 0;
    let mut blinding_sum = BlindingFactor::zero();
    let mut output_refs: Vec<OutputRef> = Vec::new();
    let mut i: usize = 0;
    assert(outputs@.take(0) =~= Seq::<(u64, BlindingFactor, crate::primitives::Hash, u8)>::empty());
    while i < n
        invariant
            i <= n,
            n == outputs@.len(),
            total == outputs_total(outputs@.take(i as int)),
            blinding_sum@ == outputs_blinding(outputs@.take(i as int)),
            output_refs@.len() == i,
            forall|j: int|
                0 <= j < i ==> (#[trigger] output_refs@[j]).tx_hash == outputs@[j].2
                    && output_refs@[j].output_index == outputs@[j].3,
        decreases n - i,
    {
        let (amount, blinding, tx_hash, idx) = &outputs[i];
        proof {
            let next = outputs@.take(i + 1);
            assert(next.drop_last() =~= outputs@.take(i as int));
            assert(next.last() == outputs@[i as int]);
            lemma_total_grows(outputs@, i + 1);
        }
        total = match total.checked_add(*amount) {
            Some(t) => t,
            None => {
                return Err(error::crypto("Sum overflow"));
            },
        };
        blinding_sum = blinding_sum.add(blinding);
        output_refs.push(OutputRef { tx_hash: *tx_hash, output_index: *idx });
        i = i + 1;
    }
    assert(outputs@.take(i as int) =~= outputs@);
    let sum_blinding = blinding_sum.to_bytes();
    let challenge = compute_sum_challenge(total, &sum_blinding, height_range, time, n);
    Ok(
        SumProof {
            claimed_total: total,
            output_refs,
            sum_blinding,
            height_range,
            timestamp: time,
            challenge: crate::primitives::Hash::from_bytes(challenge),
        },
    )
}

/// The sum of the models of a list of commitments.
pub open spec fn commitments_sum(c: Seq<PedersenCommitment>) -> nat
    decreases c.len(),
{
    if c.len() == 0 {
        0
    } else {
        field::plus(
            commitments_sum(c.drop_last()),
            group::ristretto_log(c.last()@)->0,
        )
    }
}

/// What checking a sum proof against the commitments on the chain gives.
pub open spec fn sum_verdict(r: Result<bool>, p: SumProof, c: Seq<PedersenCommitment>) -> bool {
    if p.output_refs@.len() != c.len() {
        r matches Err(e) && error::is_crypto(e, "Output ref count doesn't match commitment count"@)
    } else if c.len() == 0 || p.challenge@ != sum_challenge(
        p.claimed_total,
        p.sum_blinding@,
        p.height_range,
        p.timestamp,
        p.output_refs@.len(),
    ) {
        r == Ok::<bool, Error>(false)
    } else if !bulletproofs::all_points(c) {
        r matches Err(e) && error::is_crypto(e, "Invalid on-chain commitment point"@)
    } else {
        r == Ok::<bool, Error>(
            commitments_sum(c) == curve::pedersen(
                p.claimed_total as nat,
                field::red(field::le_nat(p.sum_blinding@) as int),
            ),
        )
    }
}

/// Checks a sum proof against the commitments on the chain, in the order of its references.
pub fn verify_sum_proof(claim: &SumProof, on_chain_commitments: &[PedersenCommitment]) -> (r: Result<
    bool,
>)
    ensures
        sum_verdict(r, *claim, on_chain_commitments@),
{
    let n: usize = on_chain_commitments.len();
    if claim.output_refs.len() != n {
        return Err(error::crypto("Output ref count doesn't match commitment count"));
    }
    if n == 0 {
        return Ok(false);
    }
    let blinding = BlindingFactor::from_bytes(claim.sum_blinding);
    let expected_challenge = compute_sum_challenge(
        claim.claimed_total,
        &claim.sum_blinding,
        claim.height_range,
        claim.timestamp,
        n,
    );
    if !bytes_equal(claim.challenge.as_bytes(), &expected_challenge) {
        return Ok(false);
    }
    let mut sum_point = RistrettoPoint::identity();
    let mut i: usize = 0;
    assert(on_chain_commitments@.take(0) =~= Seq::<PedersenCommitment>::empty());
    while i < n
        invariant
            i <= n,
            n == on_chain_commitments@.len(),
            n == claim.output_refs@.len(),
            n > 0,
            claim.challenge@ == sum_challenge(
                claim.claimed_total,
                claim.sum_blinding@,
                claim.height_range,
                claim.timestamp,
                claim.output_refs@.len(),
            ),
            forall|j: int|
                0 <= j < i ==> group::ristretto_log((#[trigger] on_chain_commitments@[j])@) is Some,
            sum_point@ == commitments_sum(on_chain_commitments@.take(i as int)),
        decreases n - i,
    {
        match RistrettoPoint::decompress(on_chain_commitments[i].as_point()) {
            Some(point) => {
                sum_point = sum_point.add(&point);
            },
            None => {
                assert(group::ristretto_log(on_chain_commitments@[i as int]@) is None);
                return Err(error::crypto("Invalid on-chain commitment point"));
            },
        }
        proof {
            let next = on_chain_commitments@.take(i + 1);
            assert(next.drop_last() =~= on_chain_commitments@.take(i as int));
            assert(next.last() == on_chain_commitments@[i as int]);
        }
        i = i + 1;
    }
    assert(on_chain_commitments@.take(i as int) =~= on_chain_commitments@);
    let expected = PedersenCommitment::commit(claim.claimed_total, &blinding);
    let expected_point = match RistrettoPoint::decompress(expected.as_point()) {
        Some(p) => p,
        None => {
            return Err(error::crypto("Invalid expected commitment"));
        },
    };
    let sum_bytes = sum_point.compress();
    let expected_bytes = expected_point.compress();
    Ok(ct_eq(&sum_bytes, &expected_bytes))
}

/// Whether each commitment of a list is that of its output.
pub open spec fn commits_outputs(
    c: Seq<PedersenCommitment>,
    o: Seq<(u64, BlindingFactor, crate::primitives::Hash, u8)>,
) -> bool {
    &&& c.len() == o.len()
    &&& forall|i: int|
        0 <= i < c.len() ==> group::encodes(
            (#[trigger] c[i])@,
            curve::pedersen(o[i].0 as nat, o[i].1@),
        )
}

proof fn lemma_commitments_sum(
    c: Seq<PedersenCommitment>,
    o: Seq<(u64, BlindingFactor, crate::primitives::Hash, u8)>,
)
    requires
        commits_outputs(c, o),
    ensures
        commitments_sum(c) == curve::pedersen(outputs_total(o), outputs_blinding(o)),
        outputs_blinding(o) < field::order(),
    decreases c.len(),
{
    field::lemma_order_positive();
    if c.len() == 0 {
        field::lemma_red_small(0);
        let h = curve::h_log();
        assert(h * 0 == 0) by (nonlinear_arith);
    } else {
        assert forall|i: int| 0 <= i < c.drop_last().len() implies group::encodes(
            (#[trigger] c.drop_last()[i])@,
            curve::pedersen(o.drop_last()[i].0 as nat, o.drop_last()[i].1@),
        ) by {
            assert(c.drop_last()[i] == c[i]);
        }
        lemma_commitments_sum(c.drop_last(), o.drop_last());
        let last = c[c.len() - 1];
        assert(group::encodes(last@, curve::pedersen(o.last().0 as nat, o.last().1@)));
        curve::law_commitments_add_up(
            outputs_total(o.drop_last()),
            outputs_blinding(o.drop_last()),
            o.last().0 as nat,
            o.last().1@,
        );
        field::lemma_red_range((outputs_blinding(o.drop_last()) + o.last().1@) as int);
    }
}

/// What the hash of a sum proof goes over determines the total, the blinding, the range of
/// heights, the time and the number of outputs.
pub proof fn law_sum_input_injective(
    t1: u64,
    b1: Seq<u8>,
    range1: (u64, u64),
    time1: u64,
    n1: nat,
    t2: u64,
    b2: Seq<u8>,
    range2: (u64, u64),
    time2: u64,
    n2: nat,
)
    requires
        b1.len() == b2.len(),
        n1 <= u32::MAX,
        n2 <= u32::MAX,
        sum_input(t1, b1, range1, time1, n1) == sum_input(t2, b2, range2, time2, n2),
    ensures
        t1 == t2,
        b1 == b2,
        range1 == range2,
        time1 == time2,
        n1 == n2,
{
    let (x1, x2) = (vstd::bytes::spec_u64_to_le_bytes(t1), vstd::bytes::spec_u64_to_le_bytes(t2));
    let (l1, l2) = (
        vstd::bytes::spec_u64_to_le_bytes(range1.0),
        vstd::bytes::spec_u64_to_le_bytes(range2.0),
    );
    let (h1, h2) = (
        vstd::bytes::spec_u64_to_le_bytes(range1.1),
        vstd::bytes::spec_u64_to_le_bytes(range2.1),
    );
    let (m1, m2) = (
        vstd::bytes::spec_u64_to_le_bytes(time1),
        vstd::bytes::spec_u64_to_le_bytes(time2),
    );
    let (k1, k2) = (
        vstd::bytes::spec_u32_to_le_bytes(n1 as u32),
        vstd::bytes::spec_u32_to_le_bytes(n2 as u32),
    );
    bytes::lemma_u64_bytes(t1, t2);
    bytes::lemma_u64_bytes(t2, t1);
    bytes::lemma_u64_bytes(range1.0, range2.0);
    bytes::lemma_u64_bytes(range2.0, range1.0);
    bytes::lemma_u64_bytes(range1.1, range2.1);
    bytes::lemma_u64_bytes(range2.1, range1.1);
    bytes::lemma_u64_bytes(time1, time2);
    bytes::lemma_u64_bytes(time2, time1);
    bytes::lemma_u32_bytes(n1 as u32, n2 as u32);
    bytes::lemma_u32_bytes(n2 as u32, n1 as u32);
    bytes::lemma_same_tails(x1 + b1 + l1 + h1 + m1, k1, x2 + b2 + l2 + h2 + m2, k2);
    bytes::lemma_same_tails(x1 + b1 + l1 + h1, m1, x2 + b2 + l2 + h2, m2);
    bytes::lemma_same_tails(x1 + b1 + l1, h1, x2 + b2 + l2, h2);
    bytes::lemma_same_tails(x1 + b1, l1, x2 + b2, l2);
    bytes::lemma_same_tails(x1, b1, x2, b2);
}

/// The hash in an accepted sum proof belongs to its fields: where two accepted proofs hold
/// one hash and differ in a field that it goes over, two different strings have one BLAKE3
/// hash.
pub proof fn law_sum_hash_binds(
    p: SumProof,
    c: Seq<PedersenCommitment>,
    q: SumProof,
    d: Seq<PedersenCommitment>,
)
    requires
        sum_verdict(Ok(true), p, c),
        sum_verdict(Ok(true), q, d),
        c.len() <= u32::MAX,
        d.len() <= u32::MAX,
        p.challenge@ == q.challenge@,
        p.claimed_total != q.claimed_total || p.sum_blinding@ != q.sum_blinding@ || p.height_range
            != q.height_range || p.timestamp != q.timestamp || c.len() != d.len(),
    ensures
        ({
            let t = bytes::tag("COINCYNC_SUM_PROOF_v1");
            let left = t + sum_input(
                p.claimed_total,
                p.sum_blinding@,
                p.height_range,
                p.timestamp,
                c.len(),
            );
            let right = t + sum_input(
                q.claimed_total,
                q.sum_blinding@,
                q.height_range,
                q.timestamp,
                d.len(),
            );
            &&& left != right
            &&& hashing::blake3_hash(left) == hashing::blake3_hash(right)
        }),
{
    let left = sum_input(
        p.claimed_total,
        p.sum_blinding@,
        p.height_range,
        p.timestamp,
        c.len(),
    );
    let right = sum_input(
        q.claimed_total,
        q.sum_blinding@,
        q.height_range,
        q.timestamp,
        d.len(),
    );
    if left == right {
        law_sum_input_injective(
            p.claimed_total,
            p.sum_blinding@,
            p.height_range,
            p.timestamp,
            c.len(),
            q.claimed_total,
            q.sum_blinding@,
            q.height_range,
            q.timestamp,
            d.len(),
        );
    }
    hashing::law_domain_hash_binds(bytes::tag("COINCYNC_SUM_PROOF_v1"), left, right);
}

/// What an accepted sum proof claims is what the outputs add up to, up to a multiple of `H`
/// that is a known multiple of the basepoint: the difference of the totals on `H` is the
/// difference of the blindings.
pub proof fn law_accepted_sum_is_the_total(
    p: SumProof,
    c: Seq<PedersenCommitment>,
    o: Seq<(u64, BlindingFactor, crate::primitives::Hash, u8)>,
)
    requires
        sum_verdict(Ok(true), p, c),
        commits_outputs(c, o),
    ensures
        c.len() > 0,
        field::times(
            curve::h_log(),
            field::red(p.claimed_total - outputs_total(o)),
        ) == field::minus(
            outputs_blinding(o),
            field::red(field::le_nat(p.sum_blinding@) as int),
        ),
{
    let h = curve::h_log() as int;
    let t = p.claimed_total as int;
    let b = field::red(field::le_nat(p.sum_blinding@) as int);
    lemma_commitments_sum(c, o);
    let v = outputs_total(o) as int;
    let w = outputs_blinding(o);
    field::lemma_plus_left(h * t, b);
    field::lemma_plus_left(h * v, w);
    field::lemma_times_right(curve::h_log(), t - v);
    assert(h * (t - v) == h * t - h * v) by (nonlinear_arith);
    field::lemma_sums_apart(h * t, h * v, b as int, w as int);
}

/// One blinding and one list of commitments have one total that is accepted.
pub proof fn law_accepted_total_is_unique(p: SumProof, q: SumProof, c: Seq<PedersenCommitment>)
    requires
        sum_verdict(Ok(true), p, c),
        sum_verdict(Ok(true), q, c),
        p.sum_blinding@ == q.sum_blinding@,
        field::unit(curve::h_log()),
    ensures
        p.claimed_total == q.claimed_total,
{
    let h = curve::h_log();
    let b = field::red(field::le_nat(p.sum_blinding@) as int);
    let x = field::times(h, p.claimed_total as nat);
    let y = field::times(h, q.claimed_total as nat);
    broadcast use field::lemma_red_range;

    field::lemma_order_positive();
    assert(field::plus(x, b) == field::plus(b, x) && field::plus(y, b) == field::plus(b, y));
    field::lemma_cancel_term(b, x, y);
    field::lemma_cancel(h, p.claimed_total as nat, q.claimed_total as nat);
}

/// An honest sum proof is accepted against the commitments to its outputs.
pub proof fn law_honest_sum_accepted(
    p: SumProof,
    o: Seq<(u64, BlindingFactor, crate::primitives::Hash, u8)>,
    range: (u64, u64),
    time: u64,
    c: Seq<PedersenCommitment>,
    r: Result<bool>,
)
    requires
        sum_made(Ok(p), o, range, time),
        commits_outputs(c, o),
        sum_verdict(r, p, c),
    ensures
        r == Ok::<bool, Error>(true),
{
    lemma_commitments_sum(c, o);
    assert forall|i: int| 0 <= i < c.len() implies group::ristretto_log(
        (#[trigger] c[i])@,
    ) is Some by {}
    field::lemma_scalar_bytes(outputs_blinding(o));
    field::lemma_red_small(outputs_blinding(o));
}

// --- Source ------------------------------------------------------------------------

/// A proof that a key image belongs to a public key.
#[derive(Clone, Debug, PartialEq, Eq)]
pub struct SourceProof {
    /// The key image.
    pub key_image: KeyImage,
    /// The public key.
    pub public_key: PublicKey,
    /// The nonce commitment on the basepoint, encoded.
    pub r1: [u8; 32],
    /// The nonce commitment on the base of the key image, encoded.
    pub r2: [u8; 32],
    /// The response.
    pub s: [u8; 32],
    /// The message that the proof is bound to.
    pub message: Vec<u8>,
    /// When the proof was made.
    pub timestamp: u64,
}

/// What the challenge of a source proof hashes.
pub open spec fn source_input(
    r1: Seq<u8>,
    r2: Seq<u8>,
    key: Seq<u8>,
    image: Seq<u8>,
    message: Seq<u8>,
) -> Seq<u8> {
    r1 + r2 + key + image + message
}

/// The challenge of a source proof.
pub open spec fn source_challenge(
    r1: Seq<u8>,
    r2: Seq<u8>,
    key: Seq<u8>,
    image: Seq<u8>,
    message: Seq<u8>,
) -> nat {
    curve::scalar_hash(
        hashing::domain_hash(
            bytes::tag("COINCYNC_SOURCE_v1"),
            source_input(r1, r2, key, image, message),
        ),
    )
}

fn compute_source_challenge(
    r1: &[u8; 32],
    r2: &[u8; 32],
    key: &[u8; 32],
    image: &[u8; 32],
    message: &[u8],
) -> (c: Scalar)
    ensures
        c@ == source_challenge(r1@, r2@, key@, image@, message@),
{
    let mut input: Vec<u8> = Vec::new();
    append(&mut input, r1);
    append(&mut input, r2);
    append(&mut input, key);
    append(&mut input, image);
    append(&mut input, message);
    assert(input@ =~= source_input(r1@, r2@, key@, image@, message@));
    hash_to_scalar(&hash_tagged("COINCYNC_SOURCE_v1", input.as_slice()))
}

/// What making a source proof gives, for a nonce and a time.
pub open spec fn source_made(
    r: Result<SourceProof>,
    secret: Seq<u8>,
    key: Seq<u8>,
    image: nat,
    message: Seq<u8>,
    nonce: nat,
    time: u64,
) -> bool {
    let x = stealth::key_scalar(secret);
    let hp = curve::point_hash(key);
    if group::ristretto_encoding(x) != key {
        r matches Err(e) && error::is_crypto(e, "Secret key doesn't match public key"@)
    } else if field::times(hp, x) != image {
        r matches Err(e) && error::is_crypto(e, "Key image doesn't match key pair"@)
    } else {
        r matches Ok(p) && {
            let c = source_challenge(
                p.r1@,
                p.r2@,
                key,
                group::ristretto_encoding(image),
                message,
            );
            &&& p.key_image@ == image
            &&& p.public_key@ == key
            &&& p.message@ == message
            &&& p.timestamp == time
            &&& group::encodes(p.r1@, nonce)
            &&& group::encodes(p.r2@, field::times(hp, nonce))
            &&& p.s@ == field::scalar_bytes(field::minus(nonce, field::times(c, x)))
            &&& group::encodes(key, x)
        }
    }
}

/// Proves that a key image belongs to a public key.
pub fn create_source_proof(
    secret_key: &SecretKey,
    public_key: &PublicKey,
    key_image: &KeyImage,
    message: &[u8],
) -> (r: Result<SourceProof>)
    ensures
        exists|nonce: nat, time: u64|
            nonce < field::order() && #[trigger] source_made(
                r,
                secret_key@,
                public_key@,
                key_image@,
                message@,
                nonce,
                time,
            ),
{
    let nonce = os_random_64();
    let time: u64 = unix_time();
    proof {
        field::lemma_red_range(field::le_nat(nonce@) as int);
    }
    create_source_proof_with(secret_key, public_key, key_image, message, &nonce, time)
}

/// Proves that a key image belongs to a public key, with a given nonce and time.
pub fn create_source_proof_with(
    secret_key: &SecretKey,
    public_key: &PublicKey,
    key_image: &KeyImage,
    message: &[u8],
    nonce: &[u8; 64],
    time: u64,
) -> (r: Result<SourceProof>)
    ensures
        source_made(
            r,
            secret_key@,
            public_key@,
            key_image@,
            message@,
            field::red(field::le_nat(nonce@) as int),
            time,
        ),
{
    let x = SecretScalar::from_bytes(*secret_key.as_bytes());
    let expected_p = x.to_public().to_bytes();
    if !bytes_equal(&expected_p, public_key.as_bytes()) {
        return Err(error::crypto("Secret key doesn't match public key"));
    }
    let hp = hash_to_point(public_key.as_bytes());
    let expected_i = PublicPoint::from_point(hp.mul(x.as_scalar()));
    let image = key_image.to_bytes();
    let expected_bytes = expected_i.to_bytes();
    if !bytes_equal(&expected_bytes, &image) {
        return Err(error::crypto("Key image doesn't match key pair"));
    }
    let k = SecretScalar::random(nonce);
    let r1 = k.to_public().to_bytes();
    let r2 = PublicPoint::from_point(hp.mul(k.as_scalar())).to_bytes();
    let c = compute_source_challenge(&r1, &r2, public_key.as_bytes(), &image, message);
    let cx = SecretScalar::from_scalar(c).mul(&x);
    let s = k.sub(&cx);
    let mut bound: Vec<u8> = Vec::new();
    append(&mut bound, message);
    assert(bound@ =~= message@);
    Ok(
        SourceProof {
            key_image: *key_image,
            public_key: *public_key,
            r1,
            r2,
            s: s.to_bytes(),
            message: bound,
            timestamp: time,
        },
    )
}

/// What checking a source proof gives: whether `s*G + c*P == R1` and
/// `s*Hp(P) + c*I == R2`.
pub open spec fn source_verdict(r: Result<bool>, p: SourceProof) -> bool {
    if group::ristretto_log(p.r1@) is None {
        r matches Err(e) && error::is_crypto(e, "Invalid R1 point"@)
    } else if group::ristretto_log(p.r2@) is None {
        r matches Err(e) && error::is_crypto(e, "Invalid R2 point"@)
    } else if group::ristretto_log(p.public_key@) is None {
        r matches Err(e) && error::is_crypto(e, "Invalid public key point"@)
    } else {
        let c = source_challenge(
            p.r1@,
            p.r2@,
            p.public_key@,
            group::ristretto_encoding(p.key_image@),
            p.message@,
        );
        let s = field::red(field::le_nat(p.s@) as int);
        let key = group::ristretto_log(p.public_key@)->0;
        r == Ok::<bool, Error>(
            field::plus(s, field::times(key, c)) == group::ristretto_log(p.r1@)->0 && field::plus(
                field::times(curve::point_hash(p.public_key@), s),
                field::times(p.key_image@, c),
            ) == group::ristretto_log(p.r2@)->0,
        )
    }
}

/// Checks a source proof.
pub fn verify_source_proof(claim: &SourceProof) -> (r: Result<bool>)
    ensures
        source_verdict(r, *claim),
{
    let r1 = match PublicPoint::from_bytes(claim.r1) {
        Some(p) => p,
        None => {
            return Err(error::crypto("Invalid R1 point"));
        },
    };
    let r2 = match PublicPoint::from_bytes(claim.r2) {
        Some(p) => p,
        None => {
            return Err(error::crypto("Invalid R2 point"));
        },
    };
    let p = match PublicPoint::from_bytes(*claim.public_key.as_bytes()) {
        Some(p) => p,
        None => {
            return Err(error::crypto("Invalid public key point"));
        },
    };
    let i = *claim.key_image.as_point();
    let hp = PublicPoint::from_point(hash_to_point(claim.public_key.as_bytes()));
    let image = claim.key_image.to_bytes();
    let c = compute_source_challenge(
        &claim.r1,
        &claim.r2,
        claim.public_key.as_bytes(),
        &image,
        claim.message.as_slice(),
    );
    let s = SecretScalar::from_bytes(claim.s);
    let check1 = s.to_public().add(&p.mul_scalar(&c));
    let check1_bytes = check1.to_bytes();
    let r1_bytes = r1.to_bytes();
    if !bytes_equal(&check1_bytes, &r1_bytes) {
        return Ok(false);
    }
    let check2 = hp.mul(&s).add(&i.mul_scalar(&c));
    let check2_bytes = check2.to_bytes();
    let r2_bytes = r2.to_bytes();
    Ok(ct_eq(&check2_bytes, &r2_bytes))
}

/// What the challenge of a source proof hashes determines both nonce commitments, the key,
/// the key image and the message.
pub proof fn law_source_input_injective(
    a1: Seq<u8>,
    b1: Seq<u8>,
    key1: Seq<u8>,
    image1: Seq<u8>,
    message1: Seq<u8>,
    a2: Seq<u8>,
    b2: Seq<u8>,
    key2: Seq<u8>,
    image2: Seq<u8>,
    message2: Seq<u8>,
)
    requires
        a1.len() == 32 && b1.len() == 32 && key1.len() == 32,
        a2.len() == 32 && b2.len() == 32 && key2.len() == 32,
        image1.len() == image2.len(),
        source_input(a1, b1, key1, image1, message1) == source_input(
            a2,
            b2,
            key2,
            image2,
            message2,
        ),
    ensures
        a1 == a2,
        b1 == b2,
        key1 == key2,
        image1 == image2,
        message1 == message2,
{
    bytes::lemma_same_heads(
        a1 + b1 + key1 + image1,
        message1,
        a2 + b2 + key2 + image2,
        message2,
    );
    bytes::lemma_same_heads(a1 + b1 + key1, image1, a2 + b2 + key2, image2);
    bytes::lemma_same_heads(a1 + b1, key1, a2 + b2, key2);
    bytes::lemma_same_heads(a1, b1, a2, b2);
}

/// A source proof commits to its message. Where the same commitments and response are
/// accepted for two messages, two different strings hash to one challenge.
pub proof fn law_source_binds_message(p: SourceProof, q: SourceProof)
    requires
        source_verdict(Ok(true), p),
        source_verdict(Ok(true), q),
        p.r1@ == q.r1@,
        p.r2@ == q.r2@,
        p.s@ == q.s@,
        p.public_key@ == q.public_key@,
        p.key_image@ == q.key_image@,
        p.message@ != q.message@,
        field::unit(group::ristretto_log(p.public_key@)->0),
    ensures
        ({
            let image = group::ristretto_encoding(p.key_image@);
            let left = source_input(p.r1@, p.r2@, p.public_key@, image, p.message@);
            let right = source_input(p.r1@, p.r2@, p.public_key@, image, q.message@);
            &&& left != right
            &&& curve::scalar_hash(
                hashing::domain_hash(bytes::tag("COINCYNC_SOURCE_v1"), left),
            ) == curve::scalar_hash(
                hashing::domain_hash(bytes::tag("COINCYNC_SOURCE_v1"), right),
            )
        }),
{
    let image = group::ristretto_encoding(p.key_image@);
    let s = field::red(field::le_nat(p.s@) as int);
    let key = group::ristretto_log(p.public_key@)->0;
    let c1 = source_challenge(p.r1@, p.r2@, p.public_key@, image, p.message@);
    let c2 = source_challenge(p.r1@, p.r2@, p.public_key@, image, q.message@);
    broadcast use field::lemma_red_range;

    field::lemma_cancel_term(s, field::times(key, c1), field::times(key, c2));
    field::lemma_cancel(key, c1, c2);
    if source_input(p.r1@, p.r2@, p.public_key@, image, p.message@) == source_input(
        p.r1@,
        p.r2@,
        p.public_key@,
        image,
        q.message@,
    ) {
        law_source_input_injective(
            p.r1@,
            p.r2@,
            p.public_key@,
            image,
            p.message@,
            p.r1@,
            p.r2@,
            p.public_key@,
            image,
            q.message@,
        );
    }
}

/// Two accepted source proofs with the same commitments and two challenges give a secret
/// away that opens the key and the key image alike: the image belongs to the key.
pub proof fn law_source_image_belongs_to_key(p: SourceProof, q: SourceProof, u: nat)
    requires
        source_verdict(Ok(true), p),
        source_verdict(Ok(true), q),
        p.r1@ == q.r1@,
        p.r2@ == q.r2@,
        p.public_key@ == q.public_key@,
        p.key_image@ == q.key_image@,
        p.key_image@ < field::order(),
        group::ristretto_log(p.public_key@)->0 < field::order(),
        ({
            let image = group::ristretto_encoding(p.key_image@);
            field::times(
                u,
                field::minus(
                    source_challenge(q.r1@, q.r2@, q.public_key@, image, q.message@),
                    source_challenge(p.r1@, p.r2@, p.public_key@, image, p.message@),
                ),
            ) == 1
        }),
    ensures
        ({
            let x = field::times(
                u,
                field::minus(
                    field::red(field::le_nat(p.s@) as int),
                    field::red(field::le_nat(q.s@) as int),
                ),
            );
            &&& group::ristretto_log(p.public_key@) == Some(x)
            &&& p.key_image@ == field::times(curve::point_hash(p.public_key@), x)
        }),
{
    let image = group::ristretto_encoding(p.key_image@);
    let s1 = field::red(field::le_nat(p.s@) as int);
    let s2 = field::red(field::le_nat(q.s@) as int);
    let key = group::ristretto_log(p.public_key@)->0;
    let hp = curve::point_hash(p.public_key@);
    let c1 = source_challenge(p.r1@, p.r2@, p.public_key@, image, p.message@);
    let c2 = source_challenge(q.r1@, q.r2@, q.public_key@, image, q.message@);
    let d = field::minus(c2, c1);
    field::lemma_red_range(field::le_nat(p.s@) as int);
    field::lemma_red_range(field::le_nat(q.s@) as int);
    field::lemma_answers(s1, s2, key, c1, c2);
    field::lemma_solve(u, d, key, field::minus(s1, s2));
    field::lemma_answers(field::times(hp, s1), field::times(hp, s2), p.key_image@, c1, c2);
    field::lemma_solve(
        u,
        d,
        p.key_image@,
        field::minus(field::times(hp, s1), field::times(hp, s2)),
    );
    field::lemma_factor_out(u, hp, s1, s2);
}

/// An honest source proof is accepted.
pub proof fn law_honest_source_accepted(
    p: SourceProof,
    secret: Seq<u8>,
    key: Seq<u8>,
    image: nat,
    message: Seq<u8>,
    nonce: nat,
    time: u64,
    r: Result<bool>,
)
    requires
        source_made(Ok(p), secret, key, image, message, nonce, time),
        source_verdict(r, p),
    ensures
        r == Ok::<bool, Error>(true),
{
    let x = stealth::key_scalar(secret);
    let hp = curve::point_hash(key);
    let c = source_challenge(p.r1@, p.r2@, key, group::ristretto_encoding(image), message);
    let w = field::times(c, x);
    let s = field::minus(nonce, w);
    field::lemma_red_range(nonce - w);
    field::lemma_scalar_bytes(s);
    field::lemma_red_small(s);
    field::lemma_red_small(nonce);
    assert(x * c == c * x) by (nonlinear_arith);
    assert(field::plus(s, field::times(x, c)) == nonce) by {
        field::lemma_plus_left(nonce - w, w);
    }
    assert(field::plus(field::times(hp, s), field::times(image, c)) == field::times(hp, nonce)) by {
        let z = nonce - c * x;
        field::lemma_minus_right(nonce, (c * x) as int);
        field::lemma_times_right(hp, z);
        field::lemma_times_left((hp * x) as int, c);
        field::lemma_add_red(hp * z, ((hp * x) * c) as int);
        assert(hp * z + (hp * x) * c == hp * nonce) by (nonlinear_arith)
            requires
                z == nonce - c * x,
        ;
    }
}

// --- Container ---------------------------------------------------------------------

/// A disclosure with its kind, ready to be shared.
#[derive(Clone, Debug, PartialEq, Eq)]
pub struct DisclosureProof {
    /// The version of the format.
    pub version: u8,
    /// The kind.
    pub proof_type: DisclosureType,
    /// The bytes of the proof inside.
    pub proof_data: Vec<u8>,
    /// When the proof inside was made.
    pub created_at: u64,
    /// When the disclosure expires, if it does.
    pub expires_at: Option<u64>,
    /// A label for people.
    pub prover_label: String,
}

/// A proof that was read from the bytes of a disclosure.
#[derive(Clone, Debug, PartialEq, Eq)]
pub enum Disclosed {
    /// A balance proof.
    Balance(BalanceProof),
    /// An ownership proof.
    Ownership(OwnershipProof),
    /// A sum proof.
    Sum(SumProof),
    /// A source proof.
    Source(SourceProof),
}

impl Disclosed {
    /// The kind of the proof.
    pub open spec fn kind(self) -> DisclosureType {
        match self {
            Disclosed::Balance(_) => DisclosureType::Balance,
            Disclosed::Ownership(_) => DisclosureType::Ownership,
            Disclosed::Sum(_) => DisclosureType::Sum,
            Disclosed::Source(_) => DisclosureType::Source,
        }
    }
}

/// Whether `d` is the disclosure of a kind of proof, with the time of the proof inside.
pub open spec fn wraps(
    d: DisclosureProof,
    kind: DisclosureType,
    data: Seq<u8>,
    time: u64,
    label: Seq<char>,
    expires_at: Option<u64>,
) -> bool {
    &&& d.version == 1
    &&& d.proof_type == kind
    &&& d.proof_data@ == data
    &&& d.created_at == time
    &&& d.expires_at == expires_at
    &&& d.prover_label@ == label
}

/// What checking a disclosure at a time gives, for what was read from its bytes.
pub open spec fn disclosure_verdict(
    r: Result<bool>,
    d: DisclosureProof,
    now: u64,
    decoded: core::result::Result<Disclosed, String>,
) -> bool {
    if d.expired(now) {
        r == Ok::<bool, Error>(false)
    } else if d.proof_type == DisclosureType::Sum {
        r matches Err(e) && error::is_crypto(
            e,
            "SumProof requires on-chain commitments for verification. Use verify_sum_proof() directly."@,
        )
    } else {
        match decoded {
            Err(text) => r matches Err(e) && error::is_serialization(e, text@),
            Ok(Disclosed::Balance(p)) => balance_verdict(r, p),
            Ok(Disclosed::Ownership(p)) => ownership_verdict(r, p),
            Ok(Disclosed::Source(p)) => source_verdict(r, p),
            Ok(Disclosed::Sum(_)) => false,
        }
    }
}

/// A disclosure is accepted only up to its expiry, only where its bytes were read, and only
/// where the proof inside is accepted; a sum proof is never accepted without commitments.
pub proof fn law_accepted_disclosure_holds(
    d: DisclosureProof,
    now: u64,
    decoded: core::result::Result<Disclosed, String>,
)
    requires
        disclosure_verdict(Ok(true), d, now, decoded),
    ensures
        d.expires_at matches Some(t) ==> now <= t,
        d.proof_type != DisclosureType::Sum,
        match decoded {
            Ok(Disclosed::Balance(p)) => balance_verdict(Ok(true), p),
            Ok(Disclosed::Ownership(p)) => ownership_verdict(Ok(true), p),
            Ok(Disclosed::Source(p)) => source_verdict(Ok(true), p),
            _ => false,
        },
{
}

impl DisclosureProof {
    /// The disclosure of a balance proof, whose bytes are `data`.
    pub fn from_balance(
        inner: &BalanceProof,
        data: Vec<u8>,
        label: &str,
        expires_at: Option<u64>,
    ) -> (r: DisclosureProof)
        ensures
            wraps(r, DisclosureType::Balance, data@, inner.timestamp, label@, expires_at),
    {
        DisclosureProof {
            version: 1,
            proof_type: DisclosureType::Balance,
            proof_data: data,
            created_at: inner.timestamp,
            expires_at,
            prover_label: label.to_owned(),
        }
    }

    /// The disclosure of an ownership proof, whose bytes are `data`.
    pub fn from_ownership(
        inner: &OwnershipProof,
        data: Vec<u8>,
        label: &str,
        expires_at: Option<u64>,
    ) -> (r: DisclosureProof)
        ensures
            wraps(r, DisclosureType::Ownership, data@, inner.timestamp, label@, expires_at),
    {
        DisclosureProof {
            version: 1,
            proof_type: DisclosureType::Ownership,
            proof_data: data,
            created_at: inner.timestamp,
            expires_at,
            prover_label: label.to_owned(),
        }
    }

    /// The disclosure of a sum proof, whose bytes are `data`.
    pub fn from_sum(inner: &SumProof, data: Vec<u8>, label: &str, expires_at: Option<u64>) -> (r:
        DisclosureProof)
        ensures
            wraps(r, DisclosureType::Sum, data@, inner.timestamp, label@, expires_at),
    {
        DisclosureProof {
            version: 1,
            proof_type: DisclosureType::Sum,
            proof_data: data,
            created_at: inner.timestamp,
            expires_at,
            prover_label: label.to_owned(),
        }
    }

    /// The disclosure of a source proof, whose bytes are `data`.
    pub fn from_source(
        inner: &SourceProof,
        data: Vec<u8>,
        label: &str,
        expires_at: Option<u64>,
    ) -> (r: DisclosureProof)
        ensures
            wraps(r, DisclosureType::Source, data@, inner.timestamp, label@, expires_at),
    {
        DisclosureProof {
            version: 1,
            proof_type: DisclosureType::Source,
            proof_data: data,
            created_at: inner.timestamp,
            expires_at,
            prover_label: label.to_owned(),
        }
    }

    /// Whether the disclosure has expired at a time.
    pub open spec fn expired(self, now: u64) -> bool {
        self.expires_at matches Some(expires) && now > expires
    }

    /// Whether the disclosure has expired by the clock of the machine.
    pub fn is_expired(&self) -> (r: bool)
        ensures
            exists|now: u64| r == #[trigger] self.expired(now),
            self.expires_at is None ==> !r,
    {
        let now: u64 = unix_time();
        self.is_expired_at(now)
    }

    /// Whether the disclosure has expired at a time.
    pub fn is_expired_at(&self, now: u64) -> (r: bool)
        ensures
            r == self.expired(now),
    {
        if let Some(expires) = self.expires_at {
            now > expires
        } else {
            false
        }
    }

    /// Checks the proof inside at a time. `decoded` is what reading the bytes as a proof of
    /// this kind gave: the proof, or the text of an error. A sum proof needs the chain and
    /// is not checked here.
    pub fn verify_at(
        &self,
        now: u64,
        decoded: &core::result::Result<Disclosed, String>,
    ) -> (r: Result<bool>)
        requires
            decoded matches Ok(inner) ==> inner.kind() == self.proof_type,
        ensures
            disclosure_verdict(r, *self, now, *decoded),
    {
        if self.is_expired_at(now) {
            return Ok(false);
        }
        if self.proof_type == DisclosureType::Sum {
            return Err(
                error::crypto(
                    "SumProof requires on-chain commitments for verification. Use verify_sum_proof() directly.",
                ),
            );
        }
        match decoded {
            Err(text) => Err(error::serialization(text.as_str())),
            Ok(Disclosed::Balance(p)) => verify_balance_proof(p),
            Ok(Disclosed::Ownership(p)) => verify_ownership_proof(p),
            Ok(Disclosed::Source(p)) => verify_source_proof(p),
            Ok(Disclosed::Sum(_)) => Ok(false),
        }
    }

    /// Checks the proof inside by the clock of the machine.
    pub fn verify(&self, decoded: &core::result::Result<Disclosed, String>) -> (r: Result<bool>)
        requires
            decoded matches Ok(inner) ==> inner.kind() == self.proof_type,
        ensures
            exists|now: u64| #[trigger] disclosure_verdict(r, *self, now, *decoded),
    {
        let now: u64 = unix_time();
        self.verify_at(now, decoded)
    }
}

} // verus!
