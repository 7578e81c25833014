//! Balance proofs over shielded value commitments `V = v*Gv + b*K`.
//!
//! The excess `E = sum of V_in - sum of V_out - (fee + value_balance)*Gv` of a transaction
//! that conserves value is a multiple of `K`. The proof is a Schnorr proof of knowledge of
//! that multiple.
use vstd::prelude::*;
use crate::bytes;
use crate::bytes::{append, append_tag, append_u64, array_32};
use crate::error;
use crate::error::{Error, Result};
use crate::field;
use crate::group;
use crate::group::{RistrettoPoint, Scalar};
use crate::hashing;
use crate::peer_scalars;
use crate::peer_scalars::{PeerPoint, PeerScalar};
use crate::shielded_spend;
use crate::spark_generators;
use crate::spark_generators::{gen_gv, gen_k};
use crate::spend_wire;
use crate::spend_wire::wire_error;

verus! {

/// The sum of a sequence of numbers.
pub open spec fn total(s: Seq<nat>) -> nat
    decreases s.len(),
{
    if s.len() == 0 {
        0
    } else {
        total(s.drop_last()) + s.last()
    }
}

/// Amounts as numbers.
pub open spec fn amounts(s: Seq<u64>) -> Seq<nat> {
    Seq::new(s.len(), |i: int| s[i] as nat)
}

/// A shielded value commitment `V = v*Gv + b*K`.
pub fn value_commitment(value: u64, blinding: &Scalar) -> (r: RistrettoPoint)
    ensures
        r@ == shielded_spend::value_point(value as nat, blinding@),
{
    gen_gv().mul(&Scalar::from_u64(value)).add(&gen_k().mul(blinding))
}

/// A proof that the excess of a transaction is a multiple of `K`.
#[derive(Clone, Copy, Debug, PartialEq, Eq)]
pub struct BalanceProof {
    /// The nonce commitment `k*K`, encoded.
    pub r_commit: [u8; 32],
    /// The response.
    pub z: [u8; 32],
}

impl BalanceProof {
    /// The wire format: the two strings, one after the other.
    pub open spec fn wire(self) -> Seq<u8> {
        self.r_commit@ + self.z@
    }

    /// Writes the wire format.
    pub fn encode(&self) -> (r: Vec<u8>)
        ensures
            r@ == self.wire(),
            r@.len() == 64,
    {
        let mut v: Vec<u8> = Vec::new();
        append(&mut v, &self.r_commit);
        append(&mut v, &self.z);
        assert(v@ =~= self.wire());
        v
    }

    /// Reads the wire format: exactly 64 bytes.
    pub fn from_bytes(bytes: &[u8]) -> (r: Result<BalanceProof>)
        ensures
            match r {
                Ok(p) => bytes@ == p.wire(),
                Err(e) => bytes@.len() != 64 && spend_wire::is_wire_error(
                    e,
                    "BalanceProof"@,
                    bytes@.len() < 64,
                ),
            },
    {
        if bytes.len() != 64 {
            return Err(wire_error("BalanceProof", bytes.len() < 64));
        }
        let p = BalanceProof { r_commit: array_32(bytes, 0), z: array_32(bytes, 32) };
        assert(bytes@ =~= p.wire());
        Ok(p)
    }
}

/// A balance proof that was written is read back.
pub proof fn law_balance_round_trip(p: BalanceProof, q: BalanceProof)
    requires
        p.wire() == q.wire(),
    ensures
        p.r_commit@ == q.r_commit@,
        p.z@ == q.z@,
{
    assert(p.r_commit@ =~= p.wire().subrange(0, 32));
    assert(q.r_commit@ =~= q.wire().subrange(0, 32));
    assert(p.z@ =~= p.wire().subrange(32, 64));
    assert(q.z@ =~= q.wire().subrange(32, 64));
}

/// What the challenge of a balance proof hashes.
pub open spec fn balance_input(e: nat, r: nat, context: Seq<u8>) -> Seq<u8> {
    bytes::tag("COINCYNC_SPARK_BALANCE_FS_v1") + vstd::bytes::spec_u64_to_le_bytes(
        context.len() as u64,
    ) + context + group::ristretto_encoding(spark_generators::k_log())
        + group::ristretto_encoding(e) + group::ristretto_encoding(r)
}

/// The challenge of a balance proof.
pub open spec fn balance_challenge_value(e: nat, r: nat, context: Seq<u8>) -> nat {
    field::red(field::le_nat(hashing::sha3_512(balance_input(e, r, context))) as int)
}

fn balance_challenge(e: &RistrettoPoint, r: &RistrettoPoint, context: &[u8]) -> (c: Scalar)
    ensures
        c@ == balance_challenge_value(e@, r@, context@),
{
    let mut input: Vec<u8> = Vec::new();
    append_tag(&mut input, "COINCYNC_SPARK_BALANCE_FS_v1");
    append_u64(&mut input, context.len() as u64);
    append(&mut input, context);
    append(&mut input, &gen_k().compress());
    append(&mut input, &e.compress());
    append(&mut input, &r.compress());
    assert(input@ =~= balance_input(e@, r@, context@));
    Scalar::from_bytes_mod_order_wide(&hashing::sha3_512_digest(input.as_slice()))
}

/// The public value of a transaction: the fee and the value that leaves the pool.
fn public_value_scalar(fee: u64, value_balance: i64) -> (r: Scalar)
    ensures
        r@ == field::red(fee + value_balance),
{
    let f = Scalar::from_u64(fee);
    proof {
        field::lemma_order_positive();
    }
    if value_balance >= 0 {
        f.add(&Scalar::from_u64(value_balance as u64))
    } else {
        let magnitude: u64 = (0 - (value_balance as i128)) as u64;
        f.sub(&Scalar::from_u64(magnitude))
    }
}

fn sum_amounts(values: &[u64]) -> (r: u128)
    ensures
        r == total(amounts(values@)),
        r <= values@.len() * u64::MAX,
{
    let ghost a = amounts(values@);
    let mut sum: u128 = 0;
    let mut i: usize = 0;
    while i < values.len()
        invariant
            i <= values@.len(),
            a == amounts(values@),
            sum == total(a.take(i as int)),
            sum <= i * u64::MAX,
        decreases values@.len() - i,
    {
        assert(a.take(i + 1).drop_last() =~= a.take(i as int));
        assert(a.take(i + 1).last() == values@[i as int]);
        assert(i * u64::MAX <= u64::MAX * u64::MAX) by (nonlinear_arith)
            requires
                i <= u64::MAX,
        ;
        assert((i + 1) * u64::MAX == i * u64::MAX + u64::MAX) by (nonlinear_arith);
        sum = sum + values[i] as u128;
        i = i + 1;
    }
    assert(a.take(i as int) =~= a);
    sum
}

pub(crate) fn sum_scalars(s: &[Scalar]) -> (r: Scalar)
    ensures
        r@ == field::red(total(group::values(s@)) as int),
{
    let ghost v = group::values(s@);
    let mut sum = Scalar::zero();
    proof {
        field::lemma_order_positive();
        field::lemma_red_small(0);
    }
    let mut i: usize = 0;
    while i < s.len()
        invariant
            i <= s@.len(),
            v == group::values(s@),
            sum@ == field::red(total(v.take(i as int)) as int),
        decreases s@.len() - i,
    {
        proof {
            assert(v.take(i + 1).drop_last() =~= v.take(i as int));
            assert(v.take(i + 1).last() == s@[i as int]@);
            field::lemma_plus_left(total(v.take(i as int)) as int, s@[i as int]@);
        }
        sum = sum.add(&s[i]);
        i = i + 1;
    }
    assert(v.take(i as int) =~= v);
    sum
}

fn sum_points(s: &[RistrettoPoint]) -> (r: RistrettoPoint)
    ensures
        r@ == field::red(total(group::logs(s@)) as int),
{
    let ghost v = group::logs(s@);
    let mut sum = RistrettoPoint::identity();
    proof {
        field::lemma_order_positive();
        field::lemma_red_small(0);
    }
    let mut i: usize = 0;
    while i < s.len()
        invariant
            i <= s@.len(),
            v == group::logs(s@),
            sum@ == field::red(total(v.take(i as int)) as int),
        decreases s@.len() - i,
    {
        proof {
            assert(v.take(i + 1).drop_last() =~= v.take(i as int));
            assert(v.take(i + 1).last() == s@[i as int]@);
            field::lemma_plus_left(total(v.take(i as int)) as int, s@[i as int]@);
        }
        sum = sum.add(&s[i]);
        i = i + 1;
    }
    assert(v.take(i as int) =~= v);
    sum
}

/// What the inputs hold beyond the outputs, the fee and the value that leaves the pool.
pub open spec fn surplus(inputs: Seq<u64>, outputs: Seq<u64>, fee: u64, value_balance: i64) -> int {
    total(amounts(inputs)) - total(amounts(outputs)) - fee - value_balance
}

/// The blinding of the inputs less that of the outputs.
pub open spec fn blinding_delta(inputs: Seq<nat>, outputs: Seq<nat>) -> nat {
    field::red(total(inputs) - total(outputs))
}

/// Whether `p` is the balance proof that a nonce gives for a blinding difference.
pub open spec fn is_balance_proof(
    p: BalanceProof,
    delta: nat,
    context: Seq<u8>,
    nonce: nat,
) -> bool {
    let k = spark_generators::k_log();
    let e = field::times(k, delta);
    let r = field::times(k, nonce);
    let c = balance_challenge_value(e, r, context);
    &&& group::encodes(p.r_commit@, r)
    &&& p.z@ == field::scalar_bytes(field::plus(nonce, field::times(c, delta)))
}

/// The excess of a transaction.
pub open spec fn excess(inputs: Seq<nat>, outputs: Seq<nat>, fee: u64, value_balance: i64) -> nat {
    field::red(
        total(inputs) - total(outputs) - spark_generators::gv_log() * field::red(
            fee + value_balance,
        ),
    )
}

/// Whether a balance proof holds for a transaction.
pub open spec fn balance_valid(
    inputs: Seq<nat>,
    outputs: Seq<nat>,
    fee: u64,
    value_balance: i64,
    p: BalanceProof,
    context: Seq<u8>,
) -> bool {
    let k = spark_generators::k_log();
    let e = excess(inputs, outputs, fee, value_balance);
    let r = group::ristretto_log(p.r_commit@)->0;
    let z = field::le_nat(p.z@);
    let c = balance_challenge_value(e, r, context);
    &&& peer_scalars::non_identity_fault(p.r_commit@) is None
    &&& z < field::order()
    &&& field::times(k, z) == field::plus(r, field::times(e, c))
}

/// Proves that a purely shielded transaction conserves value.
pub fn prove_balance(
    input_values: &[u64],
    input_blindings: &[Scalar],
    output_values: &[u64],
    output_blindings: &[Scalar],
    fee: u64,
    context: &[u8],
    nonce: &Scalar,
) -> (r: Result<BalanceProof>)
    ensures
        balance_outcome(
            r,
            input_values@,
            group::values(input_blindings@),
            output_values@,
            group::values(output_blindings@),
            fee,
            0,
            context@,
            nonce@,
        ),
{
    prove_balance_with_delta(
        input_values,
        input_blindings,
        output_values,
        output_blindings,
        fee,
        0,
        context,
        nonce,
    )
}

/// What the prover returns: a proof exactly where every value has a blinding factor and
/// the transaction conserves value.
pub open spec fn balance_outcome(
    r: Result<BalanceProof>,
    input_values: Seq<u64>,
    input_blindings: Seq<nat>,
    output_values: Seq<u64>,
    output_blindings: Seq<nat>,
    fee: u64,
    value_balance: i64,
    context: Seq<u8>,
    nonce: nat,
) -> bool {
    let paired = input_values.len() == input_blindings.len() && output_values.len()
        == output_blindings.len();
    match r {
        Ok(p) => paired && surplus(input_values, output_values, fee, value_balance) == 0
            && is_balance_proof(
            p,
            blinding_delta(input_blindings, output_blindings),
            context,
            nonce,
        ),
        Err(e) => if !paired {
            error::is_crypto(e, "balance: values/blindings length mismatch"@)
        } else {
            surplus(input_values, output_values, fee, value_balance) != 0 && error::is_crypto(
                e,
                "balance: values do not conserve"@,
            )
        },
    }
}

/// Proves that a transaction conserves value, where `value_balance` leaves the shielded
/// pool (or enters it, if negative). The nonce is a fresh random scalar.
pub fn prove_balance_with_delta(
    input_values: &[u64],
    input_blindings: &[Scalar],
    output_values: &[u64],
    output_blindings: &[Scalar],
    fee: u64,
    value_balance: i64,
    context: &[u8],
    nonce: &Scalar,
) -> (r: Result<BalanceProof>)
    ensures
        balance_outcome(
            r,
            input_values@,
            group::values(input_blindings@),
            output_values@,
            group::values(output_blindings@),
            fee,
            value_balance,
            context@,
            nonce@,
        ),
{
    if input_values.len() != input_blindings.len() || output_values.len()
        != output_blindings.len() {
        return Err(error::crypto("balance: values/blindings length mismatch"));
    }
    let sum_in: u128 = sum_amounts(input_values);
    let sum_out: u128 = sum_amounts(output_values);
    let entering: u128 = if value_balance < 0 {
        (0 - (value_balance as i128)) as u128
    } else {
        0
    };
    let leaving: u128 = if value_balance > 0 {
        value_balance as u128
    } else {
        0
    };
    let n_in: usize = input_values.len();
    let n_out: usize = output_values.len();
    assert(n_in * u64::MAX <= u64::MAX * u64::MAX && n_out * u64::MAX <= u64::MAX * u64::MAX)
        by (nonlinear_arith)
        requires
            n_in <= u64::MAX,
            n_out <= u64::MAX,
    ;
    if sum_in + entering != sum_out + fee as u128 + leaving {
        return Err(error::crypto("balance: values do not conserve"));
    }
    let delta = sum_scalars(input_blindings).sub(&sum_scalars(output_blindings));
    proof {
        field::lemma_sub_red(
            total(group::values(input_blindings@)) as int,
            total(group::values(output_blindings@)) as int,
        );
    }
    let k = gen_k();
    let e = k.mul(&delta);
    let r = k.mul(nonce);
    let c = balance_challenge(&e, &r, context);
    let z = nonce.add(&c.mul(&delta));
    Ok(BalanceProof { r_commit: r.compress(), z: z.to_bytes() })
}

/// Checks the balance proof of a purely shielded transaction.
pub fn verify_balance(
    input_commitments: &[RistrettoPoint],
    output_commitments: &[RistrettoPoint],
    fee: u64,
    proof: &BalanceProof,
    context: &[u8],
) -> (r: Result<()>)
    ensures
        match r {
            Ok(_) => balance_valid(
                group::logs(input_commitments@),
                group::logs(output_commitments@),
                fee,
                0,
                *proof,
                context@,
            ),
            Err(e) => e is SparkVerifyFailed && !balance_valid(
                group::logs(input_commitments@),
                group::logs(output_commitments@),
                fee,
                0,
                *proof,
                context@,
            ),
        },
{
    verify_balance_with_delta(input_commitments, output_commitments, fee, 0, proof, context)
}

/// Checks the balance proof of a transaction where `value_balance` leaves the shielded
/// pool.
pub fn verify_balance_with_delta(
    input_commitments: &[RistrettoPoint],
    output_commitments: &[RistrettoPoint],
    fee: u64,
    value_balance: i64,
    proof: &BalanceProof,
    context: &[u8],
) -> (r: Result<()>)
    ensures
        match r {
            Ok(_) => balance_valid(
                group::logs(input_commitments@),
                group::logs(output_commitments@),
                fee,
                value_balance,
                *proof,
                context@,
            ),
            Err(e) => e is SparkVerifyFailed && !balance_valid(
                group::logs(input_commitments@),
                group::logs(output_commitments@),
                fee,
                value_balance,
                *proof,
                context@,
            ),
        },
{
    let public = gen_gv().mul(&public_value_scalar(fee, value_balance));
    let e = sum_points(input_commitments).sub(&sum_points(output_commitments)).sub(&public);
    proof {
        let a = total(group::logs(input_commitments@)) as int;
        let b = total(group::logs(output_commitments@)) as int;
        let g = (spark_generators::gv_log() * field::red(fee + value_balance)) as int;
        field::lemma_sub_red(a, b);
        field::lemma_sub_red(a - b, g);
    }
    let r = match PeerPoint::decode_non_identity(proof.r_commit) {
        Ok(p) => p.into_point(),
        Err(_) => {
            return Err(Error::SparkVerifyFailed);
        },
    };
    let z = match PeerScalar::decode(proof.z) {
        Ok(s) => s.into_scalar(),
        Err(_) => {
            return Err(Error::SparkVerifyFailed);
        },
    };
    let c = balance_challenge(&e, &r, context);
    if gen_k().mul(&z).equals(&r.add(&e.mul(&c))) {
        Ok(())
    } else {
        Err(Error::SparkVerifyFailed)
    }
}

// --- Laws ------------------------------------------------------------------------------------

/// The value commitments of amounts and blinding factors.
pub open spec fn commitments_of(values: Seq<u64>, blindings: Seq<nat>) -> Seq<nat> {
    Seq::new(
        values.len(),
        |i: int| shielded_spend::value_point(values[i] as nat, blindings[i]),
    )
}

proof fn lemma_total_commitments(values: Seq<u64>, blindings: Seq<nat>)
    requires
        values.len() == blindings.len(),
    ensures
        field::red(total(commitments_of(values, blindings)) as int) == field::red(
            (spark_generators::gv_log() * total(amounts(values)) + spark_generators::k_log()
                * total(blindings)) as int,
        ),
    decreases values.len(),
{
    let g = spark_generators::gv_log() as int;
    let k = spark_generators::k_log() as int;
    if values.len() == 0 {
        assert(g * 0 + k * 0 == 0) by (nonlinear_arith);
    } else {
        let vs = values.drop_last();
        let bs = blindings.drop_last();
        lemma_total_commitments(vs, bs);
        let c = commitments_of(values, blindings);
        assert(c.drop_last() =~= commitments_of(vs, bs));
        assert(amounts(values).drop_last() =~= amounts(vs));
        let tv = total(amounts(vs)) as int;
        let tb = total(bs) as int;
        let v = values.last() as int;
        let b = blindings.last() as int;
        field::lemma_add_red(g * v, k * b);
        assert(c.last() == field::red(g * v + k * b));
        field::lemma_add_red(total(c.drop_last()) as int, g * v + k * b);
        field::lemma_plus_right(total(c.drop_last()), g * v + k * b);
        field::lemma_add_red(g * tv + k * tb, g * v + k * b);
        assert(g * tv + k * tb + (g * v + k * b) == g * (tv + v) + k * (tb + b))
            by (nonlinear_arith);
    }
}

/// An honest balance proof verifies: where a transaction conserves value, the proof that
/// a nonce gives is accepted for its commitments, provided that the nonce commitment is not
/// the neutral element.
pub proof fn law_honest_balance_verifies(
    p: BalanceProof,
    input_values: Seq<u64>,
    input_blindings: Seq<nat>,
    output_values: Seq<u64>,
    output_blindings: Seq<nat>,
    fee: u64,
    value_balance: i64,
    context: Seq<u8>,
    nonce: nat,
)
    requires
        input_values.len() == input_blindings.len(),
        output_values.len() == output_blindings.len(),
        surplus(input_values, output_values, fee, value_balance) == 0,
        is_balance_proof(
            p,
            blinding_delta(input_blindings, output_blindings),
            context,
            nonce,
        ),
        field::times(spark_generators::k_log(), nonce) != 0,
    ensures
        balance_valid(
            commitments_of(input_values, input_blindings),
            commitments_of(output_values, output_blindings),
            fee,
            value_balance,
            p,
            context,
        ),
{
    let g = spark_generators::gv_log() as int;
    let k = spark_generators::k_log() as int;
    let ci = commitments_of(input_values, input_blindings);
    let co = commitments_of(output_values, output_blindings);
    let vi = total(amounts(input_values)) as int;
    let vo = total(amounts(output_values)) as int;
    let bi = total(input_blindings) as int;
    let bo = total(output_blindings) as int;
    let pv = fee + value_balance;
    let delta = blinding_delta(input_blindings, output_blindings);
    lemma_total_commitments(input_values, input_blindings);
    lemma_total_commitments(output_values, output_blindings);
    assert(excess(ci, co, fee, value_balance) == field::times(k as nat, delta)) by {
        field::lemma_sub_red(total(ci) as int, total(co) as int);
        field::lemma_sub_red(g * vi + k * bi, g * vo + k * bo);
        let d = g * vi + k * bi - (g * vo + k * bo);
        assert(field::red(total(ci) - total(co)) == field::red(d));
        field::lemma_times_right(g as nat, pv);
        field::lemma_sub_red(total(ci) - total(co), g * field::red(pv));
        field::lemma_sub_red(d, g * pv);
        assert(d - g * pv == k * (bi - bo)) by (nonlinear_arith)
            requires
                d == g * vi + k * bi - (g * vo + k * bo),
                vi - vo - pv == 0,
        ;
        field::lemma_times_right(k as nat, bi - bo);
    }
    let e = excess(ci, co, fee, value_balance);
    let r = field::times(k as nat, nonce);
    let c = balance_challenge_value(e, r, context);
    field::lemma_plus_scalar_bytes(nonce, field::times(c, delta));
    field::lemma_response(k as nat, nonce, c, delta);
    field::lemma_times_left(k * delta, c);
    field::lemma_add_red(k * nonce, (k * delta) * c);
}

/// What the challenge of a balance proof hashes determines the excess, the nonce commitment
/// and the context.
pub proof fn law_balance_input_injective(
    e1: nat,
    r1: nat,
    context1: Seq<u8>,
    e2: nat,
    r2: nat,
    context2: Seq<u8>,
)
    requires
        group::encodable(e1) && group::encodable(r1),
        group::encodable(e2) && group::encodable(r2),
        balance_input(e1, r1, context1) == balance_input(e2, r2, context2),
    ensures
        e1 == e2,
        r1 == r2,
        context1 == context2,
{
    let t = bytes::tag("COINCYNC_SPARK_BALANCE_FS_v1");
    let k = group::ristretto_encoding(spark_generators::k_log());
    let (n1, n2) = (
        vstd::bytes::spec_u64_to_le_bytes(context1.len() as u64),
        vstd::bytes::spec_u64_to_le_bytes(context2.len() as u64),
    );
    let (f1, f2) = (group::ristretto_encoding(e1), group::ristretto_encoding(e2));
    let (g1, g2) = (group::ristretto_encoding(r1), group::ristretto_encoding(r2));
    bytes::lemma_u64_bytes(context1.len() as u64, context2.len() as u64);
    bytes::lemma_u64_bytes(context2.len() as u64, context1.len() as u64);
    bytes::lemma_same_tails(t + n1 + context1 + k + f1, g1, t + n2 + context2 + k + f2, g2);
    bytes::lemma_same_tails(t + n1 + context1 + k, f1, t + n2 + context2 + k, f2);
    bytes::lemma_same_tails(t + n1 + context1, k, t + n2 + context2, k);
    bytes::lemma_same_heads(t + n1, context1, t + n2, context2);
}

/// A balance proof commits to its context: where one proof is accepted for one transaction
/// in two contexts, two different strings hash to one challenge.
pub proof fn law_balance_binds_context(
    inputs: Seq<nat>,
    outputs: Seq<nat>,
    fee: u64,
    value_balance: i64,
    p: BalanceProof,
    context1: Seq<u8>,
    context2: Seq<u8>,
)
    requires
        balance_valid(inputs, outputs, fee, value_balance, p, context1),
        balance_valid(inputs, outputs, fee, value_balance, p, context2),
        context1 != context2,
        field::unit(excess(inputs, outputs, fee, value_balance)),
    ensures
        ({
            let e = excess(inputs, outputs, fee, value_balance);
            let r = group::ristretto_log(p.r_commit@)->0;
            let left = balance_input(e, r, context1);
            let right = balance_input(e, r, context2);
            &&& left != right
            &&& field::red(field::le_nat(hashing::sha3_512(left)) as int) == field::red(
                field::le_nat(hashing::sha3_512(right)) as int,
            )
        }),
{
    let e = excess(inputs, outputs, fee, value_balance);
    let r = group::ristretto_log(p.r_commit@)->0;
    let c1 = balance_challenge_value(e, r, context1);
    let c2 = balance_challenge_value(e, r, context2);
    broadcast use field::lemma_red_range;

    field::lemma_cancel_term(r, field::times(e, c1), field::times(e, c2));
    field::lemma_cancel(e, c1, c2);
    if balance_input(e, r, context1) == balance_input(e, r, context2) {
        let t = bytes::tag("COINCYNC_SPARK_BALANCE_FS_v1");
        let k = group::ristretto_encoding(spark_generators::k_log());
        let (n1, n2) = (
            vstd::bytes::spec_u64_to_le_bytes(context1.len() as u64),
            vstd::bytes::spec_u64_to_le_bytes(context2.len() as u64),
        );
        let (f, g) = (group::ristretto_encoding(e), group::ristretto_encoding(r));
        bytes::lemma_u64_bytes(context1.len() as u64, context2.len() as u64);
        bytes::lemma_u64_bytes(context2.len() as u64, context1.len() as u64);
        bytes::lemma_same_tails(t + n1 + context1 + k + f, g, t + n2 + context2 + k + f, g);
        bytes::lemma_same_tails(t + n1 + context1 + k, f, t + n2 + context2 + k, f);
        bytes::lemma_same_tails(t + n1 + context1, k, t + n2 + context2, k);
        bytes::lemma_same_heads(t + n1, context1, t + n2, context2);
    }
}

/// A balance proof is refused for a transaction with another excess, unless the string with
/// that excess hashes to the one challenge `u*(z*K - R)` that the proof answers, for `u` the
/// inverse of the excess.
pub proof fn law_other_excess_refused(
    inputs: Seq<nat>,
    outputs: Seq<nat>,
    fee: u64,
    value_balance: i64,
    p: BalanceProof,
    context: Seq<u8>,
    u: nat,
)
    requires
        field::times(u, excess(inputs, outputs, fee, value_balance)) == 1,
        ({
            let e = excess(inputs, outputs, fee, value_balance);
            let r = group::ristretto_log(p.r_commit@)->0;
            field::red(field::le_nat(hashing::sha3_512(balance_input(e, r, context))) as int)
                != field::times(
                u,
                field::minus(
                    field::times(spark_generators::k_log(), field::le_nat(p.z@)),
                    r,
                ),
            )
        }),
    ensures
        !balance_valid(inputs, outputs, fee, value_balance, p, context),
{
    if balance_valid(inputs, outputs, fee, value_balance, p, context) {
        let e = excess(inputs, outputs, fee, value_balance);
        let r = group::ristretto_log(p.r_commit@)->0;
        let c = balance_challenge_value(e, r, context);
        broadcast use field::lemma_red_range;

        field::lemma_minus_left((r + field::times(e, c)) as int, r);
        field::lemma_red_small(field::times(e, c));
        field::lemma_inverse(u, e, c);
    }
}

/// The excess of a transaction is its surplus of value on `Gv` and its blinding on `K`: the
/// fee and the value that leaves the pool count on the side of the outputs.
pub proof fn law_excess_holds_the_surplus(
    input_values: Seq<u64>,
    input_blindings: Seq<nat>,
    output_values: Seq<u64>,
    output_blindings: Seq<nat>,
    fee: u64,
    value_balance: i64,
)
    requires
        input_values.len() == input_blindings.len(),
        output_values.len() == output_blindings.len(),
    ensures
        excess(
            commitments_of(input_values, input_blindings),
            commitments_of(output_values, output_blindings),
            fee,
            value_balance,
        ) == field::plus(
            field::times(
                spark_generators::gv_log(),
                field::red(
                    total(amounts(input_values)) - total(amounts(output_values)) - fee
                        - value_balance,
                ),
            ),
            field::times(
                spark_generators::k_log(),
                field::red(total(input_blindings) - total(output_blindings)),
            ),
        ),
{
    let g = spark_generators::gv_log() as int;
    let k = spark_generators::k_log() as int;
    let ci = commitments_of(input_values, input_blindings);
    let co = commitments_of(output_values, output_blindings);
    let vi = total(amounts(input_values)) as int;
    let vo = total(amounts(output_values)) as int;
    let bi = total(input_blindings) as int;
    let bo = total(output_blindings) as int;
    let pv = fee + value_balance;
    lemma_total_commitments(input_values, input_blindings);
    lemma_total_commitments(output_values, output_blindings);
    let d = g * vi + k * bi - (g * vo + k * bo);
    field::lemma_red_apart(total(ci) as int, g * vi + k * bi, total(co) as int, g * vo + k * bo);
    field::lemma_times_right(g as nat, pv);
    field::lemma_red_apart(total(ci) - total(co), d, g * field::red(pv), g * pv);
    let sur = vi - vo - fee - value_balance;
    field::lemma_times_right(g as nat, sur);
    field::lemma_times_right(k as nat, bi - bo);
    field::lemma_add_red(g * sur, k * (bi - bo));
    assert(d - g * pv == g * sur + k * (bi - bo)) by (nonlinear_arith)
        requires
            d == g * vi + k * bi - (g * vo + k * bo),
            sur == vi - vo - fee - value_balance,
            pv == fee + value_balance,
    ;
}

/// What acceptance proves. Two accepted balance proofs for one transaction with one nonce
/// commitment and two challenges give the excess away as a multiple of `K`. So the surplus
/// of value on `Gv` is a known multiple of `K`: the transaction conserves value, or the
/// proofs give a relation between `Gv` and `K`.
pub proof fn law_accepted_balance_conserves_value(
    input_values: Seq<u64>,
    input_blindings: Seq<nat>,
    output_values: Seq<u64>,
    output_blindings: Seq<nat>,
    fee: u64,
    value_balance: i64,
    p: BalanceProof,
    context1: Seq<u8>,
    q: BalanceProof,
    context2: Seq<u8>,
    u: nat,
)
    requires
        input_values.len() == input_blindings.len(),
        output_values.len() == output_blindings.len(),
        ({
            let ci = commitments_of(input_values, input_blindings);
            let co = commitments_of(output_values, output_blindings);
            let e = excess(ci, co, fee, value_balance);
            let r = group::ristretto_log(p.r_commit@)->0;
            &&& balance_valid(ci, co, fee, value_balance, p, context1)
            &&& balance_valid(ci, co, fee, value_balance, q, context2)
            &&& field::times(
                u,
                field::minus(
                    balance_challenge_value(e, r, context1),
                    balance_challenge_value(e, r, context2),
                ),
            ) == 1
        }),
        p.r_commit@ == q.r_commit@,
    ensures
        ({
            let w = field::times(u, field::minus(field::le_nat(p.z@), field::le_nat(q.z@)));
            field::times(
                spark_generators::gv_log(),
                field::red(
                    total(amounts(input_values)) - total(amounts(output_values)) - fee
                        - value_balance,
                ),
            ) == field::times(
                spark_generators::k_log(),
                field::minus(w, field::red(total(input_blindings) - total(output_blindings))),
            )
        }),
{
    let k = spark_generators::k_log();
    let g = spark_generators::gv_log();
    let ci = commitments_of(input_values, input_blindings);
    let co = commitments_of(output_values, output_blindings);
    let e = excess(ci, co, fee, value_balance);
    let r = group::ristretto_log(p.r_commit@)->0;
    let (z1, z2) = (field::le_nat(p.z@), field::le_nat(q.z@));
    let c1 = balance_challenge_value(e, r, context1);
    let c2 = balance_challenge_value(e, r, context2);
    broadcast use field::lemma_red_range;

    field::lemma_two_responses(r, e, c1, c2);
    field::lemma_solve(
        u,
        field::minus(c1, c2),
        e,
        field::minus(field::times(k, z1), field::times(k, z2)),
    );
    field::lemma_factor_out(u, k, z1, z2);
    let w = field::times(u, field::minus(z1, z2));
    law_excess_holds_the_surplus(
        input_values,
        input_blindings,
        output_values,
        output_blindings,
        fee,
        value_balance,
    );
    let sur = field::red(
        total(amounts(input_values)) - total(amounts(output_values)) - fee - value_balance,
    );
    let delta = field::red(total(input_blindings) - total(output_blindings));
    let a = (g * sur) as int;
    let b = (k * delta) as int;
    field::lemma_add_red(a, b);
    assert(field::red(a + b) == field::red((k * w) as int));
    field::lemma_sums_apart(a, 0, b, (k * w) as int);
    field::lemma_times_right(k, w - delta);
    assert(k * w - k * delta == k * (w - delta)) by (nonlinear_arith);
}

/// For one transaction, one context and one nonce commitment a single response is accepted,
/// in a single form.
pub proof fn law_balance_response_is_unique(
    inputs: Seq<nat>,
    outputs: Seq<nat>,
    fee: u64,
    value_balance: i64,
    p: BalanceProof,
    q: BalanceProof,
    context: Seq<u8>,
)
    requires
        balance_valid(inputs, outputs, fee, value_balance, p, context),
        balance_valid(inputs, outputs, fee, value_balance, q, context),
        p.r_commit@ == q.r_commit@,
        field::unit(spark_generators::k_log()),
    ensures
        p.z@ == q.z@,
        field::le_nat(p.z@) < field::order(),
        group::ristretto_log(p.r_commit@) matches Some(k) && k != 0,
{
    field::lemma_cancel(spark_generators::k_log(), field::le_nat(p.z@), field::le_nat(q.z@));
    field::lemma_same_number(p.z@, q.z@);
}

} // verus!
