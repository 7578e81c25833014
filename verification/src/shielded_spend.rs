//! Shielded spends over one-out-of-many proofs.
//!
//! - `SparkSpendProofV2` spends a coin `m*G + r*K`: it reveals the serial number `m`.
//! - `SparkSpendProofV3` spends a coin `v*Gv + s*H + r*K`: it reveals the serial number and
//!   binds the value to a published commitment `V = v*Gv + b*K`.
//! - `SparkSpendProofV4` does the same and hides the serial number.
use vstd::prelude::*;
use crate::bytes;
use crate::bytes::{append, append_tag, bytes_equal};
use crate::error;
use crate::error::{Error, Result};
use crate::field;
use crate::gk_algebra;
use crate::groth_kohlweiss;
use crate::groth_kohlweiss::{
    prove_one_of_many_ctx, verify_one_of_many_ctx, DecodedGkProof, GkOneOfManyProof,
};
use crate::group;
use crate::group::{RistrettoPoint, Scalar};
use crate::hashing;
use crate::one_of_many_hk;
use crate::one_of_many_hk::{
    prove_one_of_many_hk_ctx, verify_one_of_many_hk_ctx, GkOneOfManyHkProof,
};
use crate::peer_scalars;
use crate::peer_scalars::{PeerPoint, PeerScalar};
use crate::spark_generators;
use crate::spark_generators::{gen_g, gen_gv, gen_h, gen_k};

verus! {

/// A sequence of group elements, each less `s`.
pub open spec fn shifted(c: Seq<nat>, s: nat) -> Seq<nat> {
    Seq::new(c.len(), |i: int| field::minus(c[i], s))
}

fn shift_all(c: &[RistrettoPoint], s: &RistrettoPoint) -> (r: Vec<RistrettoPoint>)
    ensures
        group::logs(r@) == shifted(group::logs(c@), s@),
        r@.len() == c@.len(),
{
    let mut out: Vec<RistrettoPoint> = Vec::new();
    let mut i: usize = 0;
    while i < c.len()
        invariant
            i <= c@.len(),
            out@.len() == i,
            forall|j: int| 0 <= j < i ==> (#[trigger] out@[j])@ == field::minus(c@[j]@, s@),
        decreases c@.len() - i,
    {
        out.push(c[i].sub(s));
        i = i + 1;
    }
    assert(group::logs(out@) =~= shifted(group::logs(c@), s@));
    out
}

// --- Spends that reveal the serial number ----------------------------------------------

/// A spend of a coin `m*G + r*K`.
#[derive(Clone, Debug, PartialEq, Eq)]
pub struct SparkSpendProofV2 {
    /// The membership proof over the shifted set.
    pub one_of_many: GkOneOfManyProof,
    /// The revealed serial number.
    pub serial: [u8; 32],
    /// The message that the proof is bound to.
    pub message: [u8; 32],
}

/// What the context of a spend is the hash of.
pub open spec fn spend_context_input(serial: nat, message: Seq<u8>) -> Seq<u8> {
    bytes::tag("COINCYNC_SPARK_SPEND_CTX_v1") + field::scalar_bytes(serial) + message
}

/// The context of a spend.
pub open spec fn spend_context_bytes(serial: nat, message: Seq<u8>) -> Seq<u8> {
    hashing::sha3_256(spend_context_input(serial, message))
}

fn spend_context(serial: &Scalar, message: &[u8; 32]) -> (r: [u8; 32])
    ensures
        r@ == spend_context_bytes(serial@, message@),
{
    let mut input: Vec<u8> = Vec::new();
    append_tag(&mut input, "COINCYNC_SPARK_SPEND_CTX_v1");
    append(&mut input, &serial.to_bytes());
    append(&mut input, message);
    assert(input@ =~= spend_context_input(serial@, message@));
    hashing::sha3_256_digest(input.as_slice())
}

/// The double-spend tag of a serial number.
pub open spec fn nullifier_of(serial: Seq<u8>) -> Seq<u8> {
    hashing::sha3_256(bytes::tag("COINCYNC_SPARK_NULLIFIER_v1") + serial)
}

fn serial_nullifier(serial: &[u8; 32]) -> (r: [u8; 32])
    ensures
        r@ == nullifier_of(serial@),
{
    let mut input: Vec<u8> = Vec::new();
    append_tag(&mut input, "COINCYNC_SPARK_NULLIFIER_v1");
    append(&mut input, serial);
    assert(input@ =~= bytes::tag("COINCYNC_SPARK_NULLIFIER_v1") + serial@);
    hashing::sha3_256_digest(input.as_slice())
}

/// Whether a spend holds for these coins and this message.
pub open spec fn spend_valid(proof: SparkSpendProofV2, c: Seq<nat>, message: Seq<u8>) -> bool {
    let serial = field::le_nat(proof.serial@);
    &&& proof.message@ == message
    &&& serial < field::order()
    &&& groth_kohlweiss::one_of_many_valid(
        proof.one_of_many,
        shifted(c, field::times(1, serial)),
        spend_context_bytes(serial, message),
    )
}

/// What spending the coin at `l` gives, under these nonces.
pub open spec fn spend_outcome(
    res: Result<SparkSpendProofV2>,
    c: Seq<nat>,
    l: int,
    serial: nat,
    blinding: nat,
    message: Seq<u8>,
    nonces: Seq<nat>,
) -> bool {
    match res {
        Ok(proof) => {
            &&& l < c.len()
            &&& c[l] == groth_kohlweiss::com(serial, blinding)
            &&& groth_kohlweiss::prove_fault(c.len(), l) is None
            &&& proof.serial@ == field::scalar_bytes(serial)
            &&& proof.message@ == message
            &&& groth_kohlweiss::is_one_of_many_proof(
                proof.one_of_many,
                shifted(c, field::times(1, serial)),
                l as nat,
                blinding,
                spend_context_bytes(serial, message),
                nonces,
            )
            &&& groth_kohlweiss::all_points_usable(
                proof.one_of_many.cl@,
                proof.one_of_many.ca@,
                proof.one_of_many.cb@,
                proof.one_of_many.gk@,
            ) ==> spend_valid(proof, c, message)
        },
        Err(e) => if l >= c.len() {
            error::is_crypto(e, "spend: index out of range"@)
        } else if c[l] != groth_kohlweiss::com(serial, blinding) {
            error::is_crypto(e, "spend: opening (serial, blinding) does not match commitments[l]"@)
        } else {
            groth_kohlweiss::prove_fault(c.len(), l) matches Some(text) && error::is_crypto(e, text)
        },
    }
}

/// Spends the coin at `l`, which the spender can open. The nonces are fresh random
/// scalars, five for each round.
pub fn prove_spend(
    commitments: &[RistrettoPoint],
    l: usize,
    serial: &Scalar,
    blinding: &Scalar,
    message: &[u8; 32],
    nonces: &[Scalar],
) -> (res: Result<SparkSpendProofV2>)
    requires
        nonces@.len() >= 5 * gk_algebra::log2(commitments@.len()),
    ensures
        spend_outcome(
            res,
            group::logs(commitments@),
            l as int,
            serial@,
            blinding@,
            message@,
            group::values(nonces@),
        ),
{
    if l >= commitments.len() {
        return Err(error::crypto("spend: index out of range"));
    }
    let s_g = gen_g().mul(serial);
    if !commitments[l].equals(&s_g.add(&gen_k().mul(blinding))) {
        return Err(
            error::crypto("spend: opening (serial, blinding) does not match commitments[l]"),
        );
    }
    let set = shift_all(commitments, &s_g);
    let ctx = spend_context(serial, message);
    let one_of_many = match prove_one_of_many_ctx(set.as_slice(), l, blinding, &ctx, nonces) {
        Ok(p) => p,
        Err(e) => {
            return Err(e);
        },
    };
    let proof = SparkSpendProofV2 { one_of_many, serial: serial.to_bytes(), message: *message };
    proof {
        group::lemma_scalar_range(*serial);
        lemma_shifted_opening(serial@, blinding@);
        assert(group::logs(set@)[l as int] == set@[l as int]@);
    }
    Ok(proof)
}

/// A coin less its serial part is its blinding part.
proof fn lemma_shifted_opening(s: nat, b: nat)
    ensures
        field::minus(groth_kohlweiss::com(s, b), field::times(1, s)) == field::times(
            spark_generators::k_log(),
            b,
        ),
{
    broadcast use field::group_field;

    let p = (1 * s) as int;
    let q = (spark_generators::k_log() * b) as int;
    assert(groth_kohlweiss::com(s, b) == field::red(p + q));
    assert(field::minus(field::red(p + q), field::red(p)) == field::red(p + q - p));
}

/// Checks a spend against the coins and the message.
pub fn verify_spend(
    commitments: &[RistrettoPoint],
    proof: &SparkSpendProofV2,
    message: &[u8; 32],
) -> (r: Result<()>)
    ensures
        ({
            let c = group::logs(commitments@);
            let serial = field::le_nat(proof.serial@);
            match r {
                Ok(_) => spend_valid(*proof, c, message@),
                Err(e) => if proof.message@ != message@ || serial >= field::order() {
                    e is SparkVerifyFailed
                } else {
                    groth_kohlweiss::is_verify_error(
                        e,
                        proof.one_of_many,
                        shifted(c, field::times(1, serial)),
                        spend_context_bytes(serial, message@),
                    )
                },
            }
        }),
{
    if !bytes_equal(&proof.message, message) {
        return Err(Error::SparkVerifyFailed);
    }
    let serial = match PeerScalar::decode(proof.serial) {
        Ok(s) => s.into_scalar(),
        Err(_) => {
            return Err(Error::SparkVerifyFailed);
        },
    };
    let set = shift_all(commitments, &gen_g().mul(&serial));
    let ctx = spend_context(&serial, message);
    verify_one_of_many_ctx(set.as_slice(), &proof.one_of_many, &ctx)
}

impl SparkSpendProofV2 {
    /// The double-spend tag: a hash of the revealed serial number alone.
    pub fn nullifier(&self) -> (r: [u8; 32])
        ensures
            r@ == nullifier_of(self.serial@),
    {
        serial_nullifier(&self.serial)
    }

    /// Decodes the membership proof and the serial number, without checking the spend.
    pub fn decode(&self) -> (r: Result<(DecodedGkProof, Scalar)>)
        ensures
            match r {
                Ok(d) => {
                    &&& self.one_of_many.decode_fault() is None
                    &&& self.one_of_many.decodes_to(d.0)
                    &&& field::le_nat(self.serial@) < field::order()
                    &&& d.1@ == field::le_nat(self.serial@)
                },
                Err(e) => match self.one_of_many.decode_fault() {
                    Some(text) => error::is_crypto(e, text),
                    None => field::le_nat(self.serial@) >= field::order() && error::is_crypto(
                        e,
                        peer_scalars::scalar_fault(),
                    ),
                },
            },
    {
        let d = self.one_of_many.decode()?;
        let s = PeerScalar::decode(self.serial)?;
        Ok((d, s.into_scalar()))
    }
}

// --- Spends that bind the value ----------------------------------------------------------

/// The model of the coin `v*Gv + s*H + r*K`.
pub open spec fn bound_coin(v: nat, s: nat, r: nat) -> nat {
    field::plus(
        field::plus(
            field::times(spark_generators::gv_log(), v),
            field::times(spark_generators::h_log(), s),
        ),
        field::times(spark_generators::k_log(), r),
    )
}

/// The model of the value commitment `v*Gv + b*K`.
pub open spec fn value_point(v: nat, b: nat) -> nat {
    field::plus(
        field::times(spark_generators::gv_log(), v),
        field::times(spark_generators::k_log(), b),
    )
}

/// The coin of a value under a serial number and a blinding factor.
pub fn bound_coin_commitment(value: u64, serial: &Scalar, blinding: &Scalar) -> (r: RistrettoPoint)
    ensures
        r@ == bound_coin(value as nat, serial@, blinding@),
{
    gen_gv().mul(&Scalar::from_u64(value)).add(&gen_h().mul(serial)).add(&gen_k().mul(blinding))
}

fn value_commitment_point(value: u64, blinding: &Scalar) -> (r: RistrettoPoint)
    ensures
        r@ == value_point(value as nat, blinding@),
{
    gen_gv().mul(&Scalar::from_u64(value)).add(&gen_k().mul(blinding))
}

/// A spend of a coin `v*Gv + s*H + r*K` that publishes a commitment to its value.
#[derive(Clone, Debug, PartialEq, Eq)]
pub struct SparkSpendProofV3 {
    /// The membership proof over the shifted set.
    pub one_of_many: GkOneOfManyProof,
    /// The revealed serial number.
    pub serial: [u8; 32],
    /// The published commitment to the value.
    pub value_commitment: [u8; 32],
    /// The message that the proof is bound to.
    pub message: [u8; 32],
}

/// What the context of a value-bound spend is the hash of.
pub open spec fn bound_context_input(
    serial: nat,
    value_commitment: Seq<u8>,
    message: Seq<u8>,
) -> Seq<u8> {
    bytes::tag("COINCYNC_SPARK_SPEND_V3_CTX_v1") + field::scalar_bytes(serial) + value_commitment
        + message
}

/// The context of a value-bound spend.
pub open spec fn bound_context_bytes(serial: nat, value_commitment: Seq<u8>, message: Seq<u8>) -> Seq<
    u8,
> {
    hashing::sha3_256(bound_context_input(serial, value_commitment, message))
}

fn spend_context_v3(serial: &Scalar, value_commitment: &[u8; 32], message: &[u8; 32]) -> (r: [u8;
    32])
    ensures
        r@ == bound_context_bytes(serial@, value_commitment@, message@),
{
    let mut input: Vec<u8> = Vec::new();
    append_tag(&mut input, "COINCYNC_SPARK_SPEND_V3_CTX_v1");
    append(&mut input, &serial.to_bytes());
    append(&mut input, value_commitment);
    append(&mut input, message);
    assert(input@ =~= bound_context_input(serial@, value_commitment@, message@));
    hashing::sha3_256_digest(input.as_slice())
}

/// The element that a value-bound spend takes out of every coin: `s*H + V`.
pub open spec fn bound_shift(serial: nat, v_point: nat) -> nat {
    field::plus(field::times(spark_generators::h_log(), serial), v_point)
}

/// Whether a value-bound spend can be read for this message: the message is the one that
/// it holds, the serial number is canonical, the value commitment decodes and is not
/// neutral.
pub open spec fn bound_readable(proof: SparkSpendProofV3, message: Seq<u8>) -> bool {
    &&& proof.message@ == message
    &&& field::le_nat(proof.serial@) < field::order()
    &&& peer_scalars::non_identity_fault(proof.value_commitment@) is None
}

/// Whether a value-bound spend holds for these coins and this message.
pub open spec fn bound_spend_valid(
    proof: SparkSpendProofV3,
    coins: Seq<nat>,
    message: Seq<u8>,
) -> bool {
    let serial = field::le_nat(proof.serial@);
    let v = group::ristretto_log(proof.value_commitment@)->0;
    &&& bound_readable(proof, message)
    &&& groth_kohlweiss::one_of_many_valid(
        proof.one_of_many,
        shifted(coins, bound_shift(serial, v)),
        bound_context_bytes(serial, proof.value_commitment@, message),
    )
}

/// What spending the coin at `l` with a commitment to its value gives, under these nonces.
pub open spec fn bound_spend_outcome(
    res: Result<SparkSpendProofV3>,
    c: Seq<nat>,
    l: int,
    value: u64,
    serial: nat,
    blinding: nat,
    value_blinding: nat,
    message: Seq<u8>,
    nonces: Seq<nat>,
) -> bool {
    let v = value_point(value as nat, value_blinding);
    match res {
        Ok(proof) => {
            &&& l < c.len()
            &&& c[l] == bound_coin(value as nat, serial, blinding)
            &&& groth_kohlweiss::prove_fault(c.len(), l) is None
            &&& proof.serial@ == field::scalar_bytes(serial)
            &&& group::encodes(proof.value_commitment@, v)
            &&& proof.message@ == message
            &&& groth_kohlweiss::is_one_of_many_proof(
                proof.one_of_many,
                shifted(c, bound_shift(serial, v)),
                l as nat,
                field::minus(blinding, value_blinding),
                bound_context_bytes(serial, proof.value_commitment@, message),
                nonces,
            )
            &&& v != 0 && groth_kohlweiss::all_points_usable(
                proof.one_of_many.cl@,
                proof.one_of_many.ca@,
                proof.one_of_many.cb@,
                proof.one_of_many.gk@,
            ) ==> bound_spend_valid(proof, c, message)
        },
        Err(e) => if l >= c.len() {
            error::is_crypto(e, "bound spend: index out of range"@)
        } else if c[l] != bound_coin(value as nat, serial, blinding) {
            error::is_crypto(
                e,
                "bound spend: opening (value, serial, blinding) does not match coins[l]"@,
            )
        } else {
            groth_kohlweiss::prove_fault(c.len(), l) matches Some(text) && error::is_crypto(e, text)
        },
    }
}

/// Spends the coin at `l`, which the spender can open, and publishes a commitment to its
/// value under a fresh blinding factor. The nonces are fresh random scalars, five for each
/// round.
pub fn prove_spend_bound(
    coins: &[RistrettoPoint],
    l: usize,
    value: u64,
    serial: &Scalar,
    blinding: &Scalar,
    value_blinding: &Scalar,
    message: &[u8; 32],
    nonces: &[Scalar],
) -> (res: Result<SparkSpendProofV3>)
    requires
        nonces@.len() >= 5 * gk_algebra::log2(coins@.len()),
    ensures
        bound_spend_outcome(
            res,
            group::logs(coins@),
            l as int,
            value,
            serial@,
            blinding@,
            value_blinding@,
            message@,
            group::values(nonces@),
        ),
{
    if l >= coins.len() {
        return Err(error::crypto("bound spend: index out of range"));
    }
    if !coins[l].equals(&bound_coin_commitment(value, serial, blinding)) {
        return Err(
            error::crypto("bound spend: opening (value, serial, blinding) does not match coins[l]"),
        );
    }
    let v_point = value_commitment_point(value, value_blinding);
    let v_bytes = v_point.compress();
    let shift = gen_h().mul(serial).add(&v_point);
    let set = shift_all(coins, &shift);
    let rho = blinding.sub(value_blinding);
    let ctx = spend_context_v3(serial, &v_bytes, message);
    let one_of_many = match prove_one_of_many_ctx(set.as_slice(), l, &rho, &ctx, nonces) {
        Ok(p) => p,
        Err(e) => {
            return Err(e);
        },
    };
    let proof = SparkSpendProofV3 {
        one_of_many,
        serial: serial.to_bytes(),
        value_commitment: v_bytes,
        message: *message,
    };
    proof {
        group::lemma_scalar_range(*serial);
        lemma_bound_opening(value as nat, serial@, blinding@, value_blinding@);
        assert(group::logs(set@)[l as int] == set@[l as int]@);
    }
    Ok(proof)
}

/// A coin less its serial part and a commitment to its value is a multiple of `K`.
proof fn lemma_bound_opening(v: nat, s: nat, r: nat, b: nat)
    ensures
        field::minus(bound_coin(v, s, r), bound_shift(s, value_point(v, b))) == field::times(
            spark_generators::k_log(),
            field::minus(r, b),
        ),
{
    broadcast use field::group_field;

    let p = (spark_generators::gv_log() * v) as int;
    let q = (spark_generators::h_log() * s) as int;
    let k = spark_generators::k_log();
    let x = (k * r) as int;
    let y = (k * b) as int;
    assert(bound_coin(v, s, r) == field::red(p + q + x));
    assert(value_point(v, b) == field::red(p + y));
    assert(bound_shift(s, value_point(v, b)) == field::red(q + (p + y)));
    assert(field::times(k, field::minus(r, b)) == field::red(k * (r - b)));
    assert(k * (r - b) == x - y) by (nonlinear_arith)
        requires
            x == k * r,
            y == k * b,
    ;
}

/// Checks a value-bound spend against the coins and the message, and gives back the bound
/// value commitment.
pub fn verify_spend_bound(
    coins: &[RistrettoPoint],
    proof: &SparkSpendProofV3,
    message: &[u8; 32],
) -> (r: Result<RistrettoPoint>)
    ensures
        ({
            let c = group::logs(coins@);
            let serial = field::le_nat(proof.serial@);
            let v = group::ristretto_log(proof.value_commitment@)->0;
            match r {
                Ok(p) => bound_spend_valid(*proof, c, message@) && p@ == v,
                Err(e) => if !bound_readable(*proof, message@) {
                    e is SparkVerifyFailed
                } else {
                    groth_kohlweiss::is_verify_error(
                        e,
                        proof.one_of_many,
                        shifted(c, bound_shift(serial, v)),
                        bound_context_bytes(serial, proof.value_commitment@, message@),
                    )
                },
            }
        }),
{
    if !bytes_equal(&proof.message, message) {
        return Err(Error::SparkVerifyFailed);
    }
    let serial = match PeerScalar::decode(proof.serial) {
        Ok(s) => s.into_scalar(),
        Err(_) => {
            return Err(Error::SparkVerifyFailed);
        },
    };
    let v_point = match PeerPoint::decode_non_identity(proof.value_commitment) {
        Ok(p) => p.into_point(),
        Err(_) => {
            return Err(Error::SparkVerifyFailed);
        },
    };
    let shift = gen_h().mul(&serial).add(&v_point);
    let set = shift_all(coins, &shift);
    let ctx = spend_context_v3(&serial, &proof.value_commitment, message);
    match verify_one_of_many_ctx(set.as_slice(), &proof.one_of_many, &ctx) {
        Ok(_) => Ok(v_point),
        Err(e) => Err(e),
    }
}

impl SparkSpendProofV3 {
    /// The double-spend tag: a hash of the revealed serial number alone.
    pub fn nullifier(&self) -> (r: [u8; 32])
        ensures
            r@ == nullifier_of(self.serial@),
    {
        serial_nullifier(&self.serial)
    }
}

// --- Spends that bind the value and hide the serial number ---------------------------------

/// A spend of a coin `v*Gv + h*H + r*K` that publishes a commitment to its value and hides
/// the coefficient of `H`.
#[derive(Clone, Debug, PartialEq, Eq)]
pub struct SparkSpendProofV4 {
    /// The membership proof over the shifted set.
    pub membership: GkOneOfManyHkProof,
    /// The published commitment to the value.
    pub value_commitment: [u8; 32],
    /// The message that the proof is bound to.
    pub message: [u8; 32],
}

/// What the context of a spend that hides its serial number is the hash of.
pub open spec fn hidden_context_input(value_commitment: Seq<u8>, message: Seq<u8>) -> Seq<u8> {
    bytes::tag("COINCYNC_SPARK_SPEND_V4_CTX_v1") + value_commitment + message
}

/// The context of a spend that hides its serial number.
pub open spec fn hidden_context_bytes(value_commitment: Seq<u8>, message: Seq<u8>) -> Seq<u8> {
    hashing::sha3_256(hidden_context_input(value_commitment, message))
}

fn spend_context_v4(value_commitment: &[u8; 32], message: &[u8; 32]) -> (r: [u8; 32])
    ensures
        r@ == hidden_context_bytes(value_commitment@, message@),
{
    let mut input: Vec<u8> = Vec::new();
    append_tag(&mut input, "COINCYNC_SPARK_SPEND_V4_CTX_v1");
    append(&mut input, value_commitment);
    append(&mut input, message);
    assert(input@ =~= hidden_context_input(value_commitment@, message@));
    hashing::sha3_256_digest(input.as_slice())
}

/// Whether a spend that hides its serial number holds for these coins and this message.
pub open spec fn hidden_spend_valid(
    proof: SparkSpendProofV4,
    coins: Seq<nat>,
    message: Seq<u8>,
) -> bool {
    let v = group::ristretto_log(proof.value_commitment@)->0;
    &&& proof.message@ == message
    &&& peer_scalars::non_identity_fault(proof.value_commitment@) is None
    &&& one_of_many_hk::membership_valid(
        proof.membership,
        shifted(coins, v),
        hidden_context_bytes(proof.value_commitment@, message),
    )
}

/// Spends the coin at `l`, which the spender can open, and publishes a commitment to its
/// value under a fresh blinding factor. The nonces are fresh random scalars, six for each
/// round.
pub fn prove_spend_value_hidden(
    coins: &[RistrettoPoint],
    l: usize,
    value: u64,
    h_coef: &Scalar,
    blinding: &Scalar,
    value_blinding: &Scalar,
    message: &[u8; 32],
    nonces: &[Scalar],
) -> (res: Result<SparkSpendProofV4>)
    requires
        nonces@.len() >= 6 * gk_algebra::log2(coins@.len()),
    ensures
        ({
            let c = group::logs(coins@);
            let v = value_point(value as nat, value_blinding@);
            match res {
                Ok(proof) => {
                    &&& l < coins@.len()
                    &&& coins@[l as int]@ == bound_coin(value as nat, h_coef@, blinding@)
                    &&& one_of_many_hk::prove_fault(coins@.len(), l as int) is None
                    &&& group::encodes(proof.value_commitment@, v)
                    &&& proof.message@ == message@
                    &&& one_of_many_hk::is_membership_proof(
                        proof.membership,
                        shifted(c, v),
                        l as nat,
                        h_coef@,
                        field::minus(blinding@, value_blinding@),
                        hidden_context_bytes(proof.value_commitment@, message@),
                        group::values(nonces@),
                    )
                    &&& v != 0 && groth_kohlweiss::all_points_usable(
                        proof.membership.cl@,
                        proof.membership.ca@,
                        proof.membership.cb@,
                        proof.membership.gk@,
                    ) ==> hidden_spend_valid(proof, c, message@)
                },
                Err(e) => if l >= coins@.len() {
                    error::is_crypto(e, "v4 spend: index out of range"@)
                } else if coins@[l as int]@ != bound_coin(value as nat, h_coef@, blinding@) {
                    error::is_crypto(e, "v4 spend: opening does not match coins[l]"@)
                } else {
                    one_of_many_hk::prove_fault(coins@.len(), l as int) matches Some(text)
                        && error::is_crypto(e, text)
                },
            }
        }),
{
    if l >= coins.len() {
        return Err(error::crypto("v4 spend: index out of range"));
    }
    if !coins[l].equals(&bound_coin_commitment(value, h_coef, blinding)) {
        return Err(error::crypto("v4 spend: opening does not match coins[l]"));
    }
    let v_point = value_commitment_point(value, value_blinding);
    let v_bytes = v_point.compress();
    let set = shift_all(coins, &v_point);
    let k_coef = blinding.sub(value_blinding);
    let ctx = spend_context_v4(&v_bytes, message);
    let membership = match prove_one_of_many_hk_ctx(
        set.as_slice(),
        l,
        h_coef,
        &k_coef,
        &ctx,
        nonces,
    ) {
        Ok(p) => p,
        Err(e) => {
            return Err(e);
        },
    };
    let proof = SparkSpendProofV4 { membership, value_commitment: v_bytes, message: *message };
    proof {
        lemma_hidden_opening(value as nat, h_coef@, blinding@, value_blinding@);
        assert(group::logs(set@)[l as int] == set@[l as int]@);
    }
    Ok(proof)
}

/// A coin less a commitment to its value is in the span of `H` and `K`.
proof fn lemma_hidden_opening(v: nat, h: nat, r: nat, b: nat)
    ensures
        field::minus(bound_coin(v, h, r), value_point(v, b)) == one_of_many_hk::in_span(
            h,
            field::minus(r, b),
        ),
{
    broadcast use field::group_field;

    let p = (spark_generators::gv_log() * v) as int;
    let q = (spark_generators::h_log() * h) as int;
    let k = spark_generators::k_log();
    let x = (k * r) as int;
    let y = (k * b) as int;
    assert(bound_coin(v, h, r) == field::red(p + q + x));
    assert(value_point(v, b) == field::red(p + y));
    assert(field::times(k, field::minus(r, b)) == field::red(k * (r - b)));
    assert(k * (r - b) == x - y) by (nonlinear_arith)
        requires
            x == k * r,
            y == k * b,
    ;
    assert(one_of_many_hk::in_span(h, field::minus(r, b)) == field::red(q + k * (r - b)));
}

/// Checks a spend that hides its serial number, and gives back the bound value commitment.
pub fn verify_spend_value_hidden(
    coins: &[RistrettoPoint],
    proof: &SparkSpendProofV4,
    message: &[u8; 32],
) -> (r: Result<RistrettoPoint>)
    ensures
        match r {
            Ok(p) => hidden_spend_valid(*proof, group::logs(coins@), message@) && Some(p@)
                == group::ristretto_log(proof.value_commitment@),
            Err(e) => e is SparkVerifyFailed && !hidden_spend_valid(
                *proof,
                group::logs(coins@),
                message@,
            ),
        },
{
    if !bytes_equal(&proof.message, message) {
        return Err(Error::SparkVerifyFailed);
    }
    let v_point = match PeerPoint::decode_non_identity(proof.value_commitment) {
        Ok(p) => p.into_point(),
        Err(_) => {
            return Err(Error::SparkVerifyFailed);
        },
    };
    let set = shift_all(coins, &v_point);
    let ctx = spend_context_v4(&proof.value_commitment, message);
    match verify_one_of_many_hk_ctx(set.as_slice(), &proof.membership, &ctx) {
        Ok(_) => Ok(v_point),
        Err(e) => Err(e),
    }
}

// --- Laws ----------------------------------------------------------------------------------

/// One coin gives one double-spend tag: two spends made for one serial number have the same
/// tag, whatever the anonymity sets, the places, the messages and the nonces.
pub proof fn law_nullifier_per_coin(
    a: SparkSpendProofV2,
    coins_a: Seq<nat>,
    l_a: int,
    blinding_a: nat,
    message_a: Seq<u8>,
    nonces_a: Seq<nat>,
    b: SparkSpendProofV2,
    coins_b: Seq<nat>,
    l_b: int,
    blinding_b: nat,
    message_b: Seq<u8>,
    nonces_b: Seq<nat>,
    serial: nat,
)
    requires
        spend_outcome(Ok(a), coins_a, l_a, serial, blinding_a, message_a, nonces_a),
        spend_outcome(Ok(b), coins_b, l_b, serial, blinding_b, message_b, nonces_b),
    ensures
        nullifier_of(a.serial@) == nullifier_of(b.serial@),
{
}

/// One coin gives one double-spend tag also where its value is bound.
pub proof fn law_bound_nullifier_per_coin(
    a: SparkSpendProofV3,
    coins_a: Seq<nat>,
    l_a: int,
    blinding_a: nat,
    value_blinding_a: nat,
    message_a: Seq<u8>,
    nonces_a: Seq<nat>,
    b: SparkSpendProofV3,
    coins_b: Seq<nat>,
    l_b: int,
    blinding_b: nat,
    value_blinding_b: nat,
    message_b: Seq<u8>,
    nonces_b: Seq<nat>,
    value_a: u64,
    value_b: u64,
    serial: nat,
)
    requires
        bound_spend_outcome(
            Ok(a),
            coins_a,
            l_a,
            value_a,
            serial,
            blinding_a,
            value_blinding_a,
            message_a,
            nonces_a,
        ),
        bound_spend_outcome(
            Ok(b),
            coins_b,
            l_b,
            value_b,
            serial,
            blinding_b,
            value_blinding_b,
            message_b,
            nonces_b,
        ),
    ensures
        nullifier_of(a.serial@) == nullifier_of(b.serial@),
{
}

/// A serial number cannot be written in two ways to get two tags: accepted spends that
/// reveal the same serial number, as numbers modulo the group order, have the same tag.
pub proof fn law_accepted_serial_has_one_nullifier(
    a: SparkSpendProofV2,
    coins_a: Seq<nat>,
    message_a: Seq<u8>,
    b: SparkSpendProofV2,
    coins_b: Seq<nat>,
    message_b: Seq<u8>,
)
    requires
        spend_valid(a, coins_a, message_a),
        spend_valid(b, coins_b, message_b),
        field::red(field::le_nat(a.serial@) as int) == field::red(field::le_nat(b.serial@) as int),
    ensures
        nullifier_of(a.serial@) == nullifier_of(b.serial@),
{
    field::lemma_red_small(field::le_nat(a.serial@));
    field::lemma_red_small(field::le_nat(b.serial@));
    field::lemma_le_bytes_of_nat(a.serial@);
    field::lemma_le_bytes_of_nat(b.serial@);
}

/// Two serial numbers that share a double-spend tag are the same, unless two different
/// strings have one SHA3-256 digest: a coin cannot be mistaken for another one as spent.
pub proof fn law_nullifier_binds_serial(a: Seq<u8>, b: Seq<u8>)
    requires
        a != b,
        nullifier_of(a) == nullifier_of(b),
    ensures
        ({
            let t = bytes::tag("COINCYNC_SPARK_NULLIFIER_v1");
            t + a != t + b && hashing::sha3_256(t + a) == hashing::sha3_256(t + b)
        }),
{
    let t = bytes::tag("COINCYNC_SPARK_NULLIFIER_v1");
    if t + a == t + b {
        bytes::lemma_same_heads(t, a, t, b);
    }
}

/// The context of a spend commits to the serial number and the message: where two that
/// differ share it, two different strings have one SHA3-256 digest.
pub proof fn law_spend_context_binds(serial1: nat, message1: Seq<u8>, serial2: nat, message2: Seq<u8>)
    requires
        serial1 < field::order(),
        serial2 < field::order(),
        serial1 != serial2 || message1 != message2,
        spend_context_bytes(serial1, message1) == spend_context_bytes(serial2, message2),
    ensures
        ({
            let left = spend_context_input(serial1, message1);
            let right = spend_context_input(serial2, message2);
            left != right && hashing::sha3_256(left) == hashing::sha3_256(right)
        }),
{
    let t = bytes::tag("COINCYNC_SPARK_SPEND_CTX_v1");
    let (s1, s2) = (field::scalar_bytes(serial1), field::scalar_bytes(serial2));
    field::lemma_scalar_bytes(serial1);
    field::lemma_scalar_bytes(serial2);
    if spend_context_input(serial1, message1) == spend_context_input(serial2, message2) {
        bytes::lemma_same_heads(t + s1, message1, t + s2, message2);
        bytes::lemma_same_heads(t, s1, t, s2);
    }
}

/// The context of a value-bound spend commits to the serial number, the value commitment and
/// the message: where two that differ share it, two different strings have one SHA3-256
/// digest.
pub proof fn law_bound_context_binds(
    serial1: nat,
    v1: Seq<u8>,
    message1: Seq<u8>,
    serial2: nat,
    v2: Seq<u8>,
    message2: Seq<u8>,
)
    requires
        serial1 < field::order(),
        serial2 < field::order(),
        v1.len() == v2.len(),
        serial1 != serial2 || v1 != v2 || message1 != message2,
        bound_context_bytes(serial1, v1, message1) == bound_context_bytes(serial2, v2, message2),
    ensures
        ({
            let left = bound_context_input(serial1, v1, message1);
            let right = bound_context_input(serial2, v2, message2);
            left != right && hashing::sha3_256(left) == hashing::sha3_256(right)
        }),
{
    let t = bytes::tag("COINCYNC_SPARK_SPEND_V3_CTX_v1");
    let (s1, s2) = (field::scalar_bytes(serial1), field::scalar_bytes(serial2));
    field::lemma_scalar_bytes(serial1);
    field::lemma_scalar_bytes(serial2);
    if bound_context_input(serial1, v1, message1) == bound_context_input(serial2, v2, message2) {
        bytes::lemma_same_heads(t + s1 + v1, message1, t + s2 + v2, message2);
        bytes::lemma_same_heads(t + s1, v1, t + s2, v2);
        bytes::lemma_same_heads(t, s1, t, s2);
    }
}

/// The context of a spend that hides its serial number commits to the value commitment and
/// the message: where two that differ share it, two different strings have one SHA3-256
/// digest.
pub proof fn law_hidden_context_binds(v1: Seq<u8>, message1: Seq<u8>, v2: Seq<u8>, message2: Seq<u8>)
    requires
        v1.len() == v2.len(),
        v1 != v2 || message1 != message2,
        hidden_context_bytes(v1, message1) == hidden_context_bytes(v2, message2),
    ensures
        ({
            let left = hidden_context_input(v1, message1);
            let right = hidden_context_input(v2, message2);
            left != right && hashing::sha3_256(left) == hashing::sha3_256(right)
        }),
{
    let t = bytes::tag("COINCYNC_SPARK_SPEND_V4_CTX_v1");
    if hidden_context_input(v1, message1) == hidden_context_input(v2, message2) {
        bytes::lemma_same_heads(t + v1, message1, t + v2, message2);
        bytes::lemma_same_heads(t, v1, t, v2);
    }
}

/// A spend holds for one message only.
pub proof fn law_spend_has_one_message(
    p: SparkSpendProofV2,
    c: Seq<nat>,
    message1: Seq<u8>,
    d: Seq<nat>,
    message2: Seq<u8>,
)
    requires
        spend_valid(p, c, message1),
        spend_valid(p, d, message2),
    ensures
        message1 == message2,
{
}

/// A value-bound spend holds for one message only.
pub proof fn law_bound_spend_has_one_message(
    p: SparkSpendProofV3,
    c: Seq<nat>,
    message1: Seq<u8>,
    d: Seq<nat>,
    message2: Seq<u8>,
)
    requires
        bound_spend_valid(p, c, message1),
        bound_spend_valid(p, d, message2),
    ensures
        message1 == message2,
{
}

/// A spend that hides its serial number holds for one message only.
pub proof fn law_hidden_spend_has_one_message(
    p: SparkSpendProofV4,
    c: Seq<nat>,
    message1: Seq<u8>,
    d: Seq<nat>,
    message2: Seq<u8>,
)
    requires
        hidden_spend_valid(p, c, message1),
        hidden_spend_valid(p, d, message2),
    ensures
        message1 == message2,
{
}

/// The one-out-of-many proofs of a list of spends.
pub open spec fn spend_proofs(spends: Seq<SparkSpendProofV2>) -> Seq<
    groth_kohlweiss::GkOneOfManyProof,
> {
    Seq::new(spends.len(), |t: int| spends[t].one_of_many)
}

/// The contexts of a list of spends of one serial number.
pub open spec fn spend_contexts(serial: nat, messages: Seq<Seq<u8>>) -> Seq<Seq<u8>> {
    Seq::new(
        messages.len(),
        |t: int| hashing::sha3_256(spend_context_input(serial, messages[t])),
    )
}

/// What acceptance of a spend proves. Take accepted spends of one serial number that share
/// the lower coefficients, whose digit responses answer their challenges by the bits of one
/// index, and weights that pick the leading coefficient out of a polynomial by its values
/// at the challenges. Then the coin at the index is `serial*G + r*K` for the weighted sum
/// `r` of the last responses: the serial number is that of a coin of the set.
pub proof fn law_accepted_spends_open_a_coin(
    spends: Seq<SparkSpendProofV2>,
    messages: Seq<Seq<u8>>,
    coins: Seq<nat>,
    serial: nat,
    own: nat,
    a: Seq<nat>,
    w: Seq<int>,
)
    requires
        spends.len() > 0,
        messages.len() == spends.len(),
        forall|t: int|
            0 <= t < spends.len() ==> spend_valid(#[trigger] spends[t], coins, messages[t])
                && field::le_nat(spends[t].serial@) == serial && spends[t].one_of_many.gk@
                == spends[0].one_of_many.gk@,
        forall|i: int|
            0 <= i < spends[0].one_of_many.gk@.len() ==> #[trigger] groth_kohlweiss::point_logs(
                spends[0].one_of_many.gk@,
            )[i] < field::order(),
        own < coins.len(),
        coins[own as int] < field::order(),
        a.len() == gk_algebra::log2(coins.len()),
        ({
            let xs = groth_kohlweiss::challenges(
                spend_proofs(spends),
                spend_contexts(serial, messages),
                shifted(coins, field::times(1, serial)),
            );
            &&& gk_algebra::picks_leading(w, xs, a.len())
            &&& forall|t: int, j: int|
                0 <= t < spends.len() && 0 <= j < a.len() ==> field::le_nat(
                    #[trigger] spends[t].one_of_many.f@[j]@,
                ) == field::red(gk_algebra::bit(own, j as nat) * xs[t] + a[j])
        }),
    ensures
        coins[own as int] == groth_kohlweiss::com(
            serial,
            field::red(
                gk_algebra::weighted(
                    w,
                    groth_kohlweiss::last_answers(spend_proofs(spends)),
                    spends.len(),
                ),
            ),
        ),
{
    let s = field::times(1, serial);
    let c = shifted(coins, s);
    let proofs = spend_proofs(spends);
    let contexts = spend_contexts(serial, messages);
    assert forall|t: int| 0 <= t < proofs.len() implies groth_kohlweiss::one_of_many_valid(
        #[trigger] proofs[t],
        c,
        contexts[t],
    ) && proofs[t].gk@ == proofs[0].gk@ by {
        assert(spend_valid(spends[t], coins, messages[t]));
        assert(spends[t].one_of_many.gk@ == spends[0].one_of_many.gk@);
    }
    assert forall|t: int, j: int| 0 <= t < proofs.len() && 0 <= j < a.len() implies field::le_nat(
        #[trigger] proofs[t].f@[j]@,
    ) == field::red(
        gk_algebra::bit(own, j as nat) * groth_kohlweiss::challenges(proofs, contexts, c)[t]
            + a[j],
    ) by {
        assert(field::le_nat(spends[t].one_of_many.f@[j]@) == field::le_nat(proofs[t].f@[j]@));
    }
    field::lemma_red_range(coins[own as int] - s);
    groth_kohlweiss::law_accepted_proofs_open_a_member(proofs, contexts, c, own, a, w);
    lemma_put_back(
        coins[own as int],
        s,
        field::times(
            spark_generators::k_log(),
            field::red(
                gk_algebra::weighted(w, groth_kohlweiss::last_answers(proofs), spends.len()),
            ),
        ),
    );
}

proof fn lemma_put_back(c: nat, s: nat, d: nat)
    requires
        c < field::order(),
        field::minus(c, s) == d,
    ensures
        c == field::plus(s, d),
{
    field::lemma_plus_right(s, c - s);
    field::lemma_red_small(c);
}

/// The one-out-of-many proofs of a list of value-bound spends.
pub open spec fn bound_proofs(spends: Seq<SparkSpendProofV3>) -> Seq<
    groth_kohlweiss::GkOneOfManyProof,
> {
    Seq::new(spends.len(), |t: int| spends[t].one_of_many)
}

/// The contexts of a list of value-bound spends of one serial number and one value
/// commitment.
pub open spec fn bound_contexts(
    serial: nat,
    value_commitment: Seq<u8>,
    messages: Seq<Seq<u8>>,
) -> Seq<Seq<u8>> {
    Seq::new(
        messages.len(),
        |t: int| hashing::sha3_256(bound_context_input(serial, value_commitment, messages[t])),
    )
}

/// What acceptance of a value-bound spend proves. As for a spend; the coin at the index is
/// then `serial*H + V + r*K` for the value commitment `V`: it has the serial number that was
/// published, and the value that `V` commits to.
pub proof fn law_accepted_bound_spends_open_a_coin(
    spends: Seq<SparkSpendProofV3>,
    messages: Seq<Seq<u8>>,
    coins: Seq<nat>,
    serial: nat,
    own: nat,
    a: Seq<nat>,
    w: Seq<int>,
)
    requires
        spends.len() > 0,
        messages.len() == spends.len(),
        forall|t: int|
            0 <= t < spends.len() ==> bound_spend_valid(#[trigger] spends[t], coins, messages[t])
                && field::le_nat(spends[t].serial@) == serial && spends[t].value_commitment@
                == spends[0].value_commitment@ && spends[t].one_of_many.gk@
                == spends[0].one_of_many.gk@,
        forall|i: int|
            0 <= i < spends[0].one_of_many.gk@.len() ==> #[trigger] groth_kohlweiss::point_logs(
                spends[0].one_of_many.gk@,
            )[i] < field::order(),
        own < coins.len(),
        coins[own as int] < field::order(),
        a.len() == gk_algebra::log2(coins.len()),
        ({
            let v = group::ristretto_log(spends[0].value_commitment@)->0;
            let xs = groth_kohlweiss::challenges(
                bound_proofs(spends),
                bound_contexts(serial, spends[0].value_commitment@, messages),
                shifted(
                    coins,
                    field::plus(field::times(spark_generators::h_log(), serial), v),
                ),
            );
            &&& gk_algebra::picks_leading(w, xs, a.len())
            &&& forall|t: int, j: int|
                0 <= t < spends.len() && 0 <= j < a.len() ==> field::le_nat(
                    #[trigger] spends[t].one_of_many.f@[j]@,
                ) == field::red(gk_algebra::bit(own, j as nat) * xs[t] + a[j])
        }),
    ensures
        coins[own as int] == field::plus(
            field::plus(
                field::times(spark_generators::h_log(), serial),
                group::ristretto_log(spends[0].value_commitment@)->0,
            ),
            field::times(
                spark_generators::k_log(),
                field::red(
                    gk_algebra::weighted(
                        w,
                        groth_kohlweiss::last_answers(bound_proofs(spends)),
                        spends.len(),
                    ),
                ),
            ),
        ),
{
    let v = group::ristretto_log(spends[0].value_commitment@)->0;
    let s = field::plus(field::times(spark_generators::h_log(), serial), v);
    let c = shifted(coins, s);
    let proofs = bound_proofs(spends);
    let contexts = bound_contexts(serial, spends[0].value_commitment@, messages);
    assert forall|t: int| 0 <= t < proofs.len() implies groth_kohlweiss::one_of_many_valid(
        #[trigger] proofs[t],
        c,
        contexts[t],
    ) && proofs[t].gk@ == proofs[0].gk@ by {
        assert(bound_spend_valid(spends[t], coins, messages[t]));
        assert(spends[t].one_of_many.gk@ == spends[0].one_of_many.gk@);
    }
    assert forall|t: int, j: int| 0 <= t < proofs.len() && 0 <= j < a.len() implies field::le_nat(
        #[trigger] proofs[t].f@[j]@,
    ) == field::red(
        gk_algebra::bit(own, j as nat) * groth_kohlweiss::challenges(proofs, contexts, c)[t]
            + a[j],
    ) by {
        assert(field::le_nat(spends[t].one_of_many.f@[j]@) == field::le_nat(proofs[t].f@[j]@));
    }
    field::lemma_red_range(coins[own as int] - s);
    groth_kohlweiss::law_accepted_proofs_open_a_member(proofs, contexts, c, own, a, w);
    lemma_put_back(
        coins[own as int],
        s,
        field::times(
            spark_generators::k_log(),
            field::red(
                gk_algebra::weighted(w, groth_kohlweiss::last_answers(proofs), spends.len()),
            ),
        ),
    );
}

/// The membership proofs of a list of spends that hide their serial number.
pub open spec fn hidden_proofs(spends: Seq<SparkSpendProofV4>) -> Seq<
    one_of_many_hk::GkOneOfManyHkProof,
> {
    Seq::new(spends.len(), |t: int| spends[t].membership)
}

/// The contexts of a list of spends that hide their serial number, of one value commitment.
pub open spec fn hidden_contexts(value_commitment: Seq<u8>, messages: Seq<Seq<u8>>) -> Seq<Seq<u8>> {
    Seq::new(
        messages.len(),
        |t: int| hashing::sha3_256(hidden_context_input(value_commitment, messages[t])),
    )
}

/// What acceptance of a spend that hides its serial number proves. As for a spend; the coin
/// at the index is then `V + s*H + r*K` for the value commitment `V` and the weighted sums
/// `s` and `r` of the last responses: it has the value that `V` commits to.
pub proof fn law_accepted_hidden_spends_open_a_coin(
    spends: Seq<SparkSpendProofV4>,
    messages: Seq<Seq<u8>>,
    coins: Seq<nat>,
    own: nat,
    a: Seq<nat>,
    w: Seq<int>,
)
    requires
        spends.len() > 0,
        messages.len() == spends.len(),
        forall|t: int|
            0 <= t < spends.len() ==> hidden_spend_valid(#[trigger] spends[t], coins, messages[t])
                && spends[t].value_commitment@ == spends[0].value_commitment@
                && spends[t].membership.gk@ == spends[0].membership.gk@,
        forall|i: int|
            0 <= i < spends[0].membership.gk@.len() ==> #[trigger] groth_kohlweiss::point_logs(
                spends[0].membership.gk@,
            )[i] < field::order(),
        own < coins.len(),
        coins[own as int] < field::order(),
        a.len() == gk_algebra::log2(coins.len()),
        ({
            let v = group::ristretto_log(spends[0].value_commitment@)->0;
            let xs = one_of_many_hk::challenges(
                hidden_proofs(spends),
                hidden_contexts(spends[0].value_commitment@, messages),
                shifted(coins, v),
            );
            &&& gk_algebra::picks_leading(w, xs, a.len())
            &&& forall|t: int, j: int|
                0 <= t < spends.len() && 0 <= j < a.len() ==> field::le_nat(
                    #[trigger] spends[t].membership.f@[j]@,
                ) == field::red(gk_algebra::bit(own, j as nat) * xs[t] + a[j])
        }),
    ensures
        coins[own as int] == field::plus(
            group::ristretto_log(spends[0].value_commitment@)->0,
            one_of_many_hk::in_span(
                field::red(
                    gk_algebra::weighted(
                        w,
                        one_of_many_hk::last_answers_h(hidden_proofs(spends)),
                        spends.len(),
                    ),
                ),
                field::red(
                    gk_algebra::weighted(
                        w,
                        one_of_many_hk::last_answers_k(hidden_proofs(spends)),
                        spends.len(),
                    ),
                ),
            ),
        ),
{
    let v = group::ristretto_log(spends[0].value_commitment@)->0;
    let c = shifted(coins, v);
    let proofs = hidden_proofs(spends);
    let contexts = hidden_contexts(spends[0].value_commitment@, messages);
    assert forall|t: int| 0 <= t < proofs.len() implies one_of_many_hk::membership_valid(
        #[trigger] proofs[t],
        c,
        contexts[t],
    ) && proofs[t].gk@ == proofs[0].gk@ by {
        assert(hidden_spend_valid(spends[t], coins, messages[t]));
        assert(spends[t].membership.gk@ == spends[0].membership.gk@);
    }
    assert forall|t: int, j: int| 0 <= t < proofs.len() && 0 <= j < a.len() implies field::le_nat(
        #[trigger] proofs[t].f@[j]@,
    ) == field::red(
        gk_algebra::bit(own, j as nat) * one_of_many_hk::challenges(proofs, contexts, c)[t]
            + a[j],
    ) by {
        assert(field::le_nat(spends[t].membership.f@[j]@) == field::le_nat(proofs[t].f@[j]@));
    }
    field::lemma_red_range(coins[own as int] - v);
    one_of_many_hk::law_accepted_proofs_open_a_member(proofs, contexts, c, own, a, w);
    lemma_put_back(
        coins[own as int],
        v,
        one_of_many_hk::in_span(
            field::red(
                gk_algebra::weighted(w, one_of_many_hk::last_answers_h(proofs), spends.len()),
            ),
            field::red(
                gk_algebra::weighted(w, one_of_many_hk::last_answers_k(proofs), spends.len()),
            ),
        ),
    );
}

/// With a value commitment `v*Gv + b*K`, the coin of a value-bound spend is
/// `v*Gv + serial*H + (b + r)*K`: the value that was published is the value of the coin.
pub proof fn law_bound_coin_holds_the_value(v: nat, serial: nat, b: nat, r: nat)
    ensures
        field::plus(
            field::plus(field::times(spark_generators::h_log(), serial), value_point(v, b)),
            field::times(spark_generators::k_log(), r),
        ) == bound_coin(v, serial, field::plus(b, r)),
{
    let g = spark_generators::gv_log() as int;
    let h = spark_generators::h_log() as int;
    let k = spark_generators::k_log() as int;
    field::lemma_add_red(g * v, k * b);
    field::lemma_add_red(h * serial, g * v + k * b);
    field::lemma_add_red(h * serial + (g * v + k * b), k * r);
    field::lemma_add_red(g * v, h * serial);
    field::lemma_times_right(k as nat, (b + r) as int);
    field::lemma_add_red(g * v + h * serial, k * (b + r));
    assert(k * (b + r) == k * b + k * r) by (nonlinear_arith);
}

/// Accepted value-bound spends of one serial number have one double-spend tag: the serial
/// number is accepted in canonical form only.
pub proof fn law_accepted_bound_serial_has_one_nullifier(
    a: SparkSpendProofV3,
    coins_a: Seq<nat>,
    message_a: Seq<u8>,
    b: SparkSpendProofV3,
    coins_b: Seq<nat>,
    message_b: Seq<u8>,
)
    requires
        bound_spend_valid(a, coins_a, message_a),
        bound_spend_valid(b, coins_b, message_b),
        field::red(field::le_nat(a.serial@) as int) == field::red(field::le_nat(b.serial@) as int),
    ensures
        nullifier_of(a.serial@) == nullifier_of(b.serial@),
        group::ristretto_log(a.value_commitment@) matches Some(k) && k != 0,
{
    field::lemma_red_small(field::le_nat(a.serial@));
    field::lemma_red_small(field::le_nat(b.serial@));
    field::lemma_same_number(a.serial@, b.serial@);
}

/// An accepted spend is no longer accepted once a response `za`, `zb` or `zd` of its
/// one-out-of-many proof is changed.
pub proof fn law_changed_spend_refused(
    p: SparkSpendProofV2,
    q: SparkSpendProofV2,
    c: Seq<nat>,
    message: Seq<u8>,
)
    requires
        spend_valid(p, c, message),
        p.serial@ == q.serial@,
        p.one_of_many.cl@ == q.one_of_many.cl@,
        p.one_of_many.ca@ == q.one_of_many.ca@,
        p.one_of_many.cb@ == q.one_of_many.cb@,
        p.one_of_many.gk@ == q.one_of_many.gk@,
        p.one_of_many.f@ == q.one_of_many.f@,
        p.one_of_many.za@ != q.one_of_many.za@ || p.one_of_many.zb@ != q.one_of_many.zb@
            || p.one_of_many.zd@ != q.one_of_many.zd@,
        field::unit(spark_generators::k_log()),
    ensures
        !spend_valid(q, c, message),
{
    let serial = field::le_nat(p.serial@);
    groth_kohlweiss::law_changed_answer_refused(
        p.one_of_many,
        q.one_of_many,
        shifted(c, field::times(1, serial)),
        spend_context_bytes(serial, message),
    );
}

/// An accepted value-bound spend is no longer accepted once a response `za`, `zb` or `zd` of
/// its one-out-of-many proof is changed.
pub proof fn law_changed_bound_spend_refused(
    p: SparkSpendProofV3,
    q: SparkSpendProofV3,
    coins: Seq<nat>,
    message: Seq<u8>,
)
    requires
        bound_spend_valid(p, coins, message),
        p.serial@ == q.serial@,
        p.value_commitment@ == q.value_commitment@,
        p.one_of_many.cl@ == q.one_of_many.cl@,
        p.one_of_many.ca@ == q.one_of_many.ca@,
        p.one_of_many.cb@ == q.one_of_many.cb@,
        p.one_of_many.gk@ == q.one_of_many.gk@,
        p.one_of_many.f@ == q.one_of_many.f@,
        p.one_of_many.za@ != q.one_of_many.za@ || p.one_of_many.zb@ != q.one_of_many.zb@
            || p.one_of_many.zd@ != q.one_of_many.zd@,
        field::unit(spark_generators::k_log()),
    ensures
        !bound_spend_valid(q, coins, message),
{
    let serial = field::le_nat(p.serial@);
    let v = group::ristretto_log(p.value_commitment@)->0;
    groth_kohlweiss::law_changed_answer_refused(
        p.one_of_many,
        q.one_of_many,
        shifted(coins, bound_shift(serial, v)),
        bound_context_bytes(serial, p.value_commitment@, message),
    );
}

/// An accepted spend that hides its serial number is no longer accepted once a response `za`
/// or `zb` of a round of its membership proof is changed.
pub proof fn law_changed_hidden_spend_refused(
    p: SparkSpendProofV4,
    q: SparkSpendProofV4,
    coins: Seq<nat>,
    message: Seq<u8>,
    j: int,
)
    requires
        hidden_spend_valid(p, coins, message),
        p.value_commitment@ == q.value_commitment@,
        p.membership.cl@ == q.membership.cl@,
        p.membership.ca@ == q.membership.ca@,
        p.membership.cb@ == q.membership.cb@,
        p.membership.gk@ == q.membership.gk@,
        p.membership.f@ == q.membership.f@,
        0 <= j < p.membership.cl@.len(),
        p.membership.za@[j] != q.membership.za@[j] || p.membership.zb@[j]
            != q.membership.zb@[j],
        field::unit(spark_generators::k_log()),
    ensures
        !hidden_spend_valid(q, coins, message),
{
    let v = group::ristretto_log(p.value_commitment@)->0;
    one_of_many_hk::law_changed_answer_refused(
        p.membership,
        q.membership,
        shifted(coins, v),
        hidden_context_bytes(p.value_commitment@, message),
        j,
    );
}

/// The string that a spend is checked over commits to its serial number: where one proof is
/// accepted under two serial numbers, the strings that its challenges are hashes of differ,
/// or two different contexts have one SHA3-256 digest.
pub proof fn law_spend_string_binds_serial(
    p: SparkSpendProofV2,
    q: SparkSpendProofV2,
    c: Seq<nat>,
    message: Seq<u8>,
)
    requires
        spend_valid(p, c, message),
        spend_valid(q, c, message),
        p.one_of_many == q.one_of_many,
        p.serial@ != q.serial@,
        group::all_encodable(),
        forall|i: int| 0 <= i < c.len() ==> #[trigger] c[i] < field::order(),
    ensures
        ({
            let (a, b) = (field::le_nat(p.serial@), field::le_nat(q.serial@));
            let o = p.one_of_many;
            let (s, t) = (spend_context_input(a, message), spend_context_input(b, message));
            ||| s != t && hashing::sha3_256(s) == hashing::sha3_256(t)
            ||| groth_kohlweiss::gk_input(
                hashing::sha3_256(s),
                shifted(c, field::times(1, a)),
                o.cl@,
                o.ca@,
                o.cb@,
                o.gk@,
            ) != groth_kohlweiss::gk_input(
                hashing::sha3_256(t),
                shifted(c, field::times(1, b)),
                o.cl@,
                o.ca@,
                o.cb@,
                o.gk@,
            )
        }),
{
    let (a, b) = (field::le_nat(p.serial@), field::le_nat(q.serial@));
    let o = p.one_of_many;
    if a == b {
        field::lemma_same_number(p.serial@, q.serial@);
    }
    let (x, y) = (spend_context_bytes(a, message), spend_context_bytes(b, message));
    let (u, v) = (shifted(c, field::times(1, a)), shifted(c, field::times(1, b)));
    if x == y {
        law_spend_context_binds(a, message, b, message);
    } else if groth_kohlweiss::gk_input(x, u, o.cl@, o.ca@, o.cb@, o.gk@)
        == groth_kohlweiss::gk_input(y, v, o.cl@, o.ca@, o.cb@, o.gk@) {
        broadcast use field::lemma_red_range;

        groth_kohlweiss::law_gk_input_injective(
            x,
            u,
            o.cl@,
            o.ca@,
            o.cb@,
            o.gk@,
            y,
            v,
            o.cl@,
            o.ca@,
            o.cb@,
            o.gk@,
        );
    }
}

} // verus!
