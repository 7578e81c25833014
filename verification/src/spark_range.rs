//! Range binding of shielded values.
//!
//! A shielded value commitment `V = v*Gv + b*K` gets its range bound from a commitment
//! `C = v*H + r*G` to the same value on the basis of the range proofs: a range proof for `C`,
//! and a proof on both bases with one shared response that `V` and `C` hide the same value.
use vstd::prelude::*;
use crate::bulletproofs;
use crate::bulletproofs::{
    create_range_proof, value_generator, verify_range_proof, BlindingFactor, PedersenCommitment,
    RangeProof,
};
use crate::bytes;
use crate::bytes::{append, append_tag, array_32};
use crate::curve;
use crate::error::{Error, Result};
use crate::field;
use crate::group;
use crate::group::{RistrettoPoint, Scalar};
use crate::hashing;
use crate::peer_scalars;
use crate::peer_scalars::{PeerPoint, PeerScalar};
use crate::primitives::Amount;
use crate::shielded_spend;
use crate::spark_generators;
use crate::spark_generators::{gen_gv, gen_k};
use crate::spend_wire;
use crate::spend_wire::wire_error;
use crate::wire;

verus! {

/// A proof that two commitments on different bases hide the same value.
#[derive(Clone, Copy, Debug, PartialEq, Eq)]
pub struct ValueEqualityProof {
    /// The nonce commitment on the shielded basis, encoded.
    pub r1: [u8; 32],
    /// The nonce commitment on the basis of the range proofs, encoded.
    pub r2: [u8; 32],
    /// The response for the value.
    pub zv: [u8; 32],
    /// The response for the shielded blinding.
    pub zb: [u8; 32],
    /// The response for the blinding of the other commitment.
    pub zr: [u8; 32],
}

impl ValueEqualityProof {
    /// The wire format: the five strings, one after the other.
    pub open spec fn wire(self) -> Seq<u8> {
        self.r1@ + self.r2@ + self.zv@ + self.zb@ + self.zr@
    }
}

/// The range binding of a shielded value.
#[derive(Clone, Debug, PartialEq, Eq)]
pub struct ShieldedRangeProof {
    /// The commitment `v*H + r*G`, encoded.
    pub c_range: [u8; 32],
    /// The range proof for that commitment.
    pub range: RangeProof,
    /// The proof that it hides the value of the shielded commitment.
    pub eq: ValueEqualityProof,
}

/// The parts that the wire format of a range binding holds: the commitment, the version
/// and the bytes of the range proof, and the five strings of the equality proof.
pub open spec fn parse_binding(b: Seq<u8>) -> Option<(Seq<u8>, u8, Seq<u8>, Seq<u8>)> {
    if b.len() < 33 {
        None
    } else {
        match wire::parse_bytes(b.skip(33)) {
            Some((data, rest)) => Some((b.take(32), b[32], data, rest)),
            None => None,
        }
    }
}

impl ShieldedRangeProof {
    /// The wire format.
    pub open spec fn wire(self) -> Seq<u8> {
        self.c_range@ + bulletproofs::proof_wire(self.range.version, self.range.data@)
            + self.eq.wire()
    }

    /// Writes the wire format.
    pub fn encode(&self) -> (r: Vec<u8>)
        requires
            self.range.data@.len() <= u32::MAX,
        ensures
            r@ == self.wire(),
    {
        let mut v: Vec<u8> = Vec::new();
        append(&mut v, &self.c_range);
        v.push(self.range.version);
        wire::append_bytes(&mut v, self.range.data.as_slice());
        append(&mut v, &self.eq.r1);
        append(&mut v, &self.eq.r2);
        append(&mut v, &self.eq.zv);
        append(&mut v, &self.eq.zb);
        append(&mut v, &self.eq.zr);
        assert(v@ =~= self.wire());
        v
    }

    /// Reads the wire format; a string that is too short or too long is refused.
    pub fn from_bytes(bytes: &[u8]) -> (r: Result<ShieldedRangeProof>)
        ensures
            match parse_binding(bytes@) {
                Some((c, version, data, rest)) => if rest.len() == 160 {
                    r matches Ok(p) && p.c_range@ == c && p.range.version == version
                        && p.range.data@ == data && p.eq.wire() == rest
                } else {
                    r matches Err(e) && spend_wire::is_wire_error(
                        e,
                        "ShieldedRangeProof"@,
                        rest.len() < 160,
                    )
                },
                None => r matches Err(e) && spend_wire::is_wire_error(
                    e,
                    "ShieldedRangeProof"@,
                    true,
                ),
            },
    {
        let n: usize = bytes.len();
        if n < 33 {
            return Err(wire_error("ShieldedRangeProof", true));
        }
        let c_range = array_32(bytes, 0);
        assert(c_range@ =~= bytes@.take(32));
        let tail = vstd::slice::slice_subrange(bytes, 33, n);
        assert(tail@ =~= bytes@.skip(33));
        match wire::read_bytes(tail) {
            None => Err(wire_error("ShieldedRangeProof", true)),
            Some((item, rest)) => {
                if rest.len() != 160 {
                    return Err(wire_error("ShieldedRangeProof", rest.len() < 160));
                }
                let mut data: Vec<u8> = Vec::new();
                append(&mut data, item);
                assert(data@ =~= item@);
                let eq = ValueEqualityProof {
                    r1: array_32(rest, 0),
                    r2: array_32(rest, 32),
                    zv: array_32(rest, 64),
                    zb: array_32(rest, 96),
                    zr: array_32(rest, 128),
                };
                assert(eq.wire() =~= rest@);
                Ok(ShieldedRangeProof { c_range, range: RangeProof { version: bytes[32], data }, eq })
            },
        }
    }
}

/// A range binding that was written is read back.
pub proof fn law_binding_round_trip(p: ShieldedRangeProof)
    requires
        p.range.data@.len() <= u32::MAX,
    ensures
        parse_binding(p.wire()) == Some(
            (p.c_range@, p.range.version, p.range.data@, p.eq.wire()),
        ),
        p.eq.wire().len() == 160,
{
    let b = p.wire();
    wire::law_bytes_round_trip(p.range.data@, p.eq.wire());
    assert(b.skip(33) =~= wire::bytes_wire(p.range.data@) + p.eq.wire());
    assert(b.take(32) =~= p.c_range@);
    assert(b[32] == p.range.version);
}

/// The wire format of an equality proof determines it.
pub proof fn law_equality_wire_injective(p: ValueEqualityProof, q: ValueEqualityProof)
    requires
        p.wire() == q.wire(),
    ensures
        p.r1@ == q.r1@,
        p.r2@ == q.r2@,
        p.zv@ == q.zv@,
        p.zb@ == q.zb@,
        p.zr@ == q.zr@,
{
    let w = p.wire();
    assert(p.r1@ =~= w.subrange(0, 32) && q.r1@ =~= w.subrange(0, 32));
    assert(p.r2@ =~= w.subrange(32, 64) && q.r2@ =~= w.subrange(32, 64));
    assert(p.zv@ =~= w.subrange(64, 96) && q.zv@ =~= w.subrange(64, 96));
    assert(p.zb@ =~= w.subrange(96, 128) && q.zb@ =~= w.subrange(96, 128));
    assert(p.zr@ =~= w.subrange(128, 160) && q.zr@ =~= w.subrange(128, 160));
}

/// What the challenge of an equality proof hashes.
pub open spec fn equality_input(v: nat, c: nat, r1: nat, r2: nat) -> Seq<u8> {
    bytes::tag("COINCYNC_SPARK_VALUE_EQ_FS_v1") + group::ristretto_encoding(v)
        + group::ristretto_encoding(c) + group::ristretto_encoding(r1)
        + group::ristretto_encoding(r2)
}

/// The challenge of an equality proof.
pub open spec fn eq_challenge_value(v: nat, c: nat, r1: nat, r2: nat) -> nat {
    field::red(field::le_nat(hashing::sha3_512(equality_input(v, c, r1, r2))) as int)
}

fn eq_challenge(
    v: &RistrettoPoint,
    c: &RistrettoPoint,
    r1: &RistrettoPoint,
    r2: &RistrettoPoint,
) -> (r: Scalar)
    ensures
        r@ == eq_challenge_value(v@, c@, r1@, r2@),
{
    let mut input: Vec<u8> = Vec::new();
    append_tag(&mut input, "COINCYNC_SPARK_VALUE_EQ_FS_v1");
    append(&mut input, &v.compress());
    append(&mut input, &c.compress());
    append(&mut input, &r1.compress());
    append(&mut input, &r2.compress());
    assert(input@ =~= equality_input(v@, c@, r1@, r2@));
    Scalar::from_bytes_mod_order_wide(&hashing::sha3_512_digest(input.as_slice()))
}

/// Whether `p` is the equality proof that the nonces `kv`, `kb`, `kr` give for a value and
/// its two blindings.
pub open spec fn is_equality_proof(
    p: ValueEqualityProof,
    value: nat,
    b: nat,
    r: nat,
    kv: nat,
    kb: nat,
    kr: nat,
) -> bool {
    let c = eq_challenge_value(
        shielded_spend::value_point(value, b),
        curve::pedersen(value, r),
        shielded_spend::value_point(kv, kb),
        curve::pedersen(kv, kr),
    );
    &&& group::encodes(p.r1@, shielded_spend::value_point(kv, kb))
    &&& group::encodes(p.r2@, curve::pedersen(kv, kr))
    &&& p.zv@ == field::scalar_bytes(field::plus(kv, field::times(c, value)))
    &&& p.zb@ == field::scalar_bytes(field::plus(kb, field::times(c, b)))
    &&& p.zr@ == field::scalar_bytes(field::plus(kr, field::times(c, r)))
}

/// Whether an equality proof holds for a shielded commitment `v` and a commitment `c`.
pub open spec fn equality_valid(v: nat, c: nat, p: ValueEqualityProof) -> bool {
    let r1 = group::ristretto_log(p.r1@)->0;
    let r2 = group::ristretto_log(p.r2@)->0;
    let zv = field::le_nat(p.zv@);
    let zb = field::le_nat(p.zb@);
    let zr = field::le_nat(p.zr@);
    let e = eq_challenge_value(v, c, r1, r2);
    &&& peer_scalars::non_identity_fault(p.r1@) is None
    &&& peer_scalars::non_identity_fault(p.r2@) is None
    &&& zv < field::order()
    &&& zb < field::order()
    &&& zr < field::order()
    &&& shielded_spend::value_point(zv, zb) == field::plus(r1, field::times(v, e))
    &&& curve::pedersen(zv, zr) == field::plus(r2, field::times(c, e))
}

/// Proves that `V = value*Gv + spark_blinding*K` and `C = value*H + bp_blinding*G` hide the
/// same value. The nonces are those for the value, for the shielded blinding and for the
/// other blinding.
pub fn prove_value_bridge(
    value: u64,
    spark_blinding: &Scalar,
    bp_blinding: &Scalar,
    nonces: &[Scalar; 3],
) -> (p: ValueEqualityProof)
    ensures
        is_equality_proof(
            p,
            value as nat,
            spark_blinding@,
            bp_blinding@,
            nonces@[0]@,
            nonces@[1]@,
            nonces@[2]@,
        ),
{
    prove_value_equality(value, spark_blinding, bp_blinding, nonces)
}

/// Checks a proof that `spark_v` and `bp_c` hide the same value.
pub fn verify_value_bridge(
    spark_v: &RistrettoPoint,
    bp_c: &RistrettoPoint,
    bridge: &ValueEqualityProof,
) -> (r: Result<()>)
    ensures
        r == if equality_valid(spark_v@, bp_c@, *bridge) {
            Ok::<(), Error>(())
        } else {
            Err(Error::SparkVerifyFailed)
        },
{
    verify_value_equality(spark_v, bp_c, bridge)
}

fn prove_value_equality(
    value: u64,
    v_blinding: &Scalar,
    range_blinding: &Scalar,
    nonces: &[Scalar; 3],
) -> (p: ValueEqualityProof)
    ensures
        is_equality_proof(
            p,
            value as nat,
            v_blinding@,
            range_blinding@,
            nonces@[0]@,
            nonces@[1]@,
            nonces@[2]@,
        ),
{
    let gv = gen_gv();
    let k = gen_k();
    let h = value_generator();
    let v = Scalar::from_u64(value);
    let v_point = gv.mul(&v).add(&k.mul(v_blinding));
    let c_point = h.mul(&v).add(&RistrettoPoint::mul_base(range_blinding));
    let kv = nonces[0];
    let kb = nonces[1];
    let kr = nonces[2];
    let r1 = gv.mul(&kv).add(&k.mul(&kb));
    let r2 = h.mul(&kv).add(&RistrettoPoint::mul_base(&kr));
    let c = eq_challenge(&v_point, &c_point, &r1, &r2);
    let zv = kv.add(&c.mul(&v));
    let zb = kb.add(&c.mul(v_blinding));
    let zr = kr.add(&c.mul(range_blinding));
    ValueEqualityProof {
        r1: r1.compress(),
        r2: r2.compress(),
        zv: zv.to_bytes(),
        zb: zb.to_bytes(),
        zr: zr.to_bytes(),
    }
}

fn verify_value_equality(
    v_point: &RistrettoPoint,
    c_point: &RistrettoPoint,
    eq: &ValueEqualityProof,
) -> (r: Result<()>)
    ensures
        r == if equality_valid(v_point@, c_point@, *eq) {
            Ok::<(), Error>(())
        } else {
            Err(Error::SparkVerifyFailed)
        },
{
    let gv = gen_gv();
    let k = gen_k();
    let h = value_generator();
    let r1 = match PeerPoint::decode_non_identity(eq.r1) {
        Ok(p) => p.into_point(),
        Err(_) => {
            return Err(Error::SparkVerifyFailed);
        },
    };
    let r2 = match PeerPoint::decode_non_identity(eq.r2) {
        Ok(p) => p.into_point(),
        Err(_) => {
            return Err(Error::SparkVerifyFailed);
        },
    };
    let zv = match PeerScalar::decode(eq.zv) {
        Ok(s) => s.into_scalar(),
        Err(_) => {
            return Err(Error::SparkVerifyFailed);
        },
    };
    let zb = match PeerScalar::decode(eq.zb) {
        Ok(s) => s.into_scalar(),
        Err(_) => {
            return Err(Error::SparkVerifyFailed);
        },
    };
    let zr = match PeerScalar::decode(eq.zr) {
        Ok(s) => s.into_scalar(),
        Err(_) => {
            return Err(Error::SparkVerifyFailed);
        },
    };
    let c = eq_challenge(v_point, c_point, &r1, &r2);
    if !gv.mul(&zv).add(&k.mul(&zb)).equals(&r1.add(&v_point.mul(&c))) {
        return Err(Error::SparkVerifyFailed);
    }
    if !h.mul(&zv).add(&RistrettoPoint::mul_base(&zr)).equals(&r2.add(&c_point.mul(&c))) {
        return Err(Error::SparkVerifyFailed);
    }
    Ok(())
}

/// An honest equality proof holds for the two commitments to its value, unless a nonce
/// commitment is the neutral element.
pub proof fn law_honest_equality_verifies(
    p: ValueEqualityProof,
    value: nat,
    b: nat,
    r: nat,
    kv: nat,
    kb: nat,
    kr: nat,
)
    requires
        is_equality_proof(p, value, b, r, kv, kb, kr),
        r < field::order(),
        kr < field::order(),
        shielded_spend::value_point(kv, kb) != 0,
        curve::pedersen(kv, kr) != 0,
    ensures
        equality_valid(shielded_spend::value_point(value, b), curve::pedersen(value, r), p),
{
    let gv = spark_generators::gv_log();
    let k = spark_generators::k_log();
    let h = curve::h_log();
    let c = eq_challenge_value(
        shielded_spend::value_point(value, b),
        curve::pedersen(value, r),
        shielded_spend::value_point(kv, kb),
        curve::pedersen(kv, kr),
    );
    field::lemma_plus_scalar_bytes(kv, field::times(c, value));
    field::lemma_plus_scalar_bytes(kb, field::times(c, b));
    field::lemma_plus_scalar_bytes(kr, field::times(c, r));
    field::lemma_response_pair(gv, k, kv, kb, c, value, b);
    field::lemma_response_pair(h, 1, kv, kr, c, value, r);
    field::lemma_red_small(kr);
    field::lemma_red_small(r);
    field::lemma_red_range((kr + field::times(c, r)) as int);
    field::lemma_red_small(field::plus(kr, field::times(c, r)));
}

/// Whether a range binding holds for a shielded commitment.
pub open spec fn binding_valid(v: nat, p: ShieldedRangeProof) -> bool {
    &&& bulletproofs::single_accepted(p.c_range@, p.range.version, p.range.data@)
    &&& equality_valid(v, group::ristretto_log(p.c_range@)->0, p.eq)
}

/// What binding a shielded value gives: the commitment under the blinding `r`, what the
/// prover returned for it, and the equality proof of the nonces.
pub open spec fn binding_made(
    res: Result<ShieldedRangeProof>,
    value: u64,
    v_blinding: nat,
    r: nat,
    seed: Seq<u8>,
    kv: nat,
    kb: nat,
    kr: nat,
) -> bool {
    match res {
        Ok(p) => {
            &&& group::encodes(p.c_range@, curve::pedersen(value as nat, r))
            &&& bulletproofs::made_single(Ok(p.range), Amount { atomic: value }, r, seed)
            &&& is_equality_proof(p.eq, value as nat, v_blinding, r, kv, kb, kr)
        },
        Err(e) => bulletproofs::made_single(Err(e), Amount { atomic: value }, r, seed),
    }
}

/// Binds the value of `V = value*Gv + v_blinding*K` to the range of 64 bits. The entropy
/// gives the blinding of the commitment on the other basis, the seed the randomness of the
/// range proof, and the nonces those of the equality proof.
pub fn prove_value_range(
    value: u64,
    v_blinding: &Scalar,
    entropy: &[u8; 64],
    seed: [u8; 32],
    nonces: &[Scalar; 3],
) -> (res: Result<ShieldedRangeProof>)
    ensures
        binding_made(
            res,
            value,
            v_blinding@,
            field::red(field::le_nat(entropy@) as int),
            seed@,
            nonces@[0]@,
            nonces@[1]@,
            nonces@[2]@,
        ),
{
    let range_bf = BlindingFactor::random(entropy);
    let c_commit = PedersenCommitment::commit(value, &range_bf);
    let range = match create_range_proof(Amount::from_atomic(value), &range_bf, seed) {
        Ok(range) => range,
        Err(e) => {
            return Err(e);
        },
    };
    let eq = prove_value_equality(value, v_blinding, range_bf.as_scalar(), nonces);
    Ok(ShieldedRangeProof { c_range: c_commit.to_bytes(), range, eq })
}

/// Checks the range binding of a shielded commitment.
pub fn verify_value_range(v_point: &RistrettoPoint, binding: &ShieldedRangeProof) -> (r: Result<()>)
    ensures
        r == if binding_valid(v_point@, *binding) {
            Ok::<(), Error>(())
        } else {
            Err(Error::SparkVerifyFailed)
        },
{
    let c_commit = match PedersenCommitment::from_bytes_checked(binding.c_range) {
        Some(c) => c,
        None => {
            return Err(Error::SparkVerifyFailed);
        },
    };
    if !verify_range_proof(&c_commit, &binding.range) {
        return Err(Error::SparkVerifyFailed);
    }
    let c_point = match RistrettoPoint::decompress(c_commit.as_point()) {
        Some(p) => p,
        None => {
            return Err(Error::SparkVerifyFailed);
        },
    };
    verify_value_equality(v_point, &c_point, &binding.eq)
}

/// An honest range binding holds for the shielded commitment to its value if the verifier
/// accepts its range proof, unless a nonce commitment is the neutral element.
pub proof fn law_honest_binding_verifies(
    p: ShieldedRangeProof,
    value: u64,
    b: nat,
    r: nat,
    seed: Seq<u8>,
    kv: nat,
    kb: nat,
    kr: nat,
)
    requires
        binding_made(Ok(p), value, b, r, seed, kv, kb, kr),
        r < field::order(),
        kr < field::order(),
        shielded_spend::value_point(kv, kb) != 0,
        curve::pedersen(kv, kr) != 0,
        bulletproofs::single_accepted(p.c_range@, p.range.version, p.range.data@),
    ensures
        binding_valid(shielded_spend::value_point(value as nat, b), p),
{
    law_honest_equality_verifies(p.eq, value as nat, b, r, kv, kb, kr);
}

/// Carries a range guarantee from one kind of commitment onto a shielded commitment.
pub trait RangeTranslator {
    /// Makes the range binding of a shielded value.
    fn translate(
        &self,
        value: u64,
        spark_blinding: &Scalar,
        entropy: &[u8; 64],
        seed: [u8; 32],
        nonces: &[Scalar; 3],
    ) -> (res: Result<ShieldedRangeProof>)
        ensures
            binding_made(
                res,
                value,
                spark_blinding@,
                field::red(field::le_nat(entropy@) as int),
                seed@,
                nonces@[0]@,
                nonces@[1]@,
                nonces@[2]@,
            ),
    ;

    /// Checks the range binding of a shielded commitment.
    fn verify(&self, spark_v: &RistrettoPoint, binding: &ShieldedRangeProof) -> (r: Result<()>)
        ensures
            r == if binding_valid(spark_v@, *binding) {
                Ok::<(), Error>(())
            } else {
                Err(Error::SparkVerifyFailed)
            },
    ;
}

/// The translator from range proofs to shielded commitments.
pub struct BulletproofSparkBridge;

impl RangeTranslator for BulletproofSparkBridge {
    fn translate(
        &self,
        value: u64,
        spark_blinding: &Scalar,
        entropy: &[u8; 64],
        seed: [u8; 32],
        nonces: &[Scalar; 3],
    ) -> (res: Result<ShieldedRangeProof>) {
        prove_value_range(value, spark_blinding, entropy, seed, nonces)
    }

    fn verify(&self, spark_v: &RistrettoPoint, binding: &ShieldedRangeProof) -> (r: Result<()>) {
        verify_value_range(spark_v, binding)
    }
}

/// A bridge between commitments `v*H + r*G` and shielded commitments `v*Gv + b*K`.
pub trait CommitmentBridge {
    /// The name of the boundary that the bridge spans.
    fn boundary(&self) -> &'static str;

    /// Proves that the two commitments to a value hide the same value.
    fn prove(
        &self,
        value: u64,
        monero_blinding: &Scalar,
        spark_blinding: &Scalar,
        nonces: &[Scalar; 3],
    ) -> (p: ValueEqualityProof)
        ensures
            is_equality_proof(
                p,
                value as nat,
                spark_blinding@,
                monero_blinding@,
                nonces@[0]@,
                nonces@[1]@,
                nonces@[2]@,
            ),
    {
        prove_value_bridge(value, spark_blinding, monero_blinding, nonces)
    }

    /// Checks that two commitments hide the same value.
    fn verify(
        &self,
        monero_c: &RistrettoPoint,
        spark_v: &RistrettoPoint,
        bridge: &ValueEqualityProof,
    ) -> (r: Result<()>)
        ensures
            r == if equality_valid(spark_v@, monero_c@, *bridge) {
                Ok::<(), Error>(())
            } else {
                Err(Error::SparkVerifyFailed)
            },
    {
        verify_value_bridge(spark_v, monero_c, bridge)
    }
}

/// The boundary between the transparent pool and the shielded pool.
pub struct TransparentBridge;

impl CommitmentBridge for TransparentBridge {
    fn boundary(&self) -> (r: &'static str)
        ensures
            r@ == "transparent<->shielded"@,
    {
        "transparent<->shielded"
    }
}

/// The boundary between cut-through kernels and the shielded pool.
pub struct KernelBridge;

impl CommitmentBridge for KernelBridge {
    fn boundary(&self) -> (r: &'static str)
        ensures
            r@ == "mw-kernel<->shielded"@,
    {
        "mw-kernel<->shielded"
    }
}

/// What the challenge of an equality proof hashes determines both commitments and both nonce
/// commitments.
pub proof fn law_equality_input_injective(
    a1: nat,
    b1: nat,
    c1: nat,
    d1: nat,
    a2: nat,
    b2: nat,
    c2: nat,
    d2: nat,
)
    requires
        group::encodable(a1) && group::encodable(b1) && group::encodable(c1) && group::encodable(
            d1,
        ),
        group::encodable(a2) && group::encodable(b2) && group::encodable(c2) && group::encodable(
            d2,
        ),
        equality_input(a1, b1, c1, d1) == equality_input(a2, b2, c2, d2),
    ensures
        a1 == a2,
        b1 == b2,
        c1 == c2,
        d1 == d2,
{
    let t = bytes::tag("COINCYNC_SPARK_VALUE_EQ_FS_v1");
    let (ea, fa) = (group::ristretto_encoding(a1), group::ristretto_encoding(a2));
    let (eb, fb) = (group::ristretto_encoding(b1), group::ristretto_encoding(b2));
    let (ec, fc) = (group::ristretto_encoding(c1), group::ristretto_encoding(c2));
    let (ed, fd) = (group::ristretto_encoding(d1), group::ristretto_encoding(d2));
    bytes::lemma_same_tails(t + ea + eb + ec, ed, t + fa + fb + fc, fd);
    bytes::lemma_same_tails(t + ea + eb, ec, t + fa + fb, fc);
    bytes::lemma_same_tails(t + ea, eb, t + fa, fb);
    bytes::lemma_same_tails(t, ea, t, fa);
}

/// The challenge of an equality proof commits to both commitments and both nonce commitments:
/// where two statements that differ share it, two different strings hash to one scalar.
pub proof fn law_equality_challenge_binds(
    a1: nat,
    b1: nat,
    c1: nat,
    d1: nat,
    a2: nat,
    b2: nat,
    c2: nat,
    d2: nat,
)
    requires
        group::encodable(a1) && group::encodable(b1) && group::encodable(c1) && group::encodable(
            d1,
        ),
        group::encodable(a2) && group::encodable(b2) && group::encodable(c2) && group::encodable(
            d2,
        ),
        a1 != a2 || b1 != b2 || c1 != c2 || d1 != d2,
        eq_challenge_value(a1, b1, c1, d1) == eq_challenge_value(a2, b2, c2, d2),
    ensures
        ({
            let left = equality_input(a1, b1, c1, d1);
            let right = equality_input(a2, b2, c2, d2);
            &&& left != right
            &&& field::red(field::le_nat(hashing::sha3_512(left)) as int) == field::red(
                field::le_nat(hashing::sha3_512(right)) as int,
            )
        }),
{
    if equality_input(a1, b1, c1, d1) == equality_input(a2, b2, c2, d2) {
        law_equality_input_injective(a1, b1, c1, d1, a2, b2, c2, d2);
    }
}

/// An accepted equality proof answers for one value in both commitments. With
/// `V = v1*Gv + b*K`, `C = v2*H + r*G` and nonce commitments of the same forms, `zv` is
/// `k1 + e*v1` up to a relation between `Gv` and `K`, and `k2 + e*v2` up to a relation
/// between `H` and `G`. Here `e` is the hash of the string of the proof.
pub proof fn law_accepted_equality_answers_for_one_value(
    v1: nat,
    b: nat,
    k1: nat,
    kb: nat,
    v2: nat,
    r: nat,
    k2: nat,
    kr: nat,
    p: ValueEqualityProof,
)
    requires
        equality_valid(shielded_spend::value_point(v1, b), curve::pedersen(v2, r), p),
        group::ristretto_log(p.r1@) == Some(shielded_spend::value_point(k1, kb)),
        group::ristretto_log(p.r2@) == Some(curve::pedersen(k2, kr)),
    ensures
        ({
            let e = field::red(
                field::le_nat(
                    hashing::sha3_512(
                        equality_input(
                            shielded_spend::value_point(v1, b),
                            curve::pedersen(v2, r),
                            shielded_spend::value_point(k1, kb),
                            curve::pedersen(k2, kr),
                        ),
                    ),
                ) as int,
            );
            let zv = field::le_nat(p.zv@);
            &&& field::times(
                spark_generators::gv_log(),
                field::minus(zv, field::plus(k1, field::times(e, v1))),
            ) == field::times(
                spark_generators::k_log(),
                field::minus(field::plus(kb, field::times(e, b)), field::le_nat(p.zb@)),
            )
            &&& field::times(
                curve::h_log(),
                field::minus(zv, field::plus(k2, field::times(e, v2))),
            ) == field::times(
                1,
                field::minus(field::plus(kr, field::times(e, r)), field::le_nat(p.zr@)),
            )
        }),
{
    let v = shielded_spend::value_point(v1, b);
    let c = curve::pedersen(v2, r);
    let e = eq_challenge_value(
        v,
        c,
        shielded_spend::value_point(k1, kb),
        curve::pedersen(k2, kr),
    );
    let (zv, zb, zr) = (field::le_nat(p.zv@), field::le_nat(p.zb@), field::le_nat(p.zr@));
    let (g, k, h) = (spark_generators::gv_log(), spark_generators::k_log(), curve::h_log());
    field::lemma_response_pair(g, k, k1, kb, e, v1, b);
    field::lemma_pair_apart(
        g,
        k,
        zv,
        zb,
        field::plus(k1, field::times(e, v1)),
        field::plus(kb, field::times(e, b)),
    );
    field::lemma_response_pair(h, 1, k2, kr, e, v2, r);
    let y = field::plus(kr, field::times(e, r));
    field::lemma_plus_right(field::times(h, zv), zr as int);
    field::lemma_plus_right(field::times(h, k2), kr as int);
    field::lemma_plus_right(field::times(h, v2), r as int);
    assert(field::plus(field::times(h, zv), field::times(1, zr)) == curve::pedersen(zv, zr));
    assert(field::plus(field::times(h, k2), field::times(1, kr)) == curve::pedersen(k2, kr));
    assert(field::plus(field::times(h, v2), field::times(1, r)) == curve::pedersen(v2, r));
    field::lemma_pair_apart(h, 1, zv, zr, field::plus(k2, field::times(e, v2)), y);
}

/// An accepted equality proof is refused once one of its responses is changed and the others
/// are kept.
pub proof fn law_changed_equality_refused(
    v: nat,
    c: nat,
    p: ValueEqualityProof,
    q: ValueEqualityProof,
)
    requires
        equality_valid(v, c, p),
        p.r1@ == q.r1@,
        p.r2@ == q.r2@,
        (p.zv@ != q.zv@ && p.zb@ == q.zb@) || (p.zv@ != q.zv@ && p.zr@ == q.zr@) || (p.zv@
            == q.zv@ && p.zb@ != q.zb@) || (p.zv@ == q.zv@ && p.zr@ != q.zr@),
        field::unit(spark_generators::gv_log()),
        field::unit(spark_generators::k_log()),
        field::unit(curve::h_log()),
    ensures
        !equality_valid(v, c, q),
{
    if equality_valid(v, c, q) {
        let (g, k, h) = (spark_generators::gv_log(), spark_generators::k_log(), curve::h_log());
        broadcast use field::lemma_red_range;

        let (v1, v2) = (field::le_nat(p.zv@), field::le_nat(q.zv@));
        let (b1, b2) = (field::le_nat(p.zb@), field::le_nat(q.zb@));
        let (r1, r2) = (field::le_nat(p.zr@), field::le_nat(q.zr@));
        if p.zv@ == q.zv@ {
            field::lemma_cancel_term(field::times(g, v1), field::times(k, b1), field::times(k, b2));
            field::lemma_cancel(k, b1, b2);
            field::lemma_cancel_term(field::times(h, v1), r1, r2);
            field::lemma_same_number(p.zb@, q.zb@);
            field::lemma_same_number(p.zr@, q.zr@);
        } else if p.zb@ == q.zb@ {
            field::lemma_pair_first(g, k, v1, v2, b1);
            field::lemma_same_number(p.zv@, q.zv@);
        } else {
            assert(curve::pedersen(v1, r1) == field::plus(r1, field::times(h, v1)));
            assert(curve::pedersen(v2, r1) == field::plus(r1, field::times(h, v2)));
            field::lemma_cancel_term(r1, field::times(h, v1), field::times(h, v2));
            field::lemma_cancel(h, v1, v2);
            field::lemma_same_number(p.zv@, q.zv@);
        }
    }
}

/// An accepted range binding holds a range proof that is accepted for the commitment inside,
/// and an equality proof that is accepted between the two commitments.
pub proof fn law_accepted_binding_is_in_range(v: nat, p: ShieldedRangeProof)
    requires
        binding_valid(v, p),
    ensures
        bulletproofs::single_accepted(p.c_range@, p.range.version, p.range.data@),
        equality_valid(v, group::ristretto_log(p.c_range@)->0, p.eq),
{
}

/// An accepted equality proof is in canonical form: both nonce commitments are encodings of
/// elements that are not neutral, and every response is below the order.
pub proof fn law_accepted_equality_is_canonical(v: nat, c: nat, p: ValueEqualityProof)
    requires
        equality_valid(v, c, p),
    ensures
        group::ristretto_log(p.r1@) matches Some(k) && k != 0,
        group::ristretto_log(p.r2@) matches Some(k) && k != 0,
        field::le_nat(p.zv@) < field::order(),
        field::le_nat(p.zb@) < field::order(),
        field::le_nat(p.zr@) < field::order(),
{
}

} // verus!
