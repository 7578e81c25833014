//! Proofs that a minted coin and a published value commitment hold the same value.
use vstd::prelude::*;
use crate::bytes;
use crate::bytes::{append, append_tag, array_32};
use crate::error::{Error, Result};
use crate::field;
use crate::group;
use crate::group::{RistrettoPoint, Scalar};
use crate::hashing;
use crate::peer_scalars;
use crate::peer_scalars::{PeerPoint, PeerScalar};
use crate::shielded_spend;
use crate::shielded_spend::bound_coin_commitment;
use crate::spark_generators;
use crate::spark_generators::{gen_gv, gen_h, gen_k};
use crate::spend_wire;
use crate::spend_wire::wire_error;

verus! {

/// A proof that `C = v*Gv + s*H + r*K` and `V = v*Gv + b*K` hold the same value. Both
/// equations share the response for the value.
#[derive(Clone, Copy, Debug, PartialEq, Eq)]
pub struct MintBindingProof {
    pub r1: [u8; 32],
    pub r2: [u8; 32],
    pub zv: [u8; 32],
    pub zs: [u8; 32],
    pub zr: [u8; 32],
    pub zb: [u8; 32],
}

/// What the challenge of a mint binding hashes.
pub open spec fn mint_input(c_out: nat, v_out: nat, r1: nat, r2: nat) -> Seq<u8> {
    bytes::tag("COINCYNC_SPARK_MINT_BIND_FS_v1") + group::ristretto_encoding(c_out)
        + group::ristretto_encoding(v_out) + group::ristretto_encoding(r1)
        + group::ristretto_encoding(r2)
}

/// The challenge of a mint binding.
pub open spec fn mint_challenge_value(c_out: nat, v_out: nat, r1: nat, r2: nat) -> nat {
    field::red(field::le_nat(hashing::sha3_512(mint_input(c_out, v_out, r1, r2))) as int)
}

fn mint_challenge(
    c_out: &RistrettoPoint,
    v_out: &RistrettoPoint,
    r1: &RistrettoPoint,
    r2: &RistrettoPoint,
) -> (r: Scalar)
    ensures
        r@ == mint_challenge_value(c_out@, v_out@, r1@, r2@),
{
    let mut input: Vec<u8> = Vec::new();
    append_tag(&mut input, "COINCYNC_SPARK_MINT_BIND_FS_v1");
    append(&mut input, &c_out.compress());
    append(&mut input, &v_out.compress());
    append(&mut input, &r1.compress());
    append(&mut input, &r2.compress());
    assert(input@ =~= mint_input(c_out@, v_out@, r1@, r2@));
    Scalar::from_bytes_mod_order_wide(&hashing::sha3_512_digest(input.as_slice()))
}

/// Whether a mint binding holds for a coin and a value commitment.
pub open spec fn binding_valid(c_out: nat, v_out: nat, p: MintBindingProof) -> bool {
    let r1 = group::ristretto_log(p.r1@)->0;
    let r2 = group::ristretto_log(p.r2@)->0;
    let zv = field::le_nat(p.zv@);
    let zs = field::le_nat(p.zs@);
    let zr = field::le_nat(p.zr@);
    let zb = field::le_nat(p.zb@);
    let c = mint_challenge_value(c_out, v_out, r1, r2);
    &&& peer_scalars::non_identity_fault(p.r1@) is None
    &&& peer_scalars::non_identity_fault(p.r2@) is None
    &&& zv < field::order()
    &&& zs < field::order()
    &&& zr < field::order()
    &&& zb < field::order()
    &&& shielded_spend::bound_coin(zv, zs, zr) == field::plus(r1, field::times(c_out, c))
    &&& shielded_spend::value_point(zv, zb) == field::plus(r2, field::times(v_out, c))
}

/// Whether `p` is the binding that these nonces give for an opening.
pub open spec fn is_binding(
    p: MintBindingProof,
    value: nat,
    serial: nat,
    coin_blinding: nat,
    value_blinding: nat,
    nonces: Seq<nat>,
) -> bool {
    let c_out = shielded_spend::bound_coin(value, serial, coin_blinding);
    let v_out = shielded_spend::value_point(value, value_blinding);
    let r1 = shielded_spend::bound_coin(nonces[0], nonces[1], nonces[2]);
    let r2 = shielded_spend::value_point(nonces[0], nonces[3]);
    let c = mint_challenge_value(c_out, v_out, r1, r2);
    &&& group::encodes(p.r1@, r1)
    &&& group::encodes(p.r2@, r2)
    &&& p.zv@ == field::scalar_bytes(field::plus(nonces[0], field::times(c, value)))
    &&& p.zs@ == field::scalar_bytes(field::plus(nonces[1], field::times(c, serial)))
    &&& p.zr@ == field::scalar_bytes(field::plus(nonces[2], field::times(c, coin_blinding)))
    &&& p.zb@ == field::scalar_bytes(field::plus(nonces[3], field::times(c, value_blinding)))
}

/// Proves that the coin and the value commitment of an opening hold the same value. The
/// nonces are fresh random scalars: for the value, the serial number, the blinding of the
/// coin and the blinding of the value commitment.
pub fn prove_mint_binding(
    value: u64,
    serial: &Scalar,
    coin_blinding: &Scalar,
    value_blinding: &Scalar,
    nonces: &[Scalar; 4],
) -> (p: MintBindingProof)
    ensures
        is_binding(
            p,
            value as nat,
            serial@,
            coin_blinding@,
            value_blinding@,
            group::values(nonces@),
        ),
        shielded_spend::bound_coin(nonces@[0]@, nonces@[1]@, nonces@[2]@) != 0
            && shielded_spend::value_point(nonces@[0]@, nonces@[3]@) != 0 ==> binding_valid(
            shielded_spend::bound_coin(value as nat, serial@, coin_blinding@),
            shielded_spend::value_point(value as nat, value_blinding@),
            p,
        ),
{
    let gv = gen_gv();
    let h = gen_h();
    let k = gen_k();
    let v = Scalar::from_u64(value);
    let c_out = bound_coin_commitment(value, serial, coin_blinding);
    let v_out = gv.mul(&v).add(&k.mul(value_blinding));
    let r1 = gv.mul(&nonces[0]).add(&h.mul(&nonces[1])).add(&k.mul(&nonces[2]));
    let r2 = gv.mul(&nonces[0]).add(&k.mul(&nonces[3]));
    let c = mint_challenge(&c_out, &v_out, &r1, &r2);
    let p = MintBindingProof {
        r1: r1.compress(),
        r2: r2.compress(),
        zv: nonces[0].add(&c.mul(&v)).to_bytes(),
        zs: nonces[1].add(&c.mul(serial)).to_bytes(),
        zr: nonces[2].add(&c.mul(coin_blinding)).to_bytes(),
        zb: nonces[3].add(&c.mul(value_blinding)).to_bytes(),
    };
    proof {
        group::lemma_values_range(nonces@);
        if r1@ != 0 && r2@ != 0 {
            law_honest_binding_verifies(
                p,
                value as nat,
                serial@,
                coin_blinding@,
                value_blinding@,
                group::values(nonces@),
            );
        }
    }
    p
}

/// Checks a mint binding.
pub fn verify_mint_binding(
    c_out: &RistrettoPoint,
    v_out: &RistrettoPoint,
    proof: &MintBindingProof,
) -> (r: Result<()>)
    ensures
        match r {
            Ok(_) => binding_valid(c_out@, v_out@, *proof),
            Err(e) => e is SparkVerifyFailed && !binding_valid(c_out@, v_out@, *proof),
        },
{
    let (r1, r2) = match (
        PeerPoint::decode_non_identity(proof.r1),
        PeerPoint::decode_non_identity(proof.r2),
    ) {
        (Ok(a), Ok(b)) => (a.into_point(), b.into_point()),
        _ => {
            return Err(Error::SparkVerifyFailed);
        },
    };
    let (zv, zs, zr, zb) = match (
        PeerScalar::decode(proof.zv),
        PeerScalar::decode(proof.zs),
        PeerScalar::decode(proof.zr),
        PeerScalar::decode(proof.zb),
    ) {
        (Ok(a), Ok(b), Ok(c), Ok(d)) => (
            a.into_scalar(),
            b.into_scalar(),
            c.into_scalar(),
            d.into_scalar(),
        ),
        _ => {
            return Err(Error::SparkVerifyFailed);
        },
    };
    let gv = gen_gv();
    let h = gen_h();
    let k = gen_k();
    let c = mint_challenge(c_out, v_out, &r1, &r2);
    let left = gv.mul(&zv).add(&h.mul(&zs)).add(&k.mul(&zr));
    if !left.equals(&r1.add(&c_out.mul(&c))) {
        return Err(Error::SparkVerifyFailed);
    }
    let left2 = gv.mul(&zv).add(&k.mul(&zb));
    if !left2.equals(&r2.add(&v_out.mul(&c))) {
        return Err(Error::SparkVerifyFailed);
    }
    Ok(())
}

impl MintBindingProof {
    /// The wire format: the six strings, one after the other.
    pub open spec fn wire(self) -> Seq<u8> {
        self.r1@ + self.r2@ + self.zv@ + self.zs@ + self.zr@ + self.zb@
    }

    /// Writes the wire format.
    pub fn encode(&self) -> (r: Vec<u8>)
        ensures
            r@ == self.wire(),
            r@.len() == 192,
    {
        let mut v: Vec<u8> = Vec::new();
        append(&mut v, &self.r1);
        append(&mut v, &self.r2);
        append(&mut v, &self.zv);
        append(&mut v, &self.zs);
        append(&mut v, &self.zr);
        append(&mut v, &self.zb);
        assert(v@ =~= self.wire());
        v
    }

    /// Reads the wire format: exactly 192 bytes.
    pub fn from_bytes(bytes: &[u8]) -> (r: Result<MintBindingProof>)
        ensures
            match r {
                Ok(p) => bytes@ == p.wire(),
                Err(e) => bytes@.len() != 192 && spend_wire::is_wire_error(
                    e,
                    "MintBindingProof"@,
                    bytes@.len() < 192,
                ),
            },
    {
        if bytes.len() != 192 {
            return Err(wire_error("MintBindingProof", bytes.len() < 192));
        }
        let p = MintBindingProof {
            r1: array_32(bytes, 0),
            r2: array_32(bytes, 32),
            zv: array_32(bytes, 64),
            zs: array_32(bytes, 96),
            zr: array_32(bytes, 128),
            zb: array_32(bytes, 160),
        };
        assert(bytes@ =~= p.wire());
        Ok(p)
    }
}

/// An honest binding verifies: the binding that any nonces give for an opening is accepted
/// for its coin and its value commitment, provided that neither nonce commitment is the
/// neutral element.
pub proof fn law_honest_binding_verifies(
    p: MintBindingProof,
    value: nat,
    serial: nat,
    coin_blinding: nat,
    value_blinding: nat,
    nonces: Seq<nat>,
)
    requires
        is_binding(p, value, serial, coin_blinding, value_blinding, nonces),
        shielded_spend::bound_coin(nonces[0], nonces[1], nonces[2]) != 0,
        shielded_spend::value_point(nonces[0], nonces[3]) != 0,
    ensures
        binding_valid(
            shielded_spend::bound_coin(value, serial, coin_blinding),
            shielded_spend::value_point(value, value_blinding),
            p,
        ),
{
    let gv = spark_generators::gv_log();
    let h = spark_generators::h_log();
    let k = spark_generators::k_log();
    let c_out = shielded_spend::bound_coin(value, serial, coin_blinding);
    let v_out = shielded_spend::value_point(value, value_blinding);
    let r1 = shielded_spend::bound_coin(nonces[0], nonces[1], nonces[2]);
    let r2 = shielded_spend::value_point(nonces[0], nonces[3]);
    let c = mint_challenge_value(c_out, v_out, r1, r2);
    field::lemma_plus_scalar_bytes(nonces[0], field::times(c, value));
    field::lemma_plus_scalar_bytes(nonces[1], field::times(c, serial));
    field::lemma_plus_scalar_bytes(nonces[2], field::times(c, coin_blinding));
    field::lemma_plus_scalar_bytes(nonces[3], field::times(c, value_blinding));
    field::lemma_response_triple(
        gv,
        h,
        k,
        nonces[0],
        nonces[1],
        nonces[2],
        c,
        value,
        serial,
        coin_blinding,
    );
    field::lemma_response_pair(gv, k, nonces[0], nonces[3], c, value, value_blinding);
}

/// A binding that was written is read back.
pub proof fn law_binding_round_trip(p: MintBindingProof, q: MintBindingProof)
    requires
        p.wire() == q.wire(),
    ensures
        p.r1@ == q.r1@,
        p.r2@ == q.r2@,
        p.zv@ == q.zv@,
        p.zs@ == q.zs@,
        p.zr@ == q.zr@,
        p.zb@ == q.zb@,
{
    assert(p.r1@ =~= p.wire().subrange(0, 32));
    assert(q.r1@ =~= q.wire().subrange(0, 32));
    assert(p.r2@ =~= p.wire().subrange(32, 64));
    assert(q.r2@ =~= q.wire().subrange(32, 64));
    assert(p.zv@ =~= p.wire().subrange(64, 96));
    assert(q.zv@ =~= q.wire().subrange(64, 96));
    assert(p.zs@ =~= p.wire().subrange(96, 128));
    assert(q.zs@ =~= q.wire().subrange(96, 128));
    assert(p.zr@ =~= p.wire().subrange(128, 160));
    assert(q.zr@ =~= q.wire().subrange(128, 160));
    assert(p.zb@ =~= p.wire().subrange(160, 192));
    assert(q.zb@ =~= q.wire().subrange(160, 192));
}

/// What the challenge of a mint binding hashes determines both commitments and both nonce
/// commitments.
pub proof fn law_mint_input_injective(
    a1: nat,
    b1: nat,
    c1: nat,
    d1: nat,
    a2: nat,
    b2: nat,
    c2: nat,
    d2: nat,
)
    requires
        group::encodable(a1) && group::encodable(b1) && group::encodable(c1) && group::encodable(
            d1,
        ),
        group::encodable(a2) && group::encodable(b2) && group::encodable(c2) && group::encodable(
            d2,
        ),
        mint_input(a1, b1, c1, d1) == mint_input(a2, b2, c2, d2),
    ensures
        a1 == a2,
        b1 == b2,
        c1 == c2,
        d1 == d2,
{
    let t = bytes::tag("COINCYNC_SPARK_MINT_BIND_FS_v1");
    let (ea, fa) = (group::ristretto_encoding(a1), group::ristretto_encoding(a2));
    let (eb, fb) = (group::ristretto_encoding(b1), group::ristretto_encoding(b2));
    let (ec, fc) = (group::ristretto_encoding(c1), group::ristretto_encoding(c2));
    let (ed, fd) = (group::ristretto_encoding(d1), group::ristretto_encoding(d2));
    bytes::lemma_same_tails(t + ea + eb + ec, ed, t + fa + fb + fc, fd);
    bytes::lemma_same_tails(t + ea + eb, ec, t + fa + fb, fc);
    bytes::lemma_same_tails(t + ea, eb, t + fa, fb);
    bytes::lemma_same_tails(t, ea, t, fa);
}

/// The challenge of a mint binding commits to both commitments and both nonce commitments:
/// where two statements that differ share it, two different strings hash to one scalar.
pub proof fn law_mint_challenge_binds(
    a1: nat,
    b1: nat,
    c1: nat,
    d1: nat,
    a2: nat,
    b2: nat,
    c2: nat,
    d2: nat,
)
    requires
        group::encodable(a1) && group::encodable(b1) && group::encodable(c1) && group::encodable(
            d1,
        ),
        group::encodable(a2) && group::encodable(b2) && group::encodable(c2) && group::encodable(
            d2,
        ),
        a1 != a2 || b1 != b2 || c1 != c2 || d1 != d2,
        mint_challenge_value(a1, b1, c1, d1) == mint_challenge_value(a2, b2, c2, d2),
    ensures
        ({
            let left = mint_input(a1, b1, c1, d1);
            let right = mint_input(a2, b2, c2, d2);
            &&& left != right
            &&& field::red(field::le_nat(hashing::sha3_512(left)) as int) == field::red(
                field::le_nat(hashing::sha3_512(right)) as int,
            )
        }),
{
    if mint_input(a1, b1, c1, d1) == mint_input(a2, b2, c2, d2) {
        law_mint_input_injective(a1, b1, c1, d1, a2, b2, c2, d2);
    }
}

/// An accepted binding ties the coin to the value commitment: in
/// `(R1 - R2) + c*(C - V) == zs*H + (zr - zb)*K` the value generator has dropped out, so what
/// the coin and the value commitment differ by holds no value. Here `c` is the hash of the
/// string of the binding.
pub proof fn law_accepted_binding_ties_the_values(c_out: nat, v_out: nat, p: MintBindingProof)
    requires
        binding_valid(c_out, v_out, p),
    ensures
        ({
            let r1 = group::ristretto_log(p.r1@)->0;
            let r2 = group::ristretto_log(p.r2@)->0;
            let c = field::red(
                field::le_nat(hashing::sha3_512(mint_input(c_out, v_out, r1, r2))) as int,
            );
            field::plus(
                field::minus(r1, r2),
                field::times(field::minus(c_out, v_out), c),
            ) == field::plus(
                field::times(spark_generators::h_log(), field::le_nat(p.zs@)),
                field::times(
                    spark_generators::k_log(),
                    field::minus(field::le_nat(p.zr@), field::le_nat(p.zb@)),
                ),
            )
        }),
{
    let g = spark_generators::gv_log() as int;
    let h = spark_generators::h_log() as int;
    let k = spark_generators::k_log() as int;
    let r1 = group::ristretto_log(p.r1@)->0;
    let r2 = group::ristretto_log(p.r2@)->0;
    let (zv, zs) = (field::le_nat(p.zv@), field::le_nat(p.zs@));
    let (zr, zb) = (field::le_nat(p.zr@), field::le_nat(p.zb@));
    let c = mint_challenge_value(c_out, v_out, r1, r2);
    let d = c_out - v_out;
    field::lemma_add_red(g * zv, h * zs);
    field::lemma_add_red(g * zv + h * zs, k * zr);
    field::lemma_add_red(g * zv, k * zb);
    field::lemma_plus_right(r1, (c_out * c) as int);
    field::lemma_plus_right(r2, (v_out * c) as int);
    field::lemma_red_apart(
        (r1 + c_out * c) as int,
        g * zv + h * zs + k * zr,
        (r2 + v_out * c) as int,
        g * zv + k * zb,
    );
    field::lemma_times_left(d, c);
    field::lemma_add_red(r1 - r2, d * c);
    assert(r1 + c_out * c - (r2 + v_out * c) == r1 - r2 + d * c) by (nonlinear_arith)
        requires
            d == c_out - v_out,
    ;
    field::lemma_times_right(k as nat, zr - zb);
    field::lemma_add_red(h * zs, k * (zr - zb));
    assert(k * (zr - zb) == k * zr - k * zb) by (nonlinear_arith);
}

/// The value in an accepted binding is the one of the value commitment: with
/// `V = v*Gv + b*K` and `R2 = kv*Gv + kb*K`, the response is `zv = kv + c*v`, up to a
/// relation between `Gv` and `K`.
pub proof fn law_accepted_binding_answers_for_the_value(
    c_out: nat,
    v: nat,
    b: nat,
    kv: nat,
    kb: nat,
    p: MintBindingProof,
)
    requires
        binding_valid(c_out, shielded_spend::value_point(v, b), p),
        group::ristretto_log(p.r2@) == Some(shielded_spend::value_point(kv, kb)),
    ensures
        ({
            let r1 = group::ristretto_log(p.r1@)->0;
            let r2 = group::ristretto_log(p.r2@)->0;
            let c = field::red(
                field::le_nat(
                    hashing::sha3_512(
                        mint_input(c_out, shielded_spend::value_point(v, b), r1, r2),
                    ),
                ) as int,
            );
            field::times(
                spark_generators::gv_log(),
                field::minus(field::le_nat(p.zv@), field::plus(kv, field::times(c, v))),
            ) == field::times(
                spark_generators::k_log(),
                field::minus(field::plus(kb, field::times(c, b)), field::le_nat(p.zb@)),
            )
        }),
{
    let r1 = group::ristretto_log(p.r1@)->0;
    let r2 = group::ristretto_log(p.r2@)->0;
    let c = mint_challenge_value(c_out, shielded_spend::value_point(v, b), r1, r2);
    field::lemma_response_pair(
        spark_generators::gv_log(),
        spark_generators::k_log(),
        kv,
        kb,
        c,
        v,
        b,
    );
    field::lemma_pair_apart(
        spark_generators::gv_log(),
        spark_generators::k_log(),
        field::le_nat(p.zv@),
        field::le_nat(p.zb@),
        field::plus(kv, field::times(c, v)),
        field::plus(kb, field::times(c, b)),
    );
}

/// An accepted binding is refused once one of its responses is changed and the others are
/// kept.
pub proof fn law_changed_binding_refused(
    c_out: nat,
    v_out: nat,
    p: MintBindingProof,
    q: MintBindingProof,
)
    requires
        binding_valid(c_out, v_out, p),
        p.r1@ == q.r1@,
        p.r2@ == q.r2@,
        (p.zv@ != q.zv@ && p.zb@ == q.zb@) || (p.zv@ == q.zv@ && p.zb@ != q.zb@) || (p.zv@ == q.zv@
            && p.zs@ != q.zs@ && p.zr@ == q.zr@) || (p.zv@ == q.zv@ && p.zs@ == q.zs@ && p.zr@
            != q.zr@),
        field::unit(spark_generators::gv_log()),
        field::unit(spark_generators::h_log()),
        field::unit(spark_generators::k_log()),
    ensures
        !binding_valid(c_out, v_out, q),
{
    if binding_valid(c_out, v_out, q) {
        let g = spark_generators::gv_log();
        let h = spark_generators::h_log();
        let k = spark_generators::k_log();
        broadcast use field::lemma_red_range;

        let (v1, v2) = (field::le_nat(p.zv@), field::le_nat(q.zv@));
        let (s1, s2) = (field::le_nat(p.zs@), field::le_nat(q.zs@));
        let (r1, r2) = (field::le_nat(p.zr@), field::le_nat(q.zr@));
        let (b1, b2) = (field::le_nat(p.zb@), field::le_nat(q.zb@));
        if p.zb@ == q.zb@ && p.zv@ != q.zv@ {
            field::lemma_pair_first(g, k, v1, v2, b1);
            field::lemma_same_number(p.zv@, q.zv@);
        } else if p.zb@ != q.zb@ {
            field::lemma_cancel_term(field::times(g, v1), field::times(k, b1), field::times(k, b2));
            field::lemma_cancel(k, b1, b2);
            field::lemma_same_number(p.zb@, q.zb@);
        } else if p.zr@ == q.zr@ {
            let t = field::times(k, r1);
            let (x, y) = (
                field::plus(field::times(g, v1), field::times(h, s1)),
                field::plus(field::times(g, v1), field::times(h, s2)),
            );
            assert(field::plus(x, t) == field::plus(t, x));
            assert(field::plus(y, t) == field::plus(t, y));
            field::lemma_cancel_term(t, x, y);
            field::lemma_cancel_term(field::times(g, v1), field::times(h, s1), field::times(h, s2));
            field::lemma_cancel(h, s1, s2);
            field::lemma_same_number(p.zs@, q.zs@);
        } else {
            field::lemma_cancel_term(
                field::plus(field::times(g, v1), field::times(h, s1)),
                field::times(k, r1),
                field::times(k, r2),
            );
            field::lemma_cancel(k, r1, r2);
            field::lemma_same_number(p.zr@, q.zr@);
        }
    }
}

/// An accepted binding is in canonical form: both nonce commitments are encodings of
/// elements that are not neutral, and every response is below the order.
pub proof fn law_accepted_binding_is_canonical(c_out: nat, v_out: nat, p: MintBindingProof)
    requires
        binding_valid(c_out, v_out, p),
    ensures
        group::ristretto_log(p.r1@) matches Some(k) && k != 0,
        group::ristretto_log(p.r2@) matches Some(k) && k != 0,
        field::le_nat(p.zv@) < field::order(),
        field::le_nat(p.zs@) < field::order(),
        field::le_nat(p.zr@) < field::order(),
        field::le_nat(p.zb@) < field::order(),
{
}

} // verus!
