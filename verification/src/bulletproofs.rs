//! Range proofs: Bulletproofs+ proofs that committed amounts fit in 64 bits.
//!
//! A commitment is `C = v*H + r*G`. Proofs come from the `tari_bulletproofs_plus` crate;
//! this module pads the statements, frames the proofs and decides what is accepted.
use vstd::prelude::*;
use vstd::arithmetic::power2::*;
use curve25519_dalek::constants::RISTRETTO_BASEPOINT_COMPRESSED as BASEPOINT_COMPRESSED;
use curve25519_dalek::constants::RISTRETTO_BASEPOINT_POINT as BASEPOINT;
use curve25519_dalek::ristretto::CompressedRistretto;
use curve25519_dalek::scalar::Scalar as DalekScalar;
use merlin::Transcript;
use rand::rngs::StdRng;
use rand::SeedableRng;
use tari_bulletproofs_plus::commitment_opening::CommitmentOpening;
use tari_bulletproofs_plus::errors::ProofError;
use tari_bulletproofs_plus::generators::pedersen_gens::ExtensionDegree::DefaultPedersen;
use tari_bulletproofs_plus::generators::pedersen_gens::PedersenGens;
use tari_bulletproofs_plus::range_parameters::RangeParameters;
use tari_bulletproofs_plus::range_proof::{RangeProof as TariProof, VerifyAction};
use tari_bulletproofs_plus::range_statement::RangeStatement;
use tari_bulletproofs_plus::range_witness::RangeWitness;
use crate::bytes;
use crate::bytes::append;
use crate::constants::{BULLETPROOFS_PLUS_HEIGHT, RANGE_PROOF_VERSION_BP_PLUS};
use crate::curve;
use crate::error;
use crate::error::{Error, Result};
use crate::field;
use crate::group;
use crate::group::{RistrettoPoint, Scalar};
use crate::primitives::Amount;
use crate::secure::ct_eq;
use crate::text;
use crate::wire;

verus! {

/// The version byte of the older range proofs.
pub const RANGE_PROOF_VERSION: u8 = 2;

/// The bit length of a range.
pub const RANGE_BITS: usize = 64;

/// The most outputs that one aggregated proof covers.
pub const MAX_AGGREGATION: usize = 16;

// --- Calls into tari_bulletproofs_plus -----------------------------------------------

/// The bytes of the proof that the prover returns for these bases, openings, commitments and
/// seed, if it returns one.
pub uninterp spec fn bp_plus_proof(
    label: Seq<u8>,
    bits: nat,
    h: nat,
    amounts: Seq<u64>,
    blindings: Seq<nat>,
    commitments: Seq<nat>,
    seed: Seq<u8>,
) -> Option<Seq<u8>>;

/// Whether the verifier accepts the bytes of a proof for these bases and commitments.
pub uninterp spec fn bp_plus_accepts(
    label: Seq<u8>,
    bits: nat,
    h: nat,
    commitments: Seq<nat>,
    data: Seq<u8>,
) -> bool;

/// Whether every commitment opens to its amount and blinding, with the amount on `h`.
pub open spec fn opened(
    h: nat,
    amounts: Seq<u64>,
    blindings: Seq<nat>,
    commitments: Seq<nat>,
) -> bool {
    &&& amounts.len() == commitments.len()
    &&& blindings.len() == commitments.len()
    &&& forall|i: int|
        0 <= i < commitments.len() ==> #[trigger] commitments[i] == field::plus(
            field::times(h, amounts[i] as nat),
            blindings[i],
        )
}

/// The error of the `tari_bulletproofs_plus` crate.
#[verifier::external_type_specification]
#[verifier::external_body]
pub struct ExProofError(ProofError);

/// The models of a list of encoded group elements.
pub open spec fn point_logs(c: Seq<[u8; 32]>) -> Seq<nat> {
    Seq::new(c.len(), |i: int| group::ristretto_log(c[i]@)->0)
}

/// Whether every string of a list encodes a group element.
pub open spec fn all_encodings(c: Seq<[u8; 32]>) -> bool {
    forall|i: int| 0 <= i < c.len() ==> group::ristretto_log((#[trigger] c[i])@) is Some
}

/// Whether a list holds no minimum value for each of so many commitments.
pub open spec fn no_minimums(m: Seq<Option<u64>>, n: nat) -> bool {
    m.len() == n && forall|i: int| 0 <= i < n ==> (#[trigger] m[i]) is None
}

/// The amounts of a list of openings.
pub open spec fn opening_amounts(o: Seq<(u64, [u8; 32])>) -> Seq<u64> {
    Seq::new(o.len(), |i: int| o[i].0)
}

/// The blindings of a list of openings.
pub open spec fn opening_blindings(o: Seq<(u64, [u8; 32])>) -> Seq<nat> {
    Seq::new(o.len(), |i: int| field::red(field::le_nat(o[i].1@) as int))
}

/// `tari_bulletproofs_plus::RangeProof::prove_with_rng`, on a statement with the value
/// base `h`, the basepoint as blinding base and no minimum values, with a generator seeded
/// by `seed`: a function of its arguments. A proof comes out only where the commitments
/// open to the amounts and blindings. It is one degree byte and, of 32 bytes each, six
/// elements and two for every halving of `bits` times the number of commitments. That the
/// verifier accepts it is not claimed: the verifier divides by the first challenge of its
/// transcript less one, which may be zero, and does not hand that challenge out. What an
/// error says is left open.
#[verifier::external_body]
fn bp_plus_prove(
    label: &'static [u8],
    bits: usize,
    h: &[u8; 32],
    openings: &[(u64, [u8; 32])],
    commitments: &[[u8; 32]],
    minimums: Vec<Option<u64>>,
    seed: [u8; 32],
) -> (r: core::result::Result<Vec<u8>, ProofError>)
    requires
        bits == RANGE_BITS,
        group::ristretto_log(h@) is Some,
        all_encodings(commitments@),
        no_minimums(minimums@, commitments@.len()),
    ensures
        bp_plus_proof(
            label@,
            bits as nat,
            group::ristretto_log(h@)->0,
            opening_amounts(openings@),
            opening_blindings(openings@),
            point_logs(commitments@),
            seed@,
        ) == match r {
            Ok(p) => Some(p@),
            Err(_) => None,
        },
        r matches Ok(p) ==> {
            &&& opened(
                group::ristretto_log(h@)->0,
                opening_amounts(openings@),
                opening_blindings(openings@),
                point_logs(commitments@),
            )
            &&& forall|k: nat|
                #[trigger] pow2(k) == bits * commitments@.len() ==> p@.len() == 193 + 64 * k
        },
{
    let decode = |c: &[u8; 32]| CompressedRistretto(*c).decompress().unwrap();
    let gens = PedersenGens {
        h_base: decode(h), h_base_compressed: CompressedRistretto(*h), g_base_vec: vec![BASEPOINT],
        g_base_compressed_vec: vec![BASEPOINT_COMPRESSED], extension_degree: DefaultPedersen,
    };
    let params = RangeParameters::init(bits, commitments.len(), gens)?;
    Ok(TariProof::prove_with_rng(
        &mut Transcript::new(label),
        &RangeStatement::init(params, commitments.iter().map(decode).collect(), minimums, None)?,
        &RangeWitness::init(openings.iter().map(|o| CommitmentOpening::new(o.0, vec![DalekScalar::from_bytes_mod_order(o.1)])).collect())?,
        &mut StdRng::from_seed(seed),
    )?.to_bytes())
}

/// The text of an error of the `tari_bulletproofs_plus` crate, by `to_string`. What it says
/// is left open.
#[verifier::external_body]
fn bp_plus_error_text(e: &ProofError) -> (r: String) {
    e.to_string()
}

/// `tari_bulletproofs_plus::RangeProof::from_bytes` and `verify_batch` on one proof, for a
/// statement with the value base `h`, the basepoint as blinding base and no minimum
/// values: a function of the arguments. Bytes that do not decode are not accepted.
#[verifier::external_body]
fn bp_plus_verify(
    label: &'static [u8],
    bits: usize,
    h: &[u8; 32],
    commitments: &[[u8; 32]],
    minimums: Vec<Option<u64>>,
    data: &[u8],
) -> (r: bool)
    requires
        bits == RANGE_BITS,
        group::ristretto_log(h@) is Some,
        all_encodings(commitments@),
        no_minimums(minimums@, commitments@.len()),
    ensures
        r == bp_plus_accepts(
            label@,
            bits as nat,
            group::ristretto_log(h@)->0,
            point_logs(commitments@),
            data@,
        ),
{
    let decode = |c: &[u8; 32]| CompressedRistretto(*c).decompress().unwrap();
    let gens = PedersenGens {
        h_base: decode(h), h_base_compressed: CompressedRistretto(*h), g_base_vec: vec![BASEPOINT],
        g_base_compressed_vec: vec![BASEPOINT_COMPRESSED], extension_degree: DefaultPedersen,
    };
    let check = || {
        let decoded = TariProof::from_bytes(data)?;
        let params = RangeParameters::init(bits, commitments.len(), gens)?;
        let points = commitments.iter().map(decode).collect();
        let statement = RangeStatement::init(params, points, minimums, None)?;
        TariProof::verify_batch(&mut [Transcript::new(label)], &[statement], &[decoded], VerifyAction::VerifyOnly)
    };
    check().is_ok()
}

// --- Blinding factors --------------------------------------------------------------

/// The blinding factor of a commitment.
pub struct BlindingFactor {
    scalar: Scalar,
}

impl View for BlindingFactor {
    type V = nat;

    closed spec fn view(&self) -> nat {
        self.scalar@
    }
}

impl Clone for BlindingFactor {
    fn clone(&self) -> (r: Self)
        ensures
            r@ == self@,
    {
        BlindingFactor { scalar: self.scalar }
    }
}

/// The values of a list of blinding factors.
pub open spec fn factors(b: Seq<BlindingFactor>) -> Seq<nat> {
    Seq::new(b.len(), |i: int| b[i]@)
}

impl BlindingFactor {
    /// A blinding factor from 64 bytes of entropy, reduced modulo the group order.
    pub fn random(entropy: &[u8; 64]) -> (r: BlindingFactor)
        ensures
            r@ == field::red(field::le_nat(entropy@) as int),
    {
        BlindingFactor { scalar: Scalar::from_bytes_mod_order_wide(entropy) }
    }

    /// A blinding factor from 32 bytes, reduced modulo the group order.
    pub fn from_bytes(bytes: [u8; 32]) -> (r: BlindingFactor)
        ensures
            r@ == field::red(field::le_nat(bytes@) as int),
    {
        BlindingFactor { scalar: Scalar::from_bytes_mod_order(&bytes) }
    }

    /// A blinding factor from a scalar.
    pub fn from_scalar(scalar: Scalar) -> (r: BlindingFactor)
        ensures
            r@ == scalar@,
    {
        BlindingFactor { scalar }
    }

    /// The canonical encoding.
    pub fn to_bytes(&self) -> (r: [u8; 32])
        ensures
            r@ == field::scalar_bytes(self@),
            field::le_nat(r@) == self@,
    {
        self.scalar.to_bytes()
    }

    /// The canonical encoding, as a slice.
    pub fn as_bytes(&self) -> (r: &[u8])
        ensures
            r@ == field::scalar_bytes(self@),
    {
        self.scalar.as_bytes()
    }

    /// The scalar itself.
    pub fn as_scalar(&self) -> (r: &Scalar)
        ensures
            r@ == self@,
    {
        &self.scalar
    }

    /// The blinding factor zero.
    pub fn zero() -> (r: BlindingFactor)
        ensures
            r@ == 0,
    {
        BlindingFactor { scalar: Scalar::zero() }
    }

    /// The sum of two blinding factors.
    pub fn add(&self, other: &BlindingFactor) -> (r: BlindingFactor)
        ensures
            r@ == field::plus(self@, other@),
    {
        BlindingFactor { scalar: self.scalar.add(&other.scalar) }
    }

    /// The difference of two blinding factors.
    pub fn sub(&self, other: &BlindingFactor) -> (r: BlindingFactor)
        ensures
            r@ == field::minus(self@, other@),
    {
        BlindingFactor { scalar: self.scalar.sub(&other.scalar) }
    }

    /// Wipes the blinding factor: what is left is zero.
    pub fn zeroize(&mut self)
        ensures
            final(self)@ == 0,
    {
        self.scalar.zeroize();
    }

    /// What may be shown of it, which is nothing.
    pub fn debug_text(&self) -> (r: String)
        ensures
            r@ == "BlindingFactor([REDACTED])"@,
    {
        "BlindingFactor([REDACTED])".to_owned()
    }
}

// --- Commitments -------------------------------------------------------------------

/// A Pedersen commitment in its 32-byte form, which may or may not be the encoding of
/// a group element.
#[derive(Clone, Copy, Debug, PartialEq, Eq, Hash)]
pub struct PedersenCommitment {
    bytes: [u8; 32],
}

impl View for PedersenCommitment {
    type V = Seq<u8>;

    closed spec fn view(&self) -> Seq<u8> {
        self.bytes@
    }
}

/// The bytes of the commitment `v*H + r*G`.
pub open spec fn commitment_bytes(v: nat, r: nat) -> Seq<u8> {
    group::ristretto_encoding(curve::pedersen(v, r))
}

/// The bytes of the sum of two commitments, where both are group elements.
pub open spec fn sum_bytes(a: Seq<u8>, b: Seq<u8>) -> Option<Seq<u8>> {
    match (group::ristretto_log(a), group::ristretto_log(b)) {
        (Some(x), Some(y)) => Some(group::ristretto_encoding(field::plus(x, y))),
        _ => None,
    }
}

/// The bytes of the sum of two commitments, or those of the neutral element where one of
/// them is no group element.
pub open spec fn sum_or_neutral(a: Seq<u8>, b: Seq<u8>) -> Seq<u8> {
    match sum_bytes(a, b) {
        Some(c) => c,
        None => Seq::new(32, |i: int| 0u8),
    }
}

/// The bytes of the difference of two commitments, where both are group elements.
pub open spec fn difference_bytes(a: Seq<u8>, b: Seq<u8>) -> Option<Seq<u8>> {
    match (group::ristretto_log(a), group::ristretto_log(b)) {
        (Some(x), Some(y)) => Some(group::ristretto_encoding(field::minus(x, y))),
        _ => None,
    }
}

/// The generator that carries the value of a commitment.
pub fn value_generator() -> (r: RistrettoPoint)
    ensures
        r@ == curve::h_log(),
{
    curve::generator_h()
}

/// The generator that carries the blinding of a commitment: the basepoint.
pub fn blinding_generator() -> (r: RistrettoPoint)
    ensures
        r@ == 1,
{
    RistrettoPoint::basepoint()
}

/// The point `v*H + r*G`.
fn pedersen_commit(value: u64, blinding: &Scalar) -> (r: RistrettoPoint)
    ensures
        r@ == curve::pedersen(value as nat, blinding@),
{
    let v = Scalar::from_u64(value);
    curve::generator_h().mul(&v).add(&RistrettoPoint::mul_base(blinding))
}

impl PedersenCommitment {
    /// Commits to a value under a blinding factor.
    pub fn commit(value: u64, blinding: &BlindingFactor) -> (r: PedersenCommitment)
        ensures
            r@ == commitment_bytes(value as nat, blinding@),
            group::encodes(r@, curve::pedersen(value as nat, blinding@)),
    {
        let point = pedersen_commit(value, &blinding.scalar);
        PedersenCommitment { bytes: point.compress() }
    }

    /// A commitment from bytes that need not encode a group element.
    pub fn from_bytes_unchecked(bytes: [u8; 32]) -> (r: PedersenCommitment)
        ensures
            r@ == bytes@,
    {
        PedersenCommitment { bytes }
    }

    /// A commitment from bytes, if they encode a group element.
    pub fn from_bytes_checked(bytes: [u8; 32]) -> (r: Option<PedersenCommitment>)
        ensures
            match r {
                Some(c) => c@ == bytes@ && group::ristretto_log(bytes@) is Some,
                None => group::ristretto_log(bytes@) is None,
            },
    {
        match RistrettoPoint::decompress(&bytes) {
            Some(_) => Some(PedersenCommitment { bytes }),
            None => None,
        }
    }

    /// The 32 bytes.
    pub fn to_bytes(&self) -> (r: [u8; 32])
        ensures
            r@ == self@,
    {
        self.bytes
    }

    /// The 32 bytes, by reference.
    pub fn as_bytes(&self) -> (r: &[u8; 32])
        ensures
            r@ == self@,
    {
        &self.bytes
    }

    /// The compressed point: the 32 bytes that [`RistrettoPoint::decompress`] reads.
    pub fn as_point(&self) -> (r: &[u8; 32])
        ensures
            r@ == self@,
    {
        &self.bytes
    }

    /// The commitment of 32 zero bytes.
    pub fn zero() -> (r: PedersenCommitment)
        ensures
            r@ == Seq::new(32, |i: int| 0u8),
    {
        let bytes: [u8; 32] = [0u8; 32];
        assert(bytes@ =~= Seq::new(32, |i: int| 0u8));
        PedersenCommitment { bytes }
    }

    /// The bytes in hexadecimal.
    pub fn to_hex(&self) -> (r: String)
        ensures
            r@ == text::hex(self@),
    {
        text::hex_encode(&self.bytes)
    }

    /// The sum of two commitments; nothing where one of them is no group element.
    pub fn checked_add(&self, other: &PedersenCommitment) -> (r: Option<PedersenCommitment>)
        ensures
            match r {
                Some(c) => sum_bytes(self@, other@) == Some(c@),
                None => sum_bytes(self@, other@) is None,
            },
    {
        match (RistrettoPoint::decompress(&self.bytes), RistrettoPoint::decompress(&other.bytes)) {
            (Some(a), Some(b)) => Some(PedersenCommitment { bytes: a.add(&b).compress() }),
            _ => None,
        }
    }

    /// The difference of two commitments; nothing where one of them is no group element.
    pub fn checked_sub(&self, other: &PedersenCommitment) -> (r: Option<PedersenCommitment>)
        ensures
            match r {
                Some(c) => difference_bytes(self@, other@) == Some(c@),
                None => difference_bytes(self@, other@) is None,
            },
    {
        match (RistrettoPoint::decompress(&self.bytes), RistrettoPoint::decompress(&other.bytes)) {
            (Some(a), Some(b)) => Some(PedersenCommitment { bytes: a.sub(&b).compress() }),
            _ => None,
        }
    }

    /// The short form for people.
    pub fn debug_text(&self) -> (r: String)
        ensures
            r@ == text::short_form("Commitment"@, self@, 8, "...)"@),
    {
        text::make_short_form("Commitment", &self.bytes, 8, "...)")
    }
}

impl core::ops::Add for PedersenCommitment {
    type Output = PedersenCommitment;

    /// The sum of two commitments; the neutral element, which is 32 zero bytes, where one
    /// of them is no group element.
    fn add(self, other: PedersenCommitment) -> (r: PedersenCommitment)
        ensures
            r@ == sum_or_neutral(self@, other@),
    {
        let r = match self.checked_add(&other) {
            Some(c) => c,
            None => PedersenCommitment { bytes: RistrettoPoint::identity().compress() },
        };
        assert(r@ == sum_or_neutral(self@, other@));
        let ghost c = choose|c: PedersenCommitment| c@ == sum_or_neutral(self@, other@);
        assert(r.bytes =~= c.bytes);
        r
    }
}

impl vstd::std_specs::ops::AddSpecImpl for PedersenCommitment {
    open spec fn obeys_add_spec() -> bool {
        true
    }

    open spec fn add_req(self, other: PedersenCommitment) -> bool {
        true
    }

    open spec fn add_spec(self, other: PedersenCommitment) -> PedersenCommitment {
        choose|c: PedersenCommitment| c@ == sum_or_neutral(self@, other@)
    }
}

impl core::ops::Add<&PedersenCommitment> for PedersenCommitment {
    type Output = PedersenCommitment;

    /// The sum of two commitments; the neutral element, which is 32 zero bytes, where one
    /// of them is no group element.
    fn add(self, other: &PedersenCommitment) -> (r: PedersenCommitment)
        ensures
            r@ == sum_or_neutral(self@, other@),
    {
        self + *other
    }
}

impl vstd::std_specs::ops::AddSpecImpl<&PedersenCommitment> for PedersenCommitment {
    open spec fn obeys_add_spec() -> bool {
        true
    }

    open spec fn add_req(self, other: &PedersenCommitment) -> bool {
        true
    }

    open spec fn add_spec(self, other: &PedersenCommitment) -> PedersenCommitment {
        choose|c: PedersenCommitment| c@ == sum_or_neutral(self@, other@)
    }
}

// --- Range proofs ------------------------------------------------------------------

/// A range proof: a version and the bytes of the proof.
#[derive(Debug, PartialEq, Eq)]
pub struct RangeProof {
    /// The version of the proof system.
    pub version: u8,
    /// The bytes of the proof.
    pub data: Vec<u8>,
}

impl Clone for RangeProof {
    fn clone(&self) -> (r: Self)
        ensures
            r.version == self.version,
            r.data@ == self.data@,
    {
        let mut data: Vec<u8> = Vec::new();
        append(&mut data, self.data.as_slice());
        assert(data@ =~= self.data@);
        RangeProof { version: self.version, data }
    }
}

/// The wire format of a range proof: the version, then the length and the bytes.
pub open spec fn proof_wire(version: u8, data: Seq<u8>) -> Seq<u8> {
    seq![version] + wire::bytes_wire(data)
}

/// The range proof that a byte string holds: its version and its bytes. The string must
/// end with the proof.
pub open spec fn parse_proof(b: Seq<u8>) -> Option<(u8, Seq<u8>)> {
    if b.len() == 0 {
        None
    } else {
        match wire::parse_bytes(b.skip(1)) {
            Some((data, rest)) => if rest.len() == 0 {
                Some((b[0], data))
            } else {
                None
            },
            None => None,
        }
    }
}

impl RangeProof {
    /// The proof without bytes that stands on a coinbase output.
    pub fn empty() -> (r: RangeProof)
        ensures
            r.version == RANGE_PROOF_VERSION,
            r.data@ == Seq::<u8>::empty(),
    {
        let data: Vec<u8> = Vec::new();
        RangeProof { version: RANGE_PROOF_VERSION, data }
    }

    /// The size in bytes, the version included.
    pub fn size(&self) -> (r: usize)
        requires
            self.data@.len() < usize::MAX,
        ensures
            r == 1 + self.data@.len(),
    {
        1 + self.data.len()
    }

    /// Whether the proof has no bytes.
    pub fn is_empty(&self) -> (r: bool)
        ensures
            r == (self.data@.len() == 0),
    {
        self.data.len() == 0
    }

    /// The wire format. Bytes whose number does not fit in 32 bits cannot be written.
    pub fn try_to_bytes(&self) -> (r: Result<Vec<u8>>)
        ensures
            match r {
                Ok(b) => self.data@.len() <= u32::MAX && b@ == proof_wire(self.version, self.data@),
                Err(e) => self.data@.len() > u32::MAX && error::is_serialization(
                    e,
                    "invalid data"@,
                ),
            },
    {
        if self.data.len() as u64 > u32::MAX as u64 {
            return Err(error::serialization("invalid data"));
        }
        let mut out: Vec<u8> = Vec::new();
        out.push(self.version);
        wire::append_bytes(&mut out, self.data.as_slice());
        assert(out@ =~= proof_wire(self.version, self.data@));
        Ok(out)
    }

    /// Reads the wire format; what does not parse to its last byte is refused.
    pub fn from_bytes(data: &[u8]) -> (r: Result<RangeProof>)
        ensures
            match r {
                Ok(p) => parse_proof(data@) == Some((p.version, p.data@)),
                Err(e) => parse_proof(data@) is None && e == Error::RangeProofInvalid,
            },
    {
        let n: usize = data.len();
        if n == 0 {
            return Err(Error::RangeProofInvalid);
        }
        let tail = vstd::slice::slice_subrange(data, 1, n);
        assert(tail@ =~= data@.skip(1));
        match wire::read_bytes(tail) {
            Some((item, rest)) => {
                if rest.len() != 0 {
                    return Err(Error::RangeProofInvalid);
                }
                let mut bytes: Vec<u8> = Vec::new();
                append(&mut bytes, item);
                assert(bytes@ =~= item@);
                Ok(RangeProof { version: data[0], data: bytes })
            },
            None => Err(Error::RangeProofInvalid),
        }
    }

    /// The short form for people.
    pub fn debug_text(&self) -> (r: String)
        ensures
            r@ == "RangeProof(v"@ + text::decimal(self.version as nat) + ", "@ + text::decimal(
                1 + self.data@.len(),
            ) + " bytes)"@,
    {
        let mut s: String = "RangeProof(v".to_owned();
        text::push_decimal(&mut s, self.version as u64);
        text::push_text(&mut s, ", ");
        text::push_decimal_wide(&mut s, 1 + self.data.len() as u128);
        text::push_text(&mut s, " bytes)");
        s
    }
}

/// A range proof that was written is read back.
pub proof fn law_range_proof_round_trip(version: u8, data: Seq<u8>)
    requires
        data.len() <= u32::MAX,
    ensures
        parse_proof(proof_wire(version, data)) == Some((version, data)),
{
    let b = proof_wire(version, data);
    wire::law_bytes_round_trip(data, Seq::empty());
    assert(b.skip(1) =~= wire::bytes_wire(data) + Seq::<u8>::empty());
}

/// Commits to an amount under a blinding factor made from entropy.
pub fn commit(entropy: &[u8; 64], amount: Amount) -> (r: (PedersenCommitment, BlindingFactor))
    ensures
        r.1@ == field::red(field::le_nat(entropy@) as int),
        r.0@ == commitment_bytes(amount@, r.1@),
        group::encodes(r.0@, curve::pedersen(amount@, r.1@)),
{
    let blinding = BlindingFactor::random(entropy);
    let commitment = PedersenCommitment::commit(amount.as_atomic(), &blinding);
    (commitment, blinding)
}

/// Whether a commitment opens to an amount and a blinding factor.
pub fn verify_commitment(
    commitment: &PedersenCommitment,
    amount: Amount,
    blinding: &BlindingFactor,
) -> (r: bool)
    ensures
        r == (commitment@ == commitment_bytes(amount@, blinding@)),
{
    let expected = PedersenCommitment::commit(amount.as_atomic(), blinding);
    ct_eq(commitment.as_bytes(), expected.as_bytes())
}

/// Whether a coinbase output commits to the expected amount with no blinding.
pub fn verify_coinbase_output(commitment: &PedersenCommitment, expected_amount: u64) -> (r: bool)
    ensures
        r == (commitment@ == commitment_bytes(expected_amount as nat, 0)),
{
    let expected = PedersenCommitment::commit(expected_amount, &BlindingFactor::zero());
    ct_eq(commitment.as_bytes(), expected.as_bytes())
}

/// The smallest power of two that is not below `n`.
pub open spec fn padded(n: nat) -> nat
    decreases n,
{
    if n <= 1 {
        1
    } else {
        2 * padded((n + 1) / 2)
    }
}

/// `padded(n)` is a power of two, not below `n`, and every power of two below it is
/// below `n`.
pub proof fn law_padded(n: nat)
    ensures
        n <= padded(n),
        exists|k: nat| #[trigger] pow2(k) == padded(n),
        forall|j: nat| #[trigger] pow2(j) < padded(n) ==> pow2(j) < n,
    decreases n,
{
    if n <= 1 {
        lemma2_to64();
        assert(pow2(0) == padded(n));
        assert forall|j: nat| #[trigger] pow2(j) < padded(n) implies pow2(j) < n by {
            lemma_pow2_pos(j);
        }
    } else {
        let h = (n + 1) / 2;
        law_padded(h);
        let k = choose|k: nat| #[trigger] pow2(k) == padded(h);
        lemma_pow2_unfold(k + 1);
        assert(pow2(k + 1) == padded(n));
        assert forall|j: nat| #[trigger] pow2(j) < padded(n) implies pow2(j) < n by {
            if j == 0 {
                lemma2_to64();
            } else {
                lemma_pow2_unfold(j);
                assert(pow2((j - 1) as nat) < padded(h));
                assert(pow2((j - 1) as nat) < h);
            }
        }
    }
}

/// The padded number is not above twice the number less one.
proof fn lemma_padded_step(n: nat, p: nat, k: nat)
    requires
        p == pow2(k),
        p < n,
    ensures
        2 * p <= padded(n),
        2 * p < 2 * n,
        2 * p == pow2(k + 1),
{
    law_padded(n);
    lemma_pow2_unfold(k + 1);
    let m = choose|m: nat| #[trigger] pow2(m) == padded(n);
    if m <= k {
        if m < k {
            lemma_pow2_strictly_increases(m, k);
        }
    } else if k + 1 < m {
        lemma_pow2_strictly_increases(k + 1, m);
    }
}

/// Rounds up to a power of two.
fn next_power_of_two(n: usize) -> (r: usize)
    requires
        n <= usize::MAX / 2,
    ensures
        r == padded(n as nat),
        n <= r,
{
    let mut p: usize = 1;
    let ghost mut k: nat = 0;
    proof {
        lemma2_to64();
        law_padded(n as nat);
    }
    while p < n
        invariant
            n <= usize::MAX / 2,
            1 <= p <= padded(n as nat),
            p == pow2(k),
        decreases padded(n as nat) - p,
    {
        proof {
            lemma_padded_step(n as nat, p as nat, k);
            k = k + 1;
        }
        p = p * 2;
    }
    proof {
        if p < padded(n as nat) {
            assert(pow2(k) < n);
        }
    }
    p
}

// --- Making proofs -----------------------------------------------------------------

/// The values of a list, and zeros up to the padded number.
pub open spec fn pad(s: Seq<nat>) -> Seq<nat> {
    Seq::new(
        padded(s.len()),
        |i: int|
            if i < s.len() {
                s[i]
            } else {
                0
            },
    )
}

/// The amounts of a list, and zeros up to the padded number.
pub open spec fn pad_amounts(a: Seq<Amount>) -> Seq<u64> {
    Seq::new(
        padded(a.len()),
        |i: int|
            if i < a.len() {
                a[i].atomic
            } else {
                0
            },
    )
}

/// The models of the commitments to a list of amounts under a list of blinding factors.
pub open spec fn committed(a: Seq<Amount>, b: Seq<BlindingFactor>) -> Seq<nat> {
    Seq::new(a.len(), |i: int| curve::pedersen(a[i]@, b[i]@))
}

/// The transcript label of a proof for one commitment.
pub open spec fn single_label() -> Seq<u8> {
    bytes::tag("CoinCync_RangeProof_BPPlus")
}

/// The transcript label of a proof for several commitments.
pub open spec fn aggregate_label() -> Seq<u8> {
    bytes::tag("CoinCync_AggregatedRangeProof_BPPlus")
}

/// What the prover returns for one amount.
pub open spec fn single_proof(amount: u64, blinding: nat, seed: Seq<u8>) -> Option<Seq<u8>> {
    bp_plus_proof(
        single_label(),
        64,
        curve::h_log(),
        seq![amount],
        seq![blinding],
        seq![curve::pedersen(amount as nat, blinding)],
        seed,
    )
}

/// What the prover returns for several amounts: their number is padded to a power of two
/// with zero amounts under zero blindings, whose commitment is the neutral element.
pub open spec fn aggregate_proof(
    a: Seq<Amount>,
    b: Seq<BlindingFactor>,
    seed: Seq<u8>,
) -> Option<Seq<u8>> {
    bp_plus_proof(
        aggregate_label(),
        64,
        curve::h_log(),
        pad_amounts(a),
        pad(factors(b)),
        pad(committed(a, b)),
        seed,
    )
}

/// Whether `r` reports what the prover returned: the framed proof, or an error with what the
/// prover says.
pub open spec fn reports(r: Result<RangeProof>, outcome: Option<Seq<u8>>) -> bool {
    match outcome {
        Some(data) => r matches Ok(p) && p.version == RANGE_PROOF_VERSION_BP_PLUS && p.data@ == data
            && data.len() > 0,
        None => r matches Err(Error::CryptoError(m)) && exists|text: Seq<char>| m@ == "BP+ prove: "@ + text,
    }
}

/// Whether a proof is accepted for one commitment.
pub open spec fn single_accepted(c: Seq<u8>, version: u8, data: Seq<u8>) -> bool {
    &&& data.len() > 0
    &&& version == RANGE_PROOF_VERSION_BP_PLUS
    &&& group::ristretto_log(c) is Some
    &&& bp_plus_accepts(
        single_label(),
        64,
        curve::h_log(),
        seq![group::ristretto_log(c)->0],
        data,
    )
}

/// Whether every commitment of a list is a group element.
pub open spec fn all_points(c: Seq<PedersenCommitment>) -> bool {
    forall|i: int| 0 <= i < c.len() ==> group::ristretto_log((#[trigger] c[i])@) is Some
}

/// The models of a list of commitments.
pub open spec fn commitment_logs(c: Seq<PedersenCommitment>) -> Seq<nat> {
    Seq::new(c.len(), |i: int| group::ristretto_log(c[i]@)->0)
}

/// Whether a proof is accepted for a list of commitments. For no commitments that is a
/// proof without bytes.
pub open spec fn aggregate_accepted(
    c: Seq<PedersenCommitment>,
    version: u8,
    data: Seq<u8>,
) -> bool {
    if c.len() == 0 {
        data.len() == 0
    } else {
        &&& data.len() > 0
        &&& version == RANGE_PROOF_VERSION_BP_PLUS
        &&& c.len() <= usize::MAX / 2
        &&& all_points(c)
        &&& bp_plus_accepts(
            aggregate_label(),
            64,
            curve::h_log(),
            pad(commitment_logs(c)),
            data,
        )
    }
}

/// What making a range proof for one amount gives: what the prover returned, 577 bytes long.
pub open spec fn made_single(
    r: Result<RangeProof>,
    amount: Amount,
    blinding: nat,
    seed: Seq<u8>,
) -> bool {
    &&& reports(r, single_proof(amount.atomic, blinding, seed))
    &&& r matches Ok(p) ==> p.data@.len() == 577
}

/// What making a range proof for several amounts gives. Lists of different lengths and
/// more amounts than one proof may cover are refused; no amounts give a proof without
/// bytes; otherwise it is what the prover returned, which is 64 bytes longer than a proof for
/// one amount for every doubling up to the padded number.
pub open spec fn made_aggregate(
    r: Result<RangeProof>,
    a: Seq<Amount>,
    b: Seq<BlindingFactor>,
    seed: Seq<u8>,
) -> bool {
    if a.len() != b.len() || a.len() > MAX_AGGREGATION {
        r == Err::<RangeProof, Error>(Error::RangeProofInvalid)
    } else if a.len() == 0 {
        r matches Ok(p) && p.version == RANGE_PROOF_VERSION_BP_PLUS && p.data@.len() == 0
    } else {
        &&& reports(r, aggregate_proof(a, b, seed))
        &&& r matches Ok(p) ==> forall|k: nat|
            #[trigger] pow2(k) == padded(a.len()) ==> p.data@.len() == 577 + 64 * k
    }
}

fn prove_error(text: &str) -> (e: Error)
    ensures
        e matches Error::CryptoError(m) && m@ == "BP+ prove: "@ + text@,
{
    let mut s: String = "BP+ prove: ".to_owned();
    text::push_text(&mut s, text);
    Error::CryptoError(s)
}

/// The encodings of a list of points.
fn encode_points(points: &Vec<RistrettoPoint>) -> (r: Vec<[u8; 32]>)
    ensures
        all_encodings(r@),
        point_logs(r@) == group::logs(points@),
{
    let mut out: Vec<[u8; 32]> = Vec::new();
    let mut i: usize = 0;
    while i < points.len()
        invariant
            i <= points@.len(),
            out@.len() == i,
            forall|j: int|
                0 <= j < i ==> group::ristretto_log((#[trigger] out@[j])@) == Some(points@[j]@),
        decreases points@.len() - i,
    {
        out.push(points[i].compress());
        i = i + 1;
    }
    assert(point_logs(out@) =~= group::logs(points@));
    out
}

/// No minimum value for each of so many commitments.
fn absent_minimums(n: usize) -> (r: Vec<Option<u64>>)
    ensures
        no_minimums(r@, n as nat),
{
    let mut out: Vec<Option<u64>> = Vec::new();
    while out.len() < n
        invariant
            out@.len() <= n,
            forall|i: int| 0 <= i < out@.len() ==> (#[trigger] out@[i]) is None,
        decreases n - out@.len(),
    {
        out.push(None);
    }
    out
}

proof fn lemma_neutral_commitment()
    ensures
        curve::pedersen(0, 0) == 0,
{
    let h = curve::h_log();
    field::lemma_order_positive();
    field::lemma_red_small(0);
    assert(h * 0 == 0);
}

/// Runs the prover and frames what it returns.
fn run_prover(
    label: &'static [u8],
    amounts: &Vec<u64>,
    blindings: &Vec<Scalar>,
    commitments: &Vec<RistrettoPoint>,
    seed: [u8; 32],
) -> (r: Result<RangeProof>)
    requires
        amounts@.len() == blindings@.len(),
        exists|k: nat| #[trigger] pow2(k) == commitments@.len(),
    ensures
        reports(
            r,
            bp_plus_proof(
                label@,
                64,
                curve::h_log(),
                amounts@,
                group::values(blindings@),
                group::logs(commitments@),
                seed@,
            ),
        ),
        r matches Ok(p) ==> forall|k: nat|
            #[trigger] pow2(k) == commitments@.len() ==> p.data@.len() == 577 + 64 * k,
{
    let h = curve::generator_h().compress();
    let encoded = encode_points(commitments);
    let mut openings: Vec<(u64, [u8; 32])> = Vec::new();
    let mut i: usize = 0;
    while i < amounts.len()
        invariant
            i <= amounts@.len(),
            amounts@.len() == blindings@.len(),
            openings@.len() == i,
            forall|j: int| 0 <= j < i ==> (#[trigger] openings@[j]).0 == amounts@[j],
            forall|j: int|
                0 <= j < i ==> field::le_nat((#[trigger] openings@[j]).1@) == blindings@[j]@,
        decreases amounts@.len() - i,
    {
        openings.push((amounts[i], blindings[i].to_bytes()));
        i = i + 1;
    }
    proof {
        assert(opening_amounts(openings@) =~= amounts@);
        assert forall|j: int| 0 <= j < openings@.len() implies opening_blindings(openings@)[j]
            == group::values(blindings@)[j] by {
            group::lemma_scalar_range(blindings@[j]);
            field::lemma_red_small(blindings@[j]@);
        }
        assert(opening_blindings(openings@) =~= group::values(blindings@));
    }
    let minimums = absent_minimums(encoded.len());
    match bp_plus_prove(
        label,
        RANGE_BITS,
        &h,
        openings.as_slice(),
        encoded.as_slice(),
        minimums,
        seed,
    ) {
        Ok(data) => {
            proof {
                assert(encoded@.len() == commitments@.len()) by {
                    assert(point_logs(encoded@).len() == group::logs(commitments@).len());
                }
                lemma2_to64();
                assert forall|k: nat| #[trigger]
                    pow2(k) == commitments@.len() implies data@.len() == 577 + 64 * k by {
                    lemma_pow2_adds(6, k);
                    assert(pow2(6 + k) == RANGE_BITS * commitments@.len());
                }
                let k = choose|k: nat| #[trigger] pow2(k) == commitments@.len();
                assert(data@.len() == 577 + 64 * k);
            }
            Ok(RangeProof { version: RANGE_PROOF_VERSION_BP_PLUS, data })
        },
        Err(e) => {
            let text = bp_plus_error_text(&e);
            Err(prove_error(text.as_str()))
        },
    }
}

/// Makes a range proof for one amount and its commitment.
pub fn create_range_proof_bp_plus(
    amount: Amount,
    blinding: &BlindingFactor,
    seed: [u8; 32],
) -> (r: Result<RangeProof>)
    ensures
        made_single(r, amount, blinding@, seed@),
{
    let point = pedersen_commit(amount.as_atomic(), &blinding.scalar);
    let mut amounts: Vec<u64> = Vec::new();
    amounts.push(amount.as_atomic());
    let mut blindings: Vec<Scalar> = Vec::new();
    blindings.push(blinding.scalar);
    let mut commitments: Vec<RistrettoPoint> = Vec::new();
    commitments.push(point);
    proof {
        lemma2_to64();
        assert(pow2(0) == commitments@.len());
        assert(amounts@ =~= seq![amount.atomic]);
        assert(group::values(blindings@) =~= seq![blinding@]);
        assert(group::logs(commitments@) =~= seq![curve::pedersen(amount@, blinding@)]);
    }
    run_prover("CoinCync_RangeProof_BPPlus".as_bytes(), &amounts, &blindings, &commitments, seed)
}

/// Makes one range proof for several amounts and their commitments.
pub fn create_aggregated_range_proof_bp_plus(
    amounts: &[Amount],
    blindings: &[BlindingFactor],
    seed: [u8; 32],
) -> (r: Result<RangeProof>)
    ensures
        made_aggregate(r, amounts@, blindings@, seed@),
{
    if amounts.len() != blindings.len() {
        return Err(Error::RangeProofInvalid);
    }
    let n: usize = amounts.len();
    if n == 0 {
        let data: Vec<u8> = Vec::new();
        return Ok(RangeProof { version: RANGE_PROOF_VERSION_BP_PLUS, data });
    }
    if n > MAX_AGGREGATION {
        return Err(Error::RangeProofInvalid);
    }
    let total: usize = next_power_of_two(n);
    let mut values: Vec<u64> = Vec::new();
    let mut factors: Vec<Scalar> = Vec::new();
    let mut points: Vec<RistrettoPoint> = Vec::new();
    let mut i: usize = 0;
    while i < n
        invariant
            i <= n,
            n == amounts@.len(),
            n == blindings@.len(),
            n <= total,
            total == padded(n as nat),
            values@.len() == i,
            factors@.len() == i,
            points@.len() == i,
            forall|j: int| 0 <= j < i ==> #[trigger] values@[j] == pad_amounts(amounts@)[j],
            forall|j: int|
                0 <= j < i ==> (#[trigger] factors@[j])@ == pad(self::factors(blindings@))[j],
            forall|j: int|
                0 <= j < i ==> (#[trigger] points@[j])@ == pad(committed(amounts@, blindings@))[j],
        decreases n - i,
    {
        let value: u64 = amounts[i].as_atomic();
        values.push(value);
        factors.push(*blindings[i].as_scalar());
        points.push(pedersen_commit(value, blindings[i].as_scalar()));
        i = i + 1;
    }
    let neutral = pedersen_commit(0, &Scalar::zero());
    proof {
        lemma_neutral_commitment();
    }
    while i < total
        invariant
            n <= i <= total,
            n == amounts@.len(),
            n == blindings@.len(),
            total == padded(n as nat),
            neutral@ == 0,
            values@.len() == i,
            factors@.len() == i,
            points@.len() == i,
            forall|j: int| 0 <= j < i ==> #[trigger] values@[j] == pad_amounts(amounts@)[j],
            forall|j: int|
                0 <= j < i ==> (#[trigger] factors@[j])@ == pad(self::factors(blindings@))[j],
            forall|j: int|
                0 <= j < i ==> (#[trigger] points@[j])@ == pad(committed(amounts@, blindings@))[j],
        decreases total - i,
    {
        values.push(0);
        factors.push(Scalar::zero());
        points.push(neutral);
        i = i + 1;
    }
    proof {
        law_padded(n as nat);
        assert(values@ =~= pad_amounts(amounts@));
        assert(group::values(factors@) =~= pad(self::factors(blindings@)));
        assert(group::logs(points@) =~= pad(committed(amounts@, blindings@)));
    }
    run_prover(
        "CoinCync_AggregatedRangeProof_BPPlus".as_bytes(),
        &values,
        &factors,
        &points,
        seed,
    )
}

/// Makes a range proof for one amount.
pub fn create_range_proof(amount: Amount, blinding: &BlindingFactor, seed: [u8; 32]) -> (r: Result<
    RangeProof,
>)
    ensures
        made_single(r, amount, blinding@, seed@),
{
    create_range_proof_bp_plus(amount, blinding, seed)
}

/// Makes one range proof for several amounts.
pub fn create_aggregated_range_proof(
    amounts: &[Amount],
    blindings: &[BlindingFactor],
    seed: [u8; 32],
) -> (r: Result<RangeProof>)
    ensures
        made_aggregate(r, amounts@, blindings@, seed@),
{
    create_aggregated_range_proof_bp_plus(amounts, blindings, seed)
}

/// Makes a range proof for one amount, of the kind that the height asks for.
pub fn create_range_proof_for_height(
    amount: Amount,
    blinding: &BlindingFactor,
    seed: [u8; 32],
    height: u64,
) -> (r: Result<RangeProof>)
    ensures
        made_single(r, amount, blinding@, seed@),
{
    if height >= BULLETPROOFS_PLUS_HEIGHT {
        create_range_proof_bp_plus(amount, blinding, seed)
    } else {
        create_range_proof(amount, blinding, seed)
    }
}

/// Makes one range proof for several amounts, of the kind that the height asks for.
pub fn create_aggregated_range_proof_for_height(
    amounts: &[Amount],
    blindings: &[BlindingFactor],
    seed: [u8; 32],
    height: u64,
) -> (r: Result<RangeProof>)
    ensures
        made_aggregate(r, amounts@, blindings@, seed@),
{
    if height >= BULLETPROOFS_PLUS_HEIGHT {
        create_aggregated_range_proof_bp_plus(amounts, blindings, seed)
    } else {
        create_aggregated_range_proof(amounts, blindings, seed)
    }
}

// --- Checking proofs ---------------------------------------------------------------

/// Whether a Bulletproofs+ proof is accepted for a commitment.
pub fn verify_range_proof_bp_plus(commitment: &PedersenCommitment, range_proof: &RangeProof) -> (r: bool)
    ensures
        r == single_accepted(commitment@, range_proof.version, range_proof.data@),
{
    if range_proof.is_empty() || range_proof.version != RANGE_PROOF_VERSION_BP_PLUS {
        return false;
    }
    match RistrettoPoint::decompress(commitment.as_point()) {
        None => false,
        Some(point) => {
            let mut points: Vec<RistrettoPoint> = Vec::new();
            points.push(point);
            let ghost log = group::ristretto_log(commitment@)->0;
            assert(group::logs(points@) =~= seq![log]);
            let encoded = encode_points(&points);
            bp_plus_verify(
                "CoinCync_RangeProof_BPPlus".as_bytes(),
                RANGE_BITS,
                &curve::generator_h().compress(),
                encoded.as_slice(),
                absent_minimums(encoded.len()),
                range_proof.data.as_slice(),
            )
        },
    }
}

/// Whether an aggregated Bulletproofs+ proof is accepted for a list of commitments.
pub fn verify_range_proofs_bp_plus(
    commitments: &[PedersenCommitment],
    range_proof: &RangeProof,
) -> (r: bool)
    ensures
        r == aggregate_accepted(commitments@, range_proof.version, range_proof.data@),
{
    let n: usize = commitments.len();
    if n == 0 {
        return range_proof.is_empty();
    }
    if range_proof.is_empty() || range_proof.version != RANGE_PROOF_VERSION_BP_PLUS {
        return false;
    }
    if n > usize::MAX / 2 {
        return false;
    }
    let total: usize = next_power_of_two(n);
    let mut points: Vec<RistrettoPoint> = Vec::new();
    let mut i: usize = 0;
    while i < n
        invariant
            i <= n,
            n == commitments@.len(),
            n <= total,
            total == padded(n as nat),
            points@.len() == i,
            forall|j: int|
                0 <= j < i ==> group::ristretto_log((#[trigger] commitments@[j])@) is Some,
            forall|j: int|
                0 <= j < i ==> (#[trigger] points@[j])@ == pad(commitment_logs(commitments@))[j],
        decreases n - i,
    {
        match RistrettoPoint::decompress(commitments[i].as_point()) {
            Some(p) => {
                points.push(p);
            },
            None => {
                assert(group::ristretto_log(commitments@[i as int]@) is None);
                return false;
            },
        }
        i = i + 1;
    }
    let neutral = pedersen_commit(0, &Scalar::zero());
    proof {
        lemma_neutral_commitment();
    }
    while i < total
        invariant
            n <= i <= total,
            n == commitments@.len(),
            total == padded(n as nat),
            neutral@ == 0,
            points@.len() == i,
            forall|j: int|
                0 <= j < i ==> (#[trigger] points@[j])@ == pad(commitment_logs(commitments@))[j],
        decreases total - i,
    {
        points.push(neutral);
        i = i + 1;
    }
    assert(group::logs(points@) =~= pad(commitment_logs(commitments@)));
    let encoded = encode_points(&points);
    bp_plus_verify(
        "CoinCync_AggregatedRangeProof_BPPlus".as_bytes(),
        RANGE_BITS,
        &curve::generator_h().compress(),
        encoded.as_slice(),
        absent_minimums(encoded.len()),
        range_proof.data.as_slice(),
    )
}

/// Whether a range proof is accepted for a commitment.
pub fn verify_range_proof(commitment: &PedersenCommitment, range_proof: &RangeProof) -> (r: bool)
    ensures
        r == single_accepted(commitment@, range_proof.version, range_proof.data@),
{
    if range_proof.is_empty() {
        return false;
    }
    verify_range_proof_bp_plus(commitment, range_proof)
}

/// Whether an aggregated range proof is accepted for a list of commitments.
pub fn verify_range_proofs(commitments: &[PedersenCommitment], range_proof: &RangeProof) -> (r: bool)
    ensures
        r == aggregate_accepted(commitments@, range_proof.version, range_proof.data@),
{
    if commitments.len() == 0 {
        return range_proof.is_empty();
    }
    if range_proof.is_empty() {
        return false;
    }
    verify_range_proofs_bp_plus(commitments, range_proof)
}

/// Whether every proof of a list is accepted for its commitment.
pub fn batch_verify_range_proofs(
    commitments_and_proofs: &[(PedersenCommitment, RangeProof)],
) -> (r: bool)
    ensures
        r == (forall|i: int|
            0 <= i < commitments_and_proofs@.len() ==> {
                let (c, p) = #[trigger] commitments_and_proofs@[i];
                single_accepted(c@, p.version, p.data@)
            }),
{
    let mut i: usize = 0;
    while i < commitments_and_proofs.len()
        invariant
            i <= commitments_and_proofs@.len(),
            forall|j: int|
                0 <= j < i ==> {
                    let (c, p) = #[trigger] commitments_and_proofs@[j];
                    single_accepted(c@, p.version, p.data@)
                },
        decreases commitments_and_proofs@.len() - i,
    {
        let (c, p) = &commitments_and_proofs[i];
        if !verify_range_proof(c, p) {
            assert(!single_accepted(
                commitments_and_proofs@[i as int].0@,
                commitments_and_proofs@[i as int].1.version,
                commitments_and_proofs@[i as int].1.data@,
            ));
            return false;
        }
        i = i + 1;
    }
    true
}

/// Whether proofs of this version are the ones that the height asks for.
pub open spec fn version_active(version: u8, height: u64) -> bool {
    if height >= BULLETPROOFS_PLUS_HEIGHT {
        version == RANGE_PROOF_VERSION_BP_PLUS
    } else {
        version == RANGE_PROOF_VERSION
    }
}

/// Whether a range proof is of the version that the height asks for, and accepted for a
/// commitment.
pub fn verify_range_proof_dispatch(
    commitment: &PedersenCommitment,
    range_proof: &RangeProof,
    current_height: u64,
) -> (r: bool)
    ensures
        r == (version_active(range_proof.version, current_height) && single_accepted(
            commitment@,
            range_proof.version,
            range_proof.data@,
        )),
{
    let bp_plus_active = current_height >= BULLETPROOFS_PLUS_HEIGHT;
    if range_proof.version == RANGE_PROOF_VERSION && !bp_plus_active {
        verify_range_proof(commitment, range_proof)
    } else if range_proof.version == RANGE_PROOF_VERSION_BP_PLUS && bp_plus_active {
        verify_range_proof_bp_plus(commitment, range_proof)
    } else {
        false
    }
}

/// Whether an aggregated range proof is of the version that the height asks for, and
/// accepted for a list of commitments.
pub fn verify_range_proofs_dispatch(
    commitments: &[PedersenCommitment],
    range_proof: &RangeProof,
    current_height: u64,
) -> (r: bool)
    ensures
        r == (version_active(range_proof.version, current_height) && aggregate_accepted(
            commitments@,
            range_proof.version,
            range_proof.data@,
        )),
{
    let bp_plus_active = current_height >= BULLETPROOFS_PLUS_HEIGHT;
    if range_proof.version == RANGE_PROOF_VERSION && !bp_plus_active {
        verify_range_proofs(commitments, range_proof)
    } else if range_proof.version == RANGE_PROOF_VERSION_BP_PLUS && bp_plus_active {
        verify_range_proofs_bp_plus(commitments, range_proof)
    } else {
        false
    }
}

/// Lists of commitments with the same bytes are the same.
pub proof fn lemma_same_commitments(a: Seq<PedersenCommitment>, b: Seq<PedersenCommitment>)
    requires
        a.len() == b.len(),
        forall|i: int| 0 <= i < a.len() ==> (#[trigger] a[i])@ == b[i]@,
    ensures
        a == b,
{
    assert forall|i: int| 0 <= i < a.len() implies a[i] == b[i] by {
        assert(a[i].bytes =~= b[i].bytes);
    }
    assert(a =~= b);
}

/// The sum of two commitments is the commitment to the sum of the amounts under the sum
/// of the blinding factors.
pub proof fn law_sum_of_commitments(v1: nat, r1: nat, v2: nat, r2: nat, a: Seq<u8>, b: Seq<u8>)
    requires
        group::encodes(a, curve::pedersen(v1, r1)),
        group::encodes(b, curve::pedersen(v2, r2)),
    ensures
        sum_bytes(a, b) == Some(commitment_bytes(v1 + v2, field::plus(r1, r2))),
{
    curve::law_commitments_add_up(v1, r1, v2, r2);
}

/// The difference of two commitments is the commitment to the difference of the amounts
/// under the difference of the blinding factors.
pub proof fn law_difference_of_commitments(
    v1: nat,
    r1: nat,
    v2: nat,
    r2: nat,
    a: Seq<u8>,
    b: Seq<u8>,
)
    requires
        v2 <= v1,
        group::encodes(a, curve::pedersen(v1, r1)),
        group::encodes(b, curve::pedersen(v2, r2)),
    ensures
        difference_bytes(a, b) == Some(commitment_bytes((v1 - v2) as nat, field::minus(r1, r2))),
{
    curve::law_commitments_subtract(v1, r1, v2, r2);
}

/// Single and aggregated proofs are told apart by their labels.
pub proof fn law_labels_are_apart()
    ensures
        single_label() != aggregate_label(),
{
    reveal_strlit("CoinCync_RangeProof_BPPlus");
    reveal_strlit("CoinCync_AggregatedRangeProof_BPPlus");
    assert("CoinCync_RangeProof_BPPlus"@[9] != "CoinCync_AggregatedRangeProof_BPPlus"@[9]);
    bytes::lemma_tags_differ("CoinCync_RangeProof_BPPlus", "CoinCync_AggregatedRangeProof_BPPlus");
}

/// Padding keeps every commitment and adds commitments to nothing only, and padding again
/// adds nothing.
pub proof fn law_pad_keeps(s: Seq<nat>)
    ensures
        s.len() <= pad(s).len(),
        pad(s).take(s.len() as int) == s,
        forall|i: int| s.len() <= i < pad(s).len() ==> #[trigger] pad(s)[i] == 0,
        s.len() > 0 ==> pad(s).len() < 2 * s.len(),
        s.len() > 0 ==> pad(pad(s)) == pad(s),
{
    law_padded(s.len());
    assert(pad(s).take(s.len() as int) =~= s);
    if s.len() > 0 {
        lemma_padded_twice(s.len());
        assert(pad(pad(s)) =~= pad(s));
    }
}

proof fn lemma_padded_twice(n: nat)
    requires
        n > 0,
    ensures
        padded(padded(n)) == padded(n),
        padded(n) < 2 * n,
    decreases n,
{
    if n > 1 {
        lemma_padded_twice((n + 1) / 2);
        let p = padded((n + 1) / 2);
        law_padded((n + 1) / 2);
        assert(padded(2 * p) == 2 * padded((2 * p + 1) / 2));
        assert((2 * p + 1) / 2 == p);
    }
}

/// An accepted range proof is a proof for a range that holds every 64-bit amount and no
/// other number, for the commitment that it was checked against, under the label of single
/// proofs.
pub proof fn law_accepted_range_is_that_of_amounts(c: Seq<u8>, version: u8, data: Seq<u8>)
    requires
        single_accepted(c, version, data),
    ensures
        exists|bits: nat, v: nat|
            pow2(bits) == u64::MAX + 1 && group::ristretto_log(c) == Some(v)
                && #[trigger] bp_plus_accepts(
                bytes::tag("CoinCync_RangeProof_BPPlus"),
                bits,
                curve::h_log(),
                seq![v],
                data,
            ),
{
    lemma2_to64();
    let v = group::ristretto_log(c)->0;
    assert(bp_plus_accepts(single_label(), 64, curve::h_log(), seq![v], data));
}

/// An accepted aggregated proof covers every one of its commitments for the range of 64-bit
/// amounts, under the label of aggregated proofs.
pub proof fn law_accepted_aggregate_covers_all(
    c: Seq<PedersenCommitment>,
    version: u8,
    data: Seq<u8>,
)
    requires
        aggregate_accepted(c, version, data),
        c.len() > 0,
    ensures
        exists|bits: nat, v: Seq<nat>|
            pow2(bits) == u64::MAX + 1 && v.len() >= c.len() && (forall|i: int|
                0 <= i < c.len() ==> group::ristretto_log((#[trigger] c[i])@) == Some(v[i]))
                && #[trigger] bp_plus_accepts(
                bytes::tag("CoinCync_AggregatedRangeProof_BPPlus"),
                bits,
                curve::h_log(),
                v,
                data,
            ),
{
    lemma2_to64();
    let v = pad(commitment_logs(c));
    law_pad_keeps(commitment_logs(c));
    assert forall|i: int| 0 <= i < c.len() implies group::ristretto_log((#[trigger] c[i])@) == Some(
        v[i],
    ) by {
        assert(commitment_logs(c)[i] == v[i]);
    }
    assert(bp_plus_accepts(aggregate_label(), 64, curve::h_log(), v, data));
}

/// Without data or with another version no range proof is accepted.
pub proof fn law_other_versions_refused(c: Seq<u8>, version: u8, data: Seq<u8>)
    requires
        version != RANGE_PROOF_VERSION_BP_PLUS || data.len() == 0 || group::ristretto_log(c) is None,
    ensures
        !single_accepted(c, version, data),
{
}

} // verus!
