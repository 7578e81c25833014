//! One-out-of-many proofs of logarithmic size, and the shielded spends that build on them.
//!
//! For `n = 2^m` commitments `c_0 .. c_(n-1)` the proof shows that one of them, at a hidden
//! index, is a known multiple of `K`. Its vectors have length `m`.
use vstd::prelude::*;
use vstd::arithmetic::power2::*;
use crate::bytes;
use crate::bytes::{append, append_tag, append_u64};
use crate::error;
use crate::error::{Error, Result};
use crate::field;
use crate::gk_algebra;
use crate::group;
use crate::group::{RistrettoPoint, Scalar};
use crate::hashing;
use crate::peer_scalars;
use crate::peer_scalars::{PeerPoint, PeerScalar};
use crate::spark_generators;
use crate::spark_generators::{gen_g, gen_k};
use crate::text;
use crate::wire;

verus! {

/// The largest number of rounds, so that a set has at most `2^20` members.
pub const MAX_GK_ROUNDS: usize = 20;

/// The model of the auxiliary commitment `b*G + r*K`.
pub open spec fn com(b: nat, r: nat) -> nat {
    field::plus(field::times(1, b), field::times(spark_generators::k_log(), r))
}

fn commit(b: &Scalar, r: &Scalar) -> (p: RistrettoPoint)
    ensures
        p@ == com(b@, r@),
{
    gen_g().mul(b).add(&gen_k().mul(r))
}

/// The wire form of a one-out-of-many proof. The strings are not yet decoded.
#[derive(Clone, Debug, PartialEq, Eq)]
pub struct GkOneOfManyProof {
    /// Commitments to the bits of the index.
    pub cl: Vec<[u8; 32]>,
    /// Commitments to the masks of the bits.
    pub ca: Vec<[u8; 32]>,
    /// Commitments to the products of bits and masks.
    pub cb: Vec<[u8; 32]>,
    /// Commitments to the lower coefficients.
    pub gk: Vec<[u8; 32]>,
    /// Responses for the bits.
    pub f: Vec<[u8; 32]>,
    /// Responses for the randomness of `cl` and `ca`.
    pub za: Vec<[u8; 32]>,
    /// Responses for the randomness of `cl` and `cb`.
    pub zb: Vec<[u8; 32]>,
    /// The final response.
    pub zd: [u8; 32],
}

/// A one-out-of-many proof that was decoded and has the right shape.
#[derive(Clone, Debug)]
pub struct DecodedGkProof {
    /// The number of rounds.
    pub m: usize,
    pub cl: Vec<PeerPoint>,
    pub ca: Vec<PeerPoint>,
    pub cb: Vec<PeerPoint>,
    pub gk: Vec<PeerPoint>,
    pub f: Vec<PeerScalar>,
    pub za: Vec<PeerScalar>,
    pub zb: Vec<PeerScalar>,
    pub zd: PeerScalar,
}

// --- Decoding ------------------------------------------------------------------------

/// The refusal of a list of points from position `i` on, if there is one.
pub open spec fn points_fault(v: Seq<[u8; 32]>, i: int) -> Option<Seq<char>>
    decreases v.len() - i,
{
    if i < 0 || i >= v.len() {
        None
    } else {
        match peer_scalars::non_identity_fault(v[i]@) {
            Some(text) => Some(text),
            None => points_fault(v, i + 1),
        }
    }
}

/// The refusal of a list of scalars from position `i` on, if there is one.
pub open spec fn scalars_fault(v: Seq<[u8; 32]>, i: int) -> Option<Seq<char>>
    decreases v.len() - i,
{
    if i < 0 || i >= v.len() {
        None
    } else if field::le_nat(v[i]@) >= field::order() {
        Some(peer_scalars::scalar_fault())
    } else {
        scalars_fault(v, i + 1)
    }
}

/// The models of the points that a list of encodings holds.
pub open spec fn point_logs(v: Seq<[u8; 32]>) -> Seq<nat> {
    Seq::new(v.len(), |i: int| group::ristretto_log(v[i]@)->0)
}

/// The numbers that a list of encodings holds.
pub open spec fn scalar_numbers(v: Seq<[u8; 32]>) -> Seq<nat> {
    Seq::new(v.len(), |i: int| field::le_nat(v[i]@))
}

/// The models of decoded points.
pub open spec fn peer_logs(v: Seq<PeerPoint>) -> Seq<nat> {
    Seq::new(v.len(), |i: int| v[i]@)
}

/// The values of decoded scalars.
pub open spec fn peer_values(v: Seq<PeerScalar>) -> Seq<nat> {
    Seq::new(v.len(), |i: int| v[i]@)
}

proof fn lemma_points_fault_skip(v: Seq<[u8; 32]>, i: int)
    requires
        0 <= i <= v.len(),
        forall|j: int|
            0 <= j < i ==> peer_scalars::non_identity_fault((#[trigger] v[j])@) is None,
    ensures
        points_fault(v, 0) == points_fault(v, i),
    decreases i,
{
    if i > 0 {
        lemma_points_fault_skip(v, i - 1);
        assert(peer_scalars::non_identity_fault(v[i - 1]@) is None);
    }
}

proof fn lemma_scalars_fault_skip(v: Seq<[u8; 32]>, i: int)
    requires
        0 <= i <= v.len(),
        forall|j: int| 0 <= j < i ==> field::le_nat((#[trigger] v[j])@) < field::order(),
    ensures
        scalars_fault(v, 0) == scalars_fault(v, i),
    decreases i,
{
    if i > 0 {
        lemma_scalars_fault_skip(v, i - 1);
        assert(field::le_nat(v[i - 1]@) < field::order());
    }
}

/// A list of points has no refusal exactly where none of its members has one.
pub proof fn lemma_points_fault_none(v: Seq<[u8; 32]>, i: int)
    requires
        0 <= i <= v.len(),
    ensures
        points_fault(v, i) is None <==> forall|j: int|
            i <= j < v.len() ==> peer_scalars::non_identity_fault((#[trigger] v[j])@) is None,
    decreases v.len() - i,
{
    if i < v.len() {
        lemma_points_fault_none(v, i + 1);
        if points_fault(v, i) is None {
            assert forall|j: int| i <= j < v.len() implies peer_scalars::non_identity_fault(
                (#[trigger] v[j])@,
            ) is None by {}
        } else {
            if peer_scalars::non_identity_fault(v[i]@) is None {
                let j = choose|j: int|
                    i + 1 <= j < v.len() && !(peer_scalars::non_identity_fault(
                        (#[trigger] v[j])@,
                    ) is None);
                assert(!(peer_scalars::non_identity_fault(v[j]@) is None));
            }
        }
    }
}

/// A list of scalars has no refusal exactly where all its members are canonical.
pub proof fn lemma_scalars_fault_none(v: Seq<[u8; 32]>, i: int)
    requires
        0 <= i <= v.len(),
    ensures
        scalars_fault(v, i) is None <==> forall|j: int|
            i <= j < v.len() ==> field::le_nat((#[trigger] v[j])@) < field::order(),
    decreases v.len() - i,
{
    if i < v.len() {
        lemma_scalars_fault_none(v, i + 1);
        if scalars_fault(v, i) is None {
            assert forall|j: int| i <= j < v.len() implies field::le_nat((#[trigger] v[j])@)
                < field::order() by {}
        } else {
            if field::le_nat(v[i]@) < field::order() {
                let j = choose|j: int|
                    i + 1 <= j < v.len() && !(field::le_nat((#[trigger] v[j])@) < field::order());
                assert(!(field::le_nat(v[j]@) < field::order()));
            }
        }
    }
}

pub(crate) fn decode_points(v: &Vec<[u8; 32]>) -> (r: Result<Vec<PeerPoint>>)
    ensures
        match r {
            Ok(p) => points_fault(v@, 0) is None && p@.len() == v@.len() && peer_logs(p@)
                == point_logs(v@),
            Err(e) => match points_fault(v@, 0) {
                Some(text) => error::is_crypto(e, text),
                None => false,
            },
        },
{
    let mut out: Vec<PeerPoint> = Vec::new();
    let mut i: usize = 0;
    while i < v.len()
        invariant
            i <= v@.len(),
            out@.len() == i,
            forall|j: int|
                0 <= j < i ==> peer_scalars::non_identity_fault((#[trigger] v@[j])@) is None,
            forall|j: int|
                0 <= j < i ==> group::ristretto_log(v@[j]@) == Some((#[trigger] out@[j])@),
        decreases v@.len() - i,
    {
        match PeerPoint::decode_non_identity(v[i]) {
            Ok(p) => {
                out.push(p);
            },
            Err(e) => {
                proof {
                    lemma_points_fault_skip(v@, i as int);
                }
                return Err(e);
            },
        }
        i = i + 1;
    }
    proof {
        lemma_points_fault_skip(v@, i as int);
        assert(peer_logs(out@) =~= point_logs(v@));
    }
    Ok(out)
}

pub(crate) fn decode_scalars(v: &Vec<[u8; 32]>) -> (r: Result<Vec<PeerScalar>>)
    ensures
        match r {
            Ok(s) => scalars_fault(v@, 0) is None && s@.len() == v@.len() && peer_values(s@)
                == scalar_numbers(v@),
            Err(e) => match scalars_fault(v@, 0) {
                Some(text) => error::is_crypto(e, text),
                None => false,
            },
        },
{
    let mut out: Vec<PeerScalar> = Vec::new();
    let mut i: usize = 0;
    while i < v.len()
        invariant
            i <= v@.len(),
            out@.len() == i,
            forall|j: int| 0 <= j < i ==> field::le_nat((#[trigger] v@[j])@) < field::order(),
            forall|j: int| 0 <= j < i ==> (#[trigger] out@[j])@ == field::le_nat(v@[j]@),
        decreases v@.len() - i,
    {
        match PeerScalar::decode(v[i]) {
            Ok(s) => {
                out.push(s);
            },
            Err(e) => {
                proof {
                    lemma_scalars_fault_skip(v@, i as int);
                }
                return Err(e);
            },
        }
        i = i + 1;
    }
    proof {
        lemma_scalars_fault_skip(v@, i as int);
        assert(peer_values(out@) =~= scalar_numbers(v@));
    }
    Ok(out)
}

/// The first of two refusals.
pub open spec fn first(a: Option<Seq<char>>, b: Option<Seq<char>>) -> Option<Seq<char>> {
    match a {
        Some(text) => Some(text),
        None => b,
    }
}

/// The refusal of a field whose length is not the number of rounds.
pub open spec fn length_fault(name: Seq<char>, len: nat, m: nat) -> Option<Seq<char>> {
    if len == m {
        None
    } else {
        Some(
            "GK proof field `"@ + name + "` length "@ + text::decimal(len) + " != m "@
                + text::decimal(m),
        )
    }
}

/// The refusal of one scalar.
pub open spec fn scalar_fault_of(b: Seq<u8>) -> Option<Seq<char>> {
    if field::le_nat(b) >= field::order() {
        Some(peer_scalars::scalar_fault())
    } else {
        None
    }
}

/// The refusal of the contents of the vectors of a proof.
pub open spec fn vectors_fault(
    cl: Seq<[u8; 32]>,
    ca: Seq<[u8; 32]>,
    cb: Seq<[u8; 32]>,
    gk: Seq<[u8; 32]>,
    f: Seq<[u8; 32]>,
    za: Seq<[u8; 32]>,
    zb: Seq<[u8; 32]>,
) -> Option<Seq<char>> {
    first(
        points_fault(cl, 0),
        first(
            points_fault(ca, 0),
            first(
                points_fault(cb, 0),
                first(
                    points_fault(gk, 0),
                    first(
                        scalars_fault(f, 0),
                        first(scalars_fault(za, 0), scalars_fault(zb, 0)),
                    ),
                ),
            ),
        ),
    )
}

impl GkOneOfManyProof {
    /// The refusal of the shape of the proof, if there is one.
    pub open spec fn shape_fault(self) -> Option<Seq<char>> {
        let m = self.cl@.len();
        if m == 0 || m > MAX_GK_ROUNDS {
            Some("GK proof rounds m="@ + text::decimal(m) + " out of range 1..=20"@)
        } else {
            first(
                length_fault("ca"@, self.ca@.len(), m),
                first(
                    length_fault("cb"@, self.cb@.len(), m),
                    first(
                        length_fault("gk"@, self.gk@.len(), m),
                        first(
                            length_fault("f"@, self.f@.len(), m),
                            first(
                                length_fault("za"@, self.za@.len(), m),
                                length_fault("zb"@, self.zb@.len(), m),
                            ),
                        ),
                    ),
                ),
            )
        }
    }

    /// The refusal of the proof by the decoder, if there is one.
    pub open spec fn decode_fault(self) -> Option<Seq<char>> {
        first(
            self.shape_fault(),
            first(
                vectors_fault(self.cl@, self.ca@, self.cb@, self.gk@, self.f@, self.za@, self.zb@),
                scalar_fault_of(self.zd@),
            ),
        )
    }

    /// Decodes every field strictly and checks the shape: between one and
    /// `MAX_GK_ROUNDS` rounds, every vector as long as there are rounds, every point
    /// canonical and not neutral, every scalar canonical.
    pub fn decode(&self) -> (r: Result<DecodedGkProof>)
        ensures
            match r {
                Ok(d) => self.decode_fault() is None && self.decodes_to(d),
                Err(e) => match self.decode_fault() {
                    Some(text) => error::is_crypto(e, text),
                    None => false,
                },
            },
    {
        let m: usize = self.cl.len();
        if m == 0 || m > MAX_GK_ROUNDS {
            return Err(rounds_error(m));
        }
        if self.ca.len() != m {
            return Err(length_error("ca", self.ca.len(), m));
        }
        if self.cb.len() != m {
            return Err(length_error("cb", self.cb.len(), m));
        }
        if self.gk.len() != m {
            return Err(length_error("gk", self.gk.len(), m));
        }
        if self.f.len() != m {
            return Err(length_error("f", self.f.len(), m));
        }
        if self.za.len() != m {
            return Err(length_error("za", self.za.len(), m));
        }
        if self.zb.len() != m {
            return Err(length_error("zb", self.zb.len(), m));
        }
        let cl = decode_points(&self.cl)?;
        let ca = decode_points(&self.ca)?;
        let cb = decode_points(&self.cb)?;
        let gk = decode_points(&self.gk)?;
        let f = decode_scalars(&self.f)?;
        let za = decode_scalars(&self.za)?;
        let zb = decode_scalars(&self.zb)?;
        let zd = PeerScalar::decode(self.zd)?;
        Ok(DecodedGkProof { m, cl, ca, cb, gk, f, za, zb, zd })
    }

    /// Whether `d` holds what the strings of this proof encode.
    pub open spec fn decodes_to(self, d: DecodedGkProof) -> bool {
        &&& d.m == self.cl@.len()
        &&& peer_logs(d.cl@) == point_logs(self.cl@)
        &&& peer_logs(d.ca@) == point_logs(self.ca@)
        &&& peer_logs(d.cb@) == point_logs(self.cb@)
        &&& peer_logs(d.gk@) == point_logs(self.gk@)
        &&& peer_values(d.f@) == scalar_numbers(self.f@)
        &&& peer_values(d.za@) == scalar_numbers(self.za@)
        &&& peer_values(d.zb@) == scalar_numbers(self.zb@)
        &&& d.zd@ == field::le_nat(self.zd@)
    }
}

fn rounds_error(m: usize) -> (e: Error)
    ensures
        error::is_crypto(
            e,
            "GK proof rounds m="@ + text::decimal(m as nat) + " out of range 1..=20"@,
        ),
{
    let mut s: String = "GK proof rounds m=".to_owned();
    text::push_decimal(&mut s, m as u64);
    text::push_text(&mut s, " out of range 1..=20");
    Error::CryptoError(s)
}

fn length_error(name: &str, len: usize, m: usize) -> (e: Error)
    requires
        len != m,
    ensures
        length_fault(name@, len as nat, m as nat) matches Some(t) && error::is_crypto(e, t),
{
    let mut s: String = "GK proof field `".to_owned();
    text::push_text(&mut s, name);
    text::push_text(&mut s, "` length ");
    text::push_decimal(&mut s, len as u64);
    text::push_text(&mut s, " != m ");
    text::push_decimal(&mut s, m as u64);
    Error::CryptoError(s)
}

// --- The statement -------------------------------------------------------------------

/// What the challenge of a proof hashes: its context, the commitments and the first round.
pub open spec fn gk_input(
    context: Seq<u8>,
    c: Seq<nat>,
    cl: Seq<[u8; 32]>,
    ca: Seq<[u8; 32]>,
    cb: Seq<[u8; 32]>,
    gk: Seq<[u8; 32]>,
) -> Seq<u8> {
    bytes::tag("COINCYNC_GK_FS_v1") + vstd::bytes::spec_u64_to_le_bytes(context.len() as u64)
        + context + group::encodings(c) + bytes::flat(cl) + bytes::flat(ca) + bytes::flat(cb)
        + bytes::flat(gk)
}

/// The challenge of a proof over its context, the commitments and the first round.
pub open spec fn gk_challenge(
    context: Seq<u8>,
    c: Seq<nat>,
    cl: Seq<[u8; 32]>,
    ca: Seq<[u8; 32]>,
    cb: Seq<[u8; 32]>,
    gk: Seq<[u8; 32]>,
) -> nat {
    field::red(field::le_nat(hashing::sha3_512(gk_input(context, c, cl, ca, cb, gk))) as int)
}

/// Whether every committed bit is a bit.
pub open spec fn bits_hold(
    cl: Seq<nat>,
    ca: Seq<nat>,
    cb: Seq<nat>,
    f: Seq<nat>,
    za: Seq<nat>,
    zb: Seq<nat>,
    x: nat,
) -> bool {
    forall|j: int|
        0 <= j < cl.len() ==> bit_holds(
            #[trigger] cl[j],
            ca[j],
            cb[j],
            f[j],
            za[j],
            zb[j],
            x,
        )
}

/// The two equations of one bit: `x*cl + ca == f*G + za*K` and
/// `(x - f)*cl + cb == zb*K`.
pub open spec fn bit_holds(
    cl: nat,
    ca: nat,
    cb: nat,
    f: nat,
    za: nat,
    zb: nat,
    x: nat,
) -> bool {
    let k = spark_generators::k_log();
    &&& field::plus(field::times(cl, x), ca) == field::plus(
        field::times(1, f),
        field::times(k, za),
    )
    &&& field::plus(field::times(cl, field::minus(x, f)), cb) == field::times(k, zb)
}

/// The sum over the members of the member times its response product, less the lower
/// coefficients times the powers of the challenge.
pub open spec fn combination(c: Seq<nat>, f: Seq<nat>, gk: Seq<nat>, x: nat) -> nat {
    field::red(
        gk_algebra::response_sum(c, f, x as int, f.len(), c.len()) - gk_algebra::power_sum(
            gk,
            x as int,
            f.len(),
        ),
    )
}

/// Whether a one-out-of-many proof holds for these commitments and this context.
pub open spec fn one_of_many_valid(
    proof: GkOneOfManyProof,
    c: Seq<nat>,
    context: Seq<u8>,
) -> bool {
    let x = gk_challenge(context, c, proof.cl@, proof.ca@, proof.cb@, proof.gk@);
    let f = scalar_numbers(proof.f@);
    &&& gk_algebra::is_power_of_two(c.len())
    &&& proof.decode_fault() is None
    &&& gk_algebra::log2(c.len()) == proof.cl@.len()
    &&& bits_hold(
        point_logs(proof.cl@),
        point_logs(proof.ca@),
        point_logs(proof.cb@),
        f,
        scalar_numbers(proof.za@),
        scalar_numbers(proof.zb@),
        x,
    )
    &&& combination(c, f, point_logs(proof.gk@), x) == field::times(
        spark_generators::k_log(),
        field::le_nat(proof.zd@),
    )
}

pub(crate) fn challenge(
    context: &[u8],
    commitments: &[RistrettoPoint],
    cl: &Vec<[u8; 32]>,
    ca: &Vec<[u8; 32]>,
    cb: &Vec<[u8; 32]>,
    gk: &Vec<[u8; 32]>,
) -> (r: Scalar)
    ensures
        r@ == gk_challenge(context@, group::logs(commitments@), cl@, ca@, cb@, gk@),
{
    let mut input: Vec<u8> = Vec::new();
    append_tag(&mut input, "COINCYNC_GK_FS_v1");
    append_u64(&mut input, context.len() as u64);
    append(&mut input, context);
    group::append_encodings(&mut input, commitments);
    bytes::append_flat(&mut input, cl);
    bytes::append_flat(&mut input, ca);
    bytes::append_flat(&mut input, cb);
    bytes::append_flat(&mut input, gk);
    assert(input@ =~= gk_input(context@, group::logs(commitments@), cl@, ca@, cb@, gk@));
    Scalar::from_bytes_mod_order_wide(&hashing::sha3_512_digest(input.as_slice()))
}

/// The number of rounds of a proof over `n` commitments: how often `n` can be halved.
pub fn rounds(n: usize) -> (r: usize)
    ensures
        r == gk_algebra::log2(n as nat),
        r < 64,
{
    let mut k: usize = n;
    let mut m: usize = 0;
    proof {
        lemma_log2_small(n as nat);
    }
    while k > 1
        invariant
            gk_algebra::log2(n as nat) == m + gk_algebra::log2(k as nat),
            gk_algebra::log2(n as nat) < 64,
        decreases k,
    {
        assert(gk_algebra::log2(k as nat) == 1 + gk_algebra::log2((k / 2) as nat));
        k = k / 2;
        m = m + 1;
    }
    m
}

proof fn lemma_log2_small(n: nat)
    requires
        n <= usize::MAX,
    ensures
        gk_algebra::log2(n) < 64,
{
    if n > 0 {
        gk_algebra::lemma_log2_bound(n);
        lemma2_to64();
        if gk_algebra::log2(n) >= 64 {
            if gk_algebra::log2(n) > 64 {
                lemma_pow2_strictly_increases(64, gk_algebra::log2(n));
            }
            assert(false);
        }
    }
}

pub(crate) fn is_power_of_two(n: usize) -> (r: bool)
    ensures
        r == gk_algebra::is_power_of_two(n as nat),
{
    if n == 0 {
        proof {
            lemma2_to64();
        }
        return false;
    }
    let m: usize = rounds(n);
    proof {
        gk_algebra::lemma_log2_bound(n as nat);
        lemma2_to64();
    }
    let mut p: usize = 1;
    let mut i: usize = 0;
    while i < m
        invariant
            i <= m,
            p == pow2(i as nat),
            pow2(m as nat) <= n,
        decreases m - i,
    {
        proof {
            lemma_pow2_unfold((i + 1) as nat);
            if i + 1 < m {
                lemma_pow2_strictly_increases((i + 1) as nat, m as nat);
            }
        }
        p = p * 2;
        i = i + 1;
    }
    p == n
}

/// Bit `j` of a number.
fn bit_of(v: usize, j: usize) -> (r: bool)
    requires
        j < 32,
    ensures
        r == (gk_algebra::bit(v as nat, j as nat) == 1),
{
    let s: usize = v >> j;
    let b: usize = s & 1;
    proof {
        vstd::bits::lemma_usize_shr_is_div(v, j);
        assert(s & 1 == s % 2) by (bit_vector);
    }
    b == 1
}

/// Bit `j` of a number as a scalar.
fn bit_scalar(v: usize, j: usize) -> (r: Scalar)
    requires
        j < 32,
    ensures
        r@ == gk_algebra::bit(v as nat, j as nat),
{
    if bit_of(v, j) {
        Scalar::one()
    } else {
        Scalar::zero()
    }
}

// --- Verifying -----------------------------------------------------------------------

pub(crate) fn bits_ok(
    cl: &Vec<PeerPoint>,
    ca: &Vec<PeerPoint>,
    cb: &Vec<PeerPoint>,
    f: &Vec<PeerScalar>,
    za: &Vec<PeerScalar>,
    zb: &Vec<PeerScalar>,
    x: &Scalar,
) -> (r: bool)
    requires
        ca@.len() == cl@.len(),
        cb@.len() == cl@.len(),
        f@.len() == cl@.len(),
        za@.len() == cl@.len(),
        zb@.len() == cl@.len(),
    ensures
        r == bits_hold(
            peer_logs(cl@),
            peer_logs(ca@),
            peer_logs(cb@),
            peer_values(f@),
            peer_values(za@),
            peer_values(zb@),
            x@,
        ),
{
    let g = gen_g();
    let k = gen_k();
    let ghost lcl = peer_logs(cl@);
    let mut j: usize = 0;
    while j < cl.len()
        invariant
            j <= cl@.len(),
            ca@.len() == cl@.len(),
            cb@.len() == cl@.len(),
            f@.len() == cl@.len(),
            za@.len() == cl@.len(),
            zb@.len() == cl@.len(),
            g@ == 1,
            k@ == spark_generators::k_log(),
            lcl == peer_logs(cl@),
            forall|i: int|
                0 <= i < j ==> bit_holds(
                    #[trigger] lcl[i],
                    ca@[i]@,
                    cb@[i]@,
                    f@[i]@,
                    za@[i]@,
                    zb@[i]@,
                    x@,
                ),
        decreases cl@.len() - j,
    {
        let p = cl[j].as_point();
        let fj = f[j].as_scalar();
        let left = p.mul(x).add(ca[j].as_point());
        let right = g.mul(fj).add(&k.mul(za[j].as_scalar()));
        let left2 = p.mul(&x.sub(fj)).add(cb[j].as_point());
        let right2 = k.mul(zb[j].as_scalar());
        assert(lcl[j as int] == cl@[j as int]@);
        if !left.equals(&right) || !left2.equals(&right2) {
            assert(!bit_holds(
                lcl[j as int],
                ca@[j as int]@,
                cb@[j as int]@,
                f@[j as int]@,
                za@[j as int]@,
                zb@[j as int]@,
                x@,
            ));
            assert(peer_logs(ca@)[j as int] == ca@[j as int]@);
            assert(peer_logs(cb@)[j as int] == cb@[j as int]@);
            assert(peer_values(f@)[j as int] == f@[j as int]@);
            assert(peer_values(za@)[j as int] == za@[j as int]@);
            assert(peer_values(zb@)[j as int] == zb@[j as int]@);
            return false;
        }
        j = j + 1;
    }
    true
}

fn response_product(f: &Vec<PeerScalar>, x: &Scalar, i: usize) -> (r: Scalar)
    requires
        f@.len() <= 20,
    ensures
        r@ == field::red(
            gk_algebra::response_product(peer_values(f@), x@ as int, i as nat, f@.len()),
        ),
{
    let ghost fv = peer_values(f@);
    let mut prod = Scalar::one();
    proof {
        field::lemma_order_positive();
        field::lemma_red_small(1);
    }
    let mut j: usize = 0;
    while j < f.len()
        invariant
            j <= f@.len() <= 20,
            fv == peer_values(f@),
            prod@ == field::red(
                gk_algebra::response_product(fv, x@ as int, i as nat, j as nat),
            ),
        decreases f@.len() - j,
    {
        let fj = f[j].as_scalar();
        assert(fv[j as int] == fj@);
        let factor = if bit_of(i, j) {
            *fj
        } else {
            x.sub(fj)
        };
        let ghost p = gk_algebra::response_product(fv, x@ as int, i as nat, j as nat);
        proof {
            if gk_algebra::bit(i as nat, j as nat) == 1 {
                field::lemma_times_left(p, factor@);
            } else {
                field::lemma_mul_red(p, x@ - fj@);
            }
        }
        prod = prod.mul(&factor);
        j = j + 1;
    }
    prod
}

/// The left-hand side of the one-out-of-many equation.
pub(crate) fn combine(
    commitments: &[RistrettoPoint],
    f: &Vec<PeerScalar>,
    gk: &Vec<PeerPoint>,
    x: &Scalar,
) -> (r: RistrettoPoint)
    requires
        f@.len() <= 20,
        gk@.len() == f@.len(),
    ensures
        r@ == combination(group::logs(commitments@), peer_values(f@), peer_logs(gk@), x@),
{
    let ghost c = group::logs(commitments@);
    let ghost fv = peer_values(f@);
    let ghost gv = peer_logs(gk@);
    let ghost xv = x@ as int;
    let ghost m = f@.len();
    let mut sum = RistrettoPoint::identity();
    proof {
        field::lemma_order_positive();
        field::lemma_red_small(0);
    }
    let mut i: usize = 0;
    while i < commitments.len()
        invariant
            i <= commitments@.len(),
            f@.len() <= 20,
            m == f@.len(),
            c == group::logs(commitments@),
            fv == peer_values(f@),
            xv == x@,
            sum@ == field::red(gk_algebra::response_sum(c, fv, xv, m, i as nat)),
        decreases commitments@.len() - i,
    {
        let prod = response_product(f, x, i);
        let term = commitments[i].mul(&prod);
        proof {
            let p = gk_algebra::response_product(fv, xv, i as nat, m);
            assert(c[i as int] == commitments@[i as int]@);
            field::lemma_times_right(c[i as int], p);
            field::lemma_add_red(
                gk_algebra::response_sum(c, fv, xv, m, i as nat),
                c[i as int] * p,
            );
        }
        sum = sum.add(&term);
        i = i + 1;
    }
    let ghost total = gk_algebra::response_sum(c, fv, xv, m, c.len());
    let mut x_pow = Scalar::one();
    proof {
        field::lemma_red_small(1);
    }
    let mut k: usize = 0;
    while k < gk.len()
        invariant
            k <= gk@.len(),
            gv == peer_logs(gk@),
            xv == x@,
            x_pow@ == field::red(gk_algebra::ipow(xv, k as nat)),
            sum@ == field::red(total - gk_algebra::power_sum(gv, xv, k as nat)),
        decreases gk@.len() - k,
    {
        let term = gk[k].as_point().mul(&x_pow);
        proof {
            let p = gk_algebra::ipow(xv, k as nat);
            assert(gv[k as int] == gk@[k as int]@);
            field::lemma_times_right(gv[k as int], p);
            field::lemma_sub_red(
                total - gk_algebra::power_sum(gv, xv, k as nat),
                gv[k as int] * p,
            );
            field::lemma_times_left(p, x@);
        }
        sum = sum.sub(&term);
        x_pow = x_pow.mul(x);
        k = k + 1;
    }
    sum
}

/// Checks a one-out-of-many proof without a context.
pub fn verify_one_of_many(commitments: &[RistrettoPoint], proof: &GkOneOfManyProof) -> (r: Result<
    (),
>)
    ensures
        match r {
            Ok(_) => one_of_many_valid(*proof, group::logs(commitments@), Seq::empty()),
            Err(e) => is_verify_error(e, *proof, group::logs(commitments@), Seq::empty()),
        },
{
    let empty: Vec<u8> = Vec::new();
    assert(empty@ =~= Seq::<u8>::empty());
    verify_one_of_many_ctx(commitments, proof, empty.as_slice())
}

/// The refusal of a one-out-of-many proof: a set size that is no power of two, then the
/// refusal of the decoder, then an equation that fails.
pub open spec fn is_verify_error(
    e: Error,
    proof: GkOneOfManyProof,
    c: Seq<nat>,
    context: Seq<u8>,
) -> bool {
    if !gk_algebra::is_power_of_two(c.len()) {
        e is SparkVerifyFailed
    } else {
        match proof.decode_fault() {
            Some(text) => error::is_crypto(e, text),
            None => e is SparkVerifyFailed && !one_of_many_valid(proof, c, context),
        }
    }
}

/// Checks a one-out-of-many proof with the context that was bound into it.
pub fn verify_one_of_many_ctx(
    commitments: &[RistrettoPoint],
    proof: &GkOneOfManyProof,
    context: &[u8],
) -> (r: Result<()>)
    ensures
        match r {
            Ok(_) => one_of_many_valid(*proof, group::logs(commitments@), context@),
            Err(e) => is_verify_error(e, *proof, group::logs(commitments@), context@),
        },
{
    let n: usize = commitments.len();
    if !is_power_of_two(n) {
        return Err(Error::SparkVerifyFailed);
    }
    let m: usize = rounds(n);
    let d = proof.decode()?;
    proof {
        lemma_decoded_lengths(*proof, d);
    }
    if d.m != m {
        return Err(Error::SparkVerifyFailed);
    }
    let x = challenge(context, commitments, &proof.cl, &proof.ca, &proof.cb, &proof.gk);
    if !bits_ok(&d.cl, &d.ca, &d.cb, &d.f, &d.za, &d.zb, &x) {
        return Err(Error::SparkVerifyFailed);
    }
    let left = combine(commitments, &d.f, &d.gk, &x);
    let right = gen_k().mul(d.zd.as_scalar());
    if !left.equals(&right) {
        return Err(Error::SparkVerifyFailed);
    }
    Ok(())
}

proof fn lemma_decoded_lengths(p: GkOneOfManyProof, d: DecodedGkProof)
    requires
        p.decode_fault() is None,
        p.decodes_to(d),
    ensures
        1 <= d.m <= 20,
        d.cl@.len() == d.m,
        d.ca@.len() == d.m,
        d.cb@.len() == d.m,
        d.gk@.len() == d.m,
        d.f@.len() == d.m,
        d.za@.len() == d.m,
        d.zb@.len() == d.m,
{
    assert(peer_logs(d.cl@).len() == point_logs(p.cl@).len());
    assert(peer_logs(d.ca@).len() == point_logs(p.ca@).len());
    assert(peer_logs(d.cb@).len() == point_logs(p.cb@).len());
    assert(peer_logs(d.gk@).len() == point_logs(p.gk@).len());
    assert(peer_values(d.f@).len() == scalar_numbers(p.f@).len());
    assert(peer_values(d.za@).len() == scalar_numbers(p.za@).len());
    assert(peer_values(d.zb@).len() == scalar_numbers(p.zb@).len());
}

// --- Proving -------------------------------------------------------------------------

/// Every fourth nonce from `start` on: the masks start at 0, the randomness of the three
/// bit commitments at 1, 2 and 3.
pub open spec fn quarter(nonces: Seq<nat>, start: int, m: nat) -> Seq<nat> {
    Seq::new(m, |j: int| nonces[4 * j + start])
}

/// A run of nonces.
pub open spec fn run(nonces: Seq<nat>, start: int, m: nat) -> Seq<nat> {
    Seq::new(m, |j: int| nonces[start + j])
}

/// Whether the three vectors commit to the bits of `own`, to the masks, and to the
/// products of bits and masks.
pub open spec fn commits_to_bits(
    cl: Seq<[u8; 32]>,
    ca: Seq<[u8; 32]>,
    cb: Seq<[u8; 32]>,
    own: nat,
    nonces: Seq<nat>,
    m: nat,
) -> bool {
    &&& cl.len() == m
    &&& ca.len() == m
    &&& cb.len() == m
    &&& forall|j: int|
        0 <= j < m ==> group::encodes(
            (#[trigger] cl[j])@,
            com(gk_algebra::bit(own, j as nat) as nat, nonces[4 * j + 1]),
        )
    &&& forall|j: int|
        0 <= j < m ==> group::encodes(
            (#[trigger] ca[j])@,
            com(nonces[4 * j], nonces[4 * j + 2]),
        )
    &&& forall|j: int|
        0 <= j < m ==> group::encodes(
            (#[trigger] cb[j])@,
            com(
                field::times(gk_algebra::bit(own, j as nat) as nat, nonces[4 * j]),
                nonces[4 * j + 3],
            ),
        )
}

/// The response for bit `j`.
pub open spec fn bit_response(own: nat, nonces: Seq<nat>, x: nat, j: int) -> nat {
    field::red(gk_algebra::bit(own, j as nat) * x + nonces[4 * j])
}

/// Whether the three vectors hold the responses for the bits.
pub open spec fn responds_to_bits(
    f: Seq<[u8; 32]>,
    za: Seq<[u8; 32]>,
    zb: Seq<[u8; 32]>,
    own: nat,
    nonces: Seq<nat>,
    x: nat,
    m: nat,
) -> bool {
    &&& f.len() == m
    &&& za.len() == m
    &&& zb.len() == m
    &&& forall|j: int|
        0 <= j < m ==> (#[trigger] f[j])@ == field::scalar_bytes(bit_response(own, nonces, x, j))
    &&& forall|j: int|
        0 <= j < m ==> (#[trigger] za[j])@ == field::scalar_bytes(
            field::plus(field::times(nonces[4 * j + 1], x), nonces[4 * j + 2]),
        )
    &&& forall|j: int|
        0 <= j < m ==> (#[trigger] zb[j])@ == field::scalar_bytes(
            field::plus(
                field::times(
                    nonces[4 * j + 1],
                    field::minus(x, bit_response(own, nonces, x, j)),
                ),
                nonces[4 * j + 3],
            ),
        )
}

/// Whether `proof` is the proof that these nonces give: four for each bit, then one for
/// each lower coefficient.
pub open spec fn is_one_of_many_proof(
    proof: GkOneOfManyProof,
    c: Seq<nat>,
    own: nat,
    r: nat,
    context: Seq<u8>,
    nonces: Seq<nat>,
) -> bool {
    let m = gk_algebra::log2(c.len());
    let a = quarter(nonces, 0, m);
    let rho = run(nonces, 4 * m as int, m);
    let x = gk_challenge(context, c, proof.cl@, proof.ca@, proof.cb@, proof.gk@);
    &&& commits_to_bits(proof.cl@, proof.ca@, proof.cb@, own, nonces, m)
    &&& proof.gk@.len() == m
    &&& forall|k: int|
        0 <= k < m ==> group::encodes(
            (#[trigger] proof.gk@[k])@,
            field::red(
                gk_algebra::column_sum(c, own, a, m, k, c.len()) + spark_generators::k_log()
                    * rho[k],
            ),
        )
    &&& responds_to_bits(proof.f@, proof.za@, proof.zb@, own, nonces, x, m)
    &&& proof.zd@ == field::scalar_bytes(
        field::red(
            r * gk_algebra::ipow(x as int, m) - gk_algebra::power_sum(rho, x as int, m),
        ),
    )
}

pub(crate) fn pick(nonces: &[Scalar], start: usize, stride: usize, count: usize) -> (r: Vec<Scalar>)
    requires
        stride <= 4,
        count <= 20,
        start <= 200,
        count > 0 ==> start + stride * (count - 1) < nonces@.len(),
    ensures
        group::values(r@) == Seq::new(
            count as nat,
            |j: int| group::values(nonces@)[start + stride * j],
        ),
        r@.len() == count,
{
    let mut out: Vec<Scalar> = Vec::new();
    let mut j: usize = 0;
    while j < count
        invariant
            j <= count <= 20,
            stride <= 4,
            start <= 200,
            count > 0 ==> start + stride * (count - 1) < nonces@.len(),
            out@.len() == j,
            forall|i: int|
                0 <= i < j ==> (#[trigger] out@[i])@ == group::values(nonces@)[start + stride * i],
        decreases count - j,
    {
        assert(stride * j <= stride * (count - 1)) by (nonlinear_arith)
            requires
                j <= count - 1,
                stride >= 0,
        ;
        assert(stride * j <= 80) by (nonlinear_arith)
            requires
                0 <= j <= 20,
                0 <= stride <= 4,
        ;
        let at: usize = start + stride * j;
        out.push(nonces[at]);
        j = j + 1;
    }
    assert(group::values(out@) =~= Seq::new(
        count as nat,
        |j: int| group::values(nonces@)[start + stride * j],
    ));
    out
}

pub(crate) fn commit_bits(own: usize, nonces: &[Scalar], m: usize) -> (r: (
    Vec<[u8; 32]>,
    Vec<[u8; 32]>,
    Vec<[u8; 32]>,
))
    requires
        m <= 20,
        nonces@.len() >= 4 * m,
    ensures
        commits_to_bits(
            r.0@,
            r.1@,
            r.2@,
            own as nat,
            group::values(nonces@),
            m as nat,
        ),
{
    let ghost nv = group::values(nonces@);
    let mut cl: Vec<[u8; 32]> = Vec::new();
    let mut ca: Vec<[u8; 32]> = Vec::new();
    let mut cb: Vec<[u8; 32]> = Vec::new();
    let mut j: usize = 0;
    while j < m
        invariant
            j <= m <= 20,
            nonces@.len() >= 4 * m,
            nv == group::values(nonces@),
            commits_to_bits(cl@, ca@, cb@, own as nat, nv, j as nat),
        decreases m - j,
    {
        let l = bit_scalar(own, j);
        let a = nonces[4 * j];
        let rj = nonces[4 * j + 1];
        let s = nonces[4 * j + 2];
        let t = nonces[4 * j + 3];
        cl.push(commit(&l, &rj).compress());
        ca.push(commit(&a, &s).compress());
        cb.push(commit(&l.mul(&a), &t).compress());
        j = j + 1;
    }
    (cl, ca, cb)
}

pub(crate) fn respond_to_bits(own: usize, nonces: &[Scalar], x: &Scalar, m: usize) -> (r: (
    Vec<[u8; 32]>,
    Vec<[u8; 32]>,
    Vec<[u8; 32]>,
))
    requires
        m <= 20,
        nonces@.len() >= 4 * m,
    ensures
        responds_to_bits(
            r.0@,
            r.1@,
            r.2@,
            own as nat,
            group::values(nonces@),
            x@,
            m as nat,
        ),
{
    let ghost nv = group::values(nonces@);
    let mut f: Vec<[u8; 32]> = Vec::new();
    let mut za: Vec<[u8; 32]> = Vec::new();
    let mut zb: Vec<[u8; 32]> = Vec::new();
    let mut j: usize = 0;
    while j < m
        invariant
            j <= m <= 20,
            nonces@.len() >= 4 * m,
            nv == group::values(nonces@),
            responds_to_bits(f@, za@, zb@, own as nat, nv, x@, j as nat),
        decreases m - j,
    {
        let l = bit_scalar(own, j);
        let a = nonces[4 * j];
        let rj = nonces[4 * j + 1];
        let s = nonces[4 * j + 2];
        let t = nonces[4 * j + 3];
        let fj = l.mul(x).add(&a);
        proof {
            field::lemma_plus_left((l@ * x@) as int, a@);
            assert(fj@ == bit_response(own as nat, nv, x@, j as int));
        }
        f.push(fj.to_bytes());
        za.push(rj.mul(x).add(&s).to_bytes());
        zb.push(rj.mul(&x.sub(&fj)).add(&t).to_bytes());
        j = j + 1;
    }
    (f, za, zb)
}

/// Multiplies a polynomial, lowest coefficient first, by `c0 + c1*x`.
fn poly_mul_linear(poly: &Vec<Scalar>, c0: &Scalar, c1: &Scalar) -> (r: Vec<Scalar>)
    requires
        0 < poly@.len() <= 20,
    ensures
        r@.len() == poly@.len() + 1,
        r@[0]@ == field::times(poly@[0]@, c0@),
        r@[poly@.len() as int]@ == field::times(poly@[poly@.len() - 1]@, c1@),
        forall|k: int|
            0 < k < poly@.len() ==> (#[trigger] r@[k])@ == field::plus(
                field::times(poly@[k]@, c0@),
                field::times(poly@[k - 1]@, c1@),
            ),
{
    let n: usize = poly.len();
    let mut out: Vec<Scalar> = Vec::new();
    out.push(poly[0].mul(c0));
    let mut k: usize = 1;
    while k < n
        invariant
            1 <= k <= n,
            n == poly@.len(),
            out@.len() == k,
            out@[0]@ == field::times(poly@[0]@, c0@),
            forall|i: int|
                0 < i < k ==> (#[trigger] out@[i])@ == field::plus(
                    field::times(poly@[i]@, c0@),
                    field::times(poly@[i - 1]@, c1@),
                ),
        decreases n - k,
    {
        out.push(poly[k].mul(c0).add(&poly[k - 1].mul(c1)));
        k = k + 1;
    }
    out.push(poly[n - 1].mul(c1));
    out
}

/// The coefficients of the polynomial of index `i`, lowest first.
fn polynomial(own: usize, a: &Vec<Scalar>, i: usize) -> (r: Vec<Scalar>)
    requires
        a@.len() <= 20,
    ensures
        r@.len() == a@.len() + 1,
        forall|k: int|
            0 <= k < r@.len() ==> (#[trigger] r@[k])@ == field::red(
                gk_algebra::coeff(own as nat, group::values(a@), i as nat, a@.len(), k),
            ),
{
    let ghost av = group::values(a@);
    let one = Scalar::one();
    let mut poly: Vec<Scalar> = Vec::new();
    poly.push(one);
    proof {
        field::lemma_order_positive();
        field::lemma_red_small(1);
    }
    let mut j: usize = 0;
    while j < a.len()
        invariant
            j <= a@.len() <= 20,
            one@ == 1,
            av == group::values(a@),
            poly@.len() == j + 1,
            forall|k: int|
                0 <= k < poly@.len() ==> (#[trigger] poly@[k])@ == field::red(
                    gk_algebra::coeff(own as nat, av, i as nat, j as nat, k),
                ),
        decreases a@.len() - j,
    {
        let l = bit_scalar(own, j);
        let set = bit_of(i, j);
        let c0 = if set {
            a[j]
        } else {
            a[j].neg()
        };
        let c1 = if set {
            l
        } else {
            one.sub(&l)
        };
        let ghost t0 = gk_algebra::constant_term(av, i as nat, j as nat);
        let ghost t1 = gk_algebra::linear_term(own as nat, i as nat, j as nat);
        proof {
            group::lemma_scalar_range(a@[j as int]);
            group::lemma_scalar_range(l);
            field::lemma_red_small(a@[j as int]@);
            field::lemma_red_small(l@);
            assert(av[j as int] == a@[j as int]@);
            assert(c0@ == field::red(t0));
            assert(c1@ == field::red(t1));
        }
        let next = poly_mul_linear(&poly, &c0, &c1);
        assert forall|k: int| 0 <= k < next@.len() implies (#[trigger] next@[k])@ == field::red(
            gk_algebra::coeff(own as nat, av, i as nat, (j + 1) as nat, k),
        ) by {
            let lo = gk_algebra::coeff(own as nat, av, i as nat, j as nat, k);
            let hi = gk_algebra::coeff(own as nat, av, i as nat, j as nat, k - 1);
            field::lemma_mul_red(lo, t0);
            field::lemma_mul_red(hi, t1);
            field::lemma_add_red(lo * t0, hi * t1);
            assert(0 * t0 == 0 && 0 * t1 == 0) by (nonlinear_arith);
            if k == 0 {
                gk_algebra::lemma_coeff_outside(own as nat, av, i as nat, j as nat, -1);
                assert(poly@[0]@ == field::red(lo));
            } else if k == j + 1 {
                gk_algebra::lemma_coeff_outside(own as nat, av, i as nat, j as nat, k);
                assert(poly@[k - 1]@ == field::red(hi));
            } else {
                assert(poly@[k]@ == field::red(lo));
                assert(poly@[k - 1]@ == field::red(hi));
            }
        }
        poly = next;
        j = j + 1;
    }
    poly
}

/// The sums over the members of the member times its coefficient, for each lower power.
pub(crate) fn coefficient_sums(commitments: &[RistrettoPoint], own: usize, a: &Vec<Scalar>) -> (r: Vec<
    RistrettoPoint,
>)
    requires
        a@.len() <= 20,
    ensures
        r@.len() == a@.len(),
        forall|k: int|
            0 <= k < r@.len() ==> (#[trigger] r@[k])@ == field::red(
                gk_algebra::column_sum(
                    group::logs(commitments@),
                    own as nat,
                    group::values(a@),
                    a@.len(),
                    k,
                    commitments@.len(),
                ),
            ),
{
    let ghost c = group::logs(commitments@);
    let ghost av = group::values(a@);
    let ghost m = a@.len();
    let zero = RistrettoPoint::identity();
    let mut sums: Vec<RistrettoPoint> = Vec::new();
    let mut k: usize = 0;
    proof {
        field::lemma_order_positive();
        field::lemma_red_small(0);
    }
    while k < a.len()
        invariant
            k <= a@.len(),
            zero@ == 0,
            sums@.len() == k,
            forall|i: int| 0 <= i < k ==> (#[trigger] sums@[i])@ == 0,
        decreases a@.len() - k,
    {
        sums.push(zero);
        k = k + 1;
    }
    let mut i: usize = 0;
    while i < commitments.len()
        invariant
            i <= commitments@.len(),
            m == a@.len(),
            m <= 20,
            c == group::logs(commitments@),
            av == group::values(a@),
            sums@.len() == m,
            forall|k: int|
                0 <= k < m ==> (#[trigger] sums@[k])@ == field::red(
                    gk_algebra::column_sum(c, own as nat, av, m, k, i as nat),
                ),
        decreases commitments@.len() - i,
    {
        let poly = polynomial(own, a, i);
        let ghost before = sums@;
        let mut k: usize = 0;
        while k < a.len()
            invariant
                k <= a@.len(),
                i < commitments@.len(),
                m == a@.len(),
                c == group::logs(commitments@),
                av == group::values(a@),
                poly@.len() == m + 1,
                forall|k: int|
                    0 <= k < poly@.len() ==> (#[trigger] poly@[k])@ == field::red(
                        gk_algebra::coeff(own as nat, av, i as nat, m, k),
                    ),
                before.len() == m,
                forall|k: int|
                    0 <= k < m ==> (#[trigger] before[k])@ == field::red(
                        gk_algebra::column_sum(c, own as nat, av, m, k, i as nat),
                    ),
                sums@.len() == m,
                forall|q: int|
                    0 <= q < k ==> (#[trigger] sums@[q])@ == field::red(
                        gk_algebra::column_sum(c, own as nat, av, m, q, (i + 1) as nat),
                    ),
                forall|q: int| k <= q < m ==> #[trigger] sums@[q] == before[q],
            decreases a@.len() - k,
        {
            let term = commitments[i].mul(&poly[k]);
            let next = sums[k].add(&term);
            proof {
                let co = gk_algebra::coeff(own as nat, av, i as nat, m, k as int);
                let col = gk_algebra::column_sum(c, own as nat, av, m, k as int, i as nat);
                assert(c[i as int] == commitments@[i as int]@);
                assert(poly@[k as int]@ == field::red(co));
                assert(sums@[k as int] == before[k as int]);
                field::lemma_times_right(c[i as int], co);
                field::lemma_add_red(col, c[i as int] * co);
            }
            let ghost old_sums = sums@;
            sums[k] = next;
            assert(sums@ == old_sums.update(k as int, next));
            k = k + 1;
        }
        i = i + 1;
    }
    sums
}

/// The sum of `rho[k] * x^k`, and the power of `x` after the last.
fn power_sums(rho: &Vec<Scalar>, x: &Scalar) -> (r: (Scalar, Scalar))
    ensures
        r.0@ == field::red(
            gk_algebra::power_sum(group::values(rho@), x@ as int, rho@.len()),
        ),
        r.1@ == field::red(gk_algebra::ipow(x@ as int, rho@.len())),
{
    let ghost rv = group::values(rho@);
    let ghost xv = x@ as int;
    let mut x_pow = Scalar::one();
    let mut sum = Scalar::zero();
    proof {
        field::lemma_order_positive();
        field::lemma_red_small(1);
        field::lemma_red_small(0);
    }
    let mut k: usize = 0;
    while k < rho.len()
        invariant
            k <= rho@.len(),
            rv == group::values(rho@),
            xv == x@,
            sum@ == field::red(gk_algebra::power_sum(rv, xv, k as nat)),
            x_pow@ == field::red(gk_algebra::ipow(xv, k as nat)),
        decreases rho@.len() - k,
    {
        proof {
            let p = gk_algebra::ipow(xv, k as nat);
            assert(rv[k as int] == rho@[k as int]@);
            field::lemma_times_right(rv[k as int], p);
            field::lemma_add_red(gk_algebra::power_sum(rv, xv, k as nat), rv[k as int] * p);
            field::lemma_times_left(p, x@);
        }
        sum = sum.add(&rho[k].mul(&x_pow));
        x_pow = x_pow.mul(x);
        k = k + 1;
    }
    (sum, x_pow)
}

/// The response `w * x^m - sum of rho[k] * x^k`.
pub(crate) fn final_response(w: &Scalar, rho: &Vec<Scalar>, x: &Scalar) -> (r: Scalar)
    ensures
        r@ == field::red(
            w@ * gk_algebra::ipow(x@ as int, rho@.len()) - gk_algebra::power_sum(
                group::values(rho@),
                x@ as int,
                rho@.len(),
            ),
        ),
{
    let (sum, x_pow) = power_sums(rho, x);
    proof {
        let p = gk_algebra::ipow(x@ as int, rho@.len());
        field::lemma_times_right(w@, p);
        field::lemma_sub_red(
            w@ * p,
            gk_algebra::power_sum(group::values(rho@), x@ as int, rho@.len()),
        );
    }
    w.mul(&x_pow).sub(&sum)
}

/// The refusal of the statement of a prover, if there is one.
pub open spec fn statement_fault(n: nat, own: int, prefix: Seq<char>, size: Seq<char>) -> Option<
    Seq<char>,
> {
    if !gk_algebra::is_power_of_two(n) {
        Some(prefix + size)
    } else if gk_algebra::log2(n) == 0 || gk_algebra::log2(n) > MAX_GK_ROUNDS {
        Some(prefix + ": rounds out of range"@)
    } else if own >= n {
        Some(prefix + ": index out of range"@)
    } else {
        None
    }
}

pub(crate) fn check_statement(n: usize, own: usize, prefix: &str, size: &str) -> (r: Result<usize>)
    ensures
        match r {
            Ok(m) => statement_fault(n as nat, own as int, prefix@, size@) is None && m
                == gk_algebra::log2(n as nat) && 1 <= m <= 20 && own < n,
            Err(e) => match statement_fault(n as nat, own as int, prefix@, size@) {
                Some(text) => error::is_crypto(e, text),
                None => false,
            },
        },
{
    let mut s: String = prefix.to_owned();
    if !is_power_of_two(n) {
        text::push_text(&mut s, size);
        return Err(Error::CryptoError(s));
    }
    let m: usize = rounds(n);
    if m == 0 || m > MAX_GK_ROUNDS {
        text::push_text(&mut s, ": rounds out of range");
        return Err(Error::CryptoError(s));
    }
    if own >= n {
        text::push_text(&mut s, ": index out of range");
        return Err(Error::CryptoError(s));
    }
    Ok(m)
}

/// The refusal of the statement of [`prove_one_of_many_ctx`], if there is one.
pub open spec fn prove_fault(n: nat, own: int) -> Option<Seq<char>> {
    statement_fault(n, own, "GK"@, ": commitment set size must be a power of two >= 1"@)
}

/// Whether no point of a proof is the neutral element.
pub open spec fn all_points_usable(
    cl: Seq<[u8; 32]>,
    ca: Seq<[u8; 32]>,
    cb: Seq<[u8; 32]>,
    gk: Seq<[u8; 32]>,
) -> bool {
    &&& forall|j: int| 0 <= j < cl.len() ==> group::ristretto_log((#[trigger] cl[j])@) != Some(0nat)
    &&& forall|j: int| 0 <= j < ca.len() ==> group::ristretto_log((#[trigger] ca[j])@) != Some(0nat)
    &&& forall|j: int| 0 <= j < cb.len() ==> group::ristretto_log((#[trigger] cb[j])@) != Some(0nat)
    &&& forall|j: int| 0 <= j < gk.len() ==> group::ristretto_log((#[trigger] gk[j])@) != Some(0nat)
}

/// Proves that the commitment at `l` is `r*K`, without a context. The nonces are fresh
/// random scalars, five for each round.
pub fn prove_one_of_many(
    commitments: &[RistrettoPoint],
    l: usize,
    r: &Scalar,
    nonces: &[Scalar],
) -> (res: Result<GkOneOfManyProof>)
    requires
        nonces@.len() >= 5 * gk_algebra::log2(commitments@.len()),
    ensures
        match res {
            Ok(proof) => {
                &&& prove_fault(commitments@.len(), l as int) is None
                &&& is_one_of_many_proof(
                    proof,
                    group::logs(commitments@),
                    l as nat,
                    r@,
                    Seq::empty(),
                    group::values(nonces@),
                )
                &&& commitments@[l as int]@ == field::times(spark_generators::k_log(), r@)
                    && all_points_usable(proof.cl@, proof.ca@, proof.cb@, proof.gk@)
                    ==> one_of_many_valid(proof, group::logs(commitments@), Seq::empty())
            },
            Err(e) => match prove_fault(commitments@.len(), l as int) {
                Some(text) => error::is_crypto(e, text),
                None => false,
            },
        },
{
    let empty: Vec<u8> = Vec::new();
    assert(empty@ =~= Seq::<u8>::empty());
    prove_one_of_many_ctx(commitments, l, r, empty.as_slice(), nonces)
}

/// Proves that the commitment at `l` is `r*K`, without saying which it is, and binds a
/// context into the proof. The nonces are fresh random scalars, five for each round.
pub fn prove_one_of_many_ctx(
    commitments: &[RistrettoPoint],
    l: usize,
    r: &Scalar,
    context: &[u8],
    nonces: &[Scalar],
) -> (res: Result<GkOneOfManyProof>)
    requires
        nonces@.len() >= 5 * gk_algebra::log2(commitments@.len()),
    ensures
        match res {
            Ok(proof) => {
                &&& prove_fault(commitments@.len(), l as int) is None
                &&& is_one_of_many_proof(
                    proof,
                    group::logs(commitments@),
                    l as nat,
                    r@,
                    context@,
                    group::values(nonces@),
                )
                &&& commitments@[l as int]@ == field::times(spark_generators::k_log(), r@)
                    && all_points_usable(proof.cl@, proof.ca@, proof.cb@, proof.gk@)
                    ==> one_of_many_valid(proof, group::logs(commitments@), context@)
            },
            Err(e) => match prove_fault(commitments@.len(), l as int) {
                Some(text) => error::is_crypto(e, text),
                None => false,
            },
        },
{
    let n: usize = commitments.len();
    let m: usize = match check_statement(
        n,
        l,
        "GK",
        ": commitment set size must be a power of two >= 1",
    ) {
        Ok(m) => m,
        Err(e) => {
            return Err(e);
        },
    };
    let ghost nv = group::values(nonces@);
    let ghost c = group::logs(commitments@);
    let a = pick(nonces, 0, 4, m);
    let rho = pick(nonces, 4 * m, 1, m);
    assert(group::values(a@) =~= quarter(nv, 0, m as nat));
    assert(group::values(rho@) =~= run(nv, 4 * m as int, m as nat));
    let (cl, ca, cb) = commit_bits(l, nonces, m);
    let sums = coefficient_sums(commitments, l, &a);
    let gk = blind_sums(&sums, &rho);
    assert forall|k: int| 0 <= k < m implies group::encodes(
        (#[trigger] gk@[k])@,
        field::red(
            gk_algebra::column_sum(
                c,
                l as nat,
                quarter(nv, 0, m as nat),
                m as nat,
                k,
                c.len(),
            ) + spark_generators::k_log() * run(nv, 4 * m as int, m as nat)[k],
        ),
    ) by {
        let col = gk_algebra::column_sum(
            c,
            l as nat,
            quarter(nv, 0, m as nat),
            m as nat,
            k,
            c.len(),
        );
        assert(sums@[k]@ == field::red(col));
        assert(rho@[k]@ == group::values(rho@)[k]);
        field::lemma_add_red(col, (spark_generators::k_log() * rho@[k]@) as int);
    }
    let x = challenge(context, commitments, &cl, &ca, &cb, &gk);
    let (f, za, zb) = respond_to_bits(l, nonces, &x, m);
    let zd = final_response(r, &rho, &x).to_bytes();
    let proof = GkOneOfManyProof { cl, ca, cb, gk, f, za, zb, zd };
    proof {
        if commitments@[l as int]@ == field::times(spark_generators::k_log(), r@)
            && all_points_usable(proof.cl@, proof.ca@, proof.cb@, proof.gk@) {
            group::lemma_values_range(nonces@);
            law_one_of_many_completeness(proof, c, l as nat, r@, context@, nv);
        }
    }
    Ok(proof)
}

/// Adds `rho[k]*K` to each sum and encodes it.
fn blind_sums(sums: &Vec<RistrettoPoint>, rho: &Vec<Scalar>) -> (r: Vec<[u8; 32]>)
    requires
        sums@.len() == rho@.len(),
    ensures
        r@.len() == sums@.len(),
        forall|k: int|
            0 <= k < r@.len() ==> group::encodes(
                (#[trigger] r@[k])@,
                field::plus(
                    sums@[k]@,
                    field::times(spark_generators::k_log(), rho@[k]@),
                ),
            ),
{
    let g = gen_k();
    let mut out: Vec<[u8; 32]> = Vec::new();
    let mut k: usize = 0;
    while k < sums.len()
        invariant
            k <= sums@.len(),
            sums@.len() == rho@.len(),
            g@ == spark_generators::k_log(),
            out@.len() == k,
            forall|i: int|
                0 <= i < k ==> group::encodes(
                    (#[trigger] out@[i])@,
                    field::plus(
                        sums@[i]@,
                        field::times(spark_generators::k_log(), rho@[i]@),
                    ),
                ),
        decreases sums@.len() - k,
    {
        out.push(sums[k].add(&g.mul(&rho[k])).compress());
        k = k + 1;
    }
    out
}

// --- Laws ----------------------------------------------------------------------------

/// The two equations of a bit hold for an honest prover.
proof fn lemma_honest_bit(b: int, a: nat, r: nat, s: nat, t: nat, x: nat)
    requires
        b == 0 || b == 1,
    ensures
        ({
            let f = field::red(b * x + a);
            bit_holds(
                com(b as nat, r),
                com(a, s),
                com(field::times(b as nat, a), t),
                f,
                field::plus(field::times(r, x), s),
                field::plus(field::times(r, field::minus(x, f)), t),
                x,
            )
        }),
{
    broadcast use field::group_field;

    let k = spark_generators::k_log() as int;
    let f = field::red(b * x + a);
    let bn = b as nat;
    let cl = 1 * b + k * r;
    let ca = 1 * a + k * s;
    assert(com(bn, r) == field::red(cl));
    assert(com(a, s) == field::red(ca));
    assert(field::times(bn, a) == field::red(b * a));
    assert(com(field::times(bn, a), t) == field::red(1 * (b * a) + k * t)) by {
        assert(field::times(1, field::red(b * a)) == field::red(1 * (b * a)));
    }
    assert(field::times(field::red(cl), x) == field::red(cl * x));
    assert(field::plus(field::red(cl * x), field::red(ca)) == field::red(cl * x + ca));
    assert(field::times(1, f) == field::red(1 * (b * x + a)));
    let za = field::plus(field::times(r, x), s);
    assert(za == field::red((r * x + s) as int));
    assert(field::times(k as nat, za) == field::red(k * (r * x + s)));
    assert(cl * x + ca == 1 * (b * x + a) + k * (r * x + s)) by (nonlinear_arith)
        requires
            cl == 1 * b + k * r,
            ca == 1 * a + k * s,
    ;
    let d = x - (b * x + a);
    assert(field::minus(x, f) == field::red(d));
    assert(field::times(field::red(cl), field::red(d)) == field::red(cl * d));
    let zb = field::plus(field::times(r, field::red(d)), t);
    assert(field::times(r, field::red(d)) == field::red(r * d));
    assert(zb == field::red(r * d + t));
    assert(field::times(k as nat, zb) == field::red(k * (r * d + t)));
    assert(cl * d + (1 * (b * a) + k * t) == k * (r * d + t)) by {
        if b == 0 {
            assert(cl * d + (1 * (b * a) + k * t) == k * (r * d + t)) by (nonlinear_arith)
                requires
                    b == 0,
                    cl == 1 * b + k * r,
            ;
        } else {
            assert(cl * d + (1 * (b * a) + k * t) == k * (r * d + t)) by (nonlinear_arith)
                requires
                    b == 1,
                    cl == 1 * b + k * r,
                    d == x - (b * x + a),
            ;
        }
    }
}

/// The bit part of an honest proof decodes and holds.
pub proof fn lemma_honest_bits(
    cl: Seq<[u8; 32]>,
    ca: Seq<[u8; 32]>,
    cb: Seq<[u8; 32]>,
    f: Seq<[u8; 32]>,
    za: Seq<[u8; 32]>,
    zb: Seq<[u8; 32]>,
    own: nat,
    nonces: Seq<nat>,
    x: nat,
    m: nat,
)
    requires
        commits_to_bits(cl, ca, cb, own, nonces, m),
        responds_to_bits(f, za, zb, own, nonces, x, m),
    ensures
        scalars_fault(f, 0) is None,
        scalars_fault(za, 0) is None,
        scalars_fault(zb, 0) is None,
        forall|j: int|
            0 <= j < m ==> #[trigger] scalar_numbers(f)[j] == bit_response(own, nonces, x, j),
        bits_hold(
            point_logs(cl),
            point_logs(ca),
            point_logs(cb),
            scalar_numbers(f),
            scalar_numbers(za),
            scalar_numbers(zb),
            x,
        ),
{
    assert forall|j: int| 0 <= j < m implies field::le_nat((#[trigger] f[j])@) == bit_response(
        own,
        nonces,
        x,
        j,
    ) && field::le_nat(f[j]@) < field::order() by {
        field::lemma_red_range(gk_algebra::bit(own, j as nat) * x + nonces[4 * j]);
        field::lemma_scalar_bytes(bit_response(own, nonces, x, j));
    }
    assert forall|j: int| 0 <= j < m implies field::le_nat((#[trigger] za[j])@) == field::plus(
        field::times(nonces[4 * j + 1], x),
        nonces[4 * j + 2],
    ) && field::le_nat(za[j]@) < field::order() by {
        let v = field::plus(field::times(nonces[4 * j + 1], x), nonces[4 * j + 2]);
        field::lemma_red_range(
            (field::times(nonces[4 * j + 1], x) + nonces[4 * j + 2]) as int,
        );
        field::lemma_scalar_bytes(v);
    }
    assert forall|j: int| 0 <= j < m implies field::le_nat((#[trigger] zb[j])@) == field::plus(
        field::times(nonces[4 * j + 1], field::minus(x, bit_response(own, nonces, x, j))),
        nonces[4 * j + 3],
    ) && field::le_nat(zb[j]@) < field::order() by {
        let w = field::times(
            nonces[4 * j + 1],
            field::minus(x, bit_response(own, nonces, x, j)),
        );
        field::lemma_red_range((w + nonces[4 * j + 3]) as int);
        field::lemma_scalar_bytes(field::plus(w, nonces[4 * j + 3]));
    }
    lemma_scalars_fault_none(f, 0);
    lemma_scalars_fault_none(za, 0);
    lemma_scalars_fault_none(zb, 0);
    let lcl = point_logs(cl);
    assert forall|j: int| 0 <= j < lcl.len() implies bit_holds(
        #[trigger] lcl[j],
        point_logs(ca)[j],
        point_logs(cb)[j],
        scalar_numbers(f)[j],
        scalar_numbers(za)[j],
        scalar_numbers(zb)[j],
        x,
    ) by {
        assert(group::encodes(
            cl[j]@,
            com(gk_algebra::bit(own, j as nat) as nat, nonces[4 * j + 1]),
        ));
        assert(group::encodes(ca[j]@, com(nonces[4 * j], nonces[4 * j + 2])));
        assert(group::encodes(
            cb[j]@,
            com(
                field::times(gk_algebra::bit(own, j as nat) as nat, nonces[4 * j]),
                nonces[4 * j + 3],
            ),
        ));
        assert(field::le_nat(f[j]@) == bit_response(own, nonces, x, j));
        assert(field::le_nat(za[j]@) == field::plus(
            field::times(nonces[4 * j + 1], x),
            nonces[4 * j + 2],
        ));
        assert(field::le_nat(zb[j]@) == field::plus(
            field::times(nonces[4 * j + 1], field::minus(x, bit_response(own, nonces, x, j))),
            nonces[4 * j + 3],
        ));
        lemma_honest_bit(
            gk_algebra::bit(own, j as nat),
            nonces[4 * j],
            nonces[4 * j + 1],
            nonces[4 * j + 2],
            nonces[4 * j + 3],
            x,
        );
    }
}

/// Points that encode something, and not the neutral element, are decoded.
pub proof fn lemma_usable_points(v: Seq<[u8; 32]>)
    requires
        forall|j: int| 0 <= j < v.len() ==> group::ristretto_log((#[trigger] v[j])@) is Some,
        forall|j: int| 0 <= j < v.len() ==> group::ristretto_log((#[trigger] v[j])@) != Some(0nat),
    ensures
        points_fault(v, 0) is None,
{
    assert forall|j: int| 0 <= j < v.len() implies peer_scalars::non_identity_fault(
        (#[trigger] v[j])@,
    ) is None by {
        assert(group::ristretto_log(v[j]@) is Some);
        assert(group::ristretto_log(v[j]@) != Some(0nat));
    }
    lemma_points_fault_none(v, 0);
}

/// An honest proof verifies: where the commitment at the hidden index is `r*K`, the proof
/// that any nonces give is accepted, provided that no point of it is the neutral element.
#[verifier::spinoff_prover]
#[verifier::rlimit(40)]
pub proof fn law_one_of_many_completeness(
    proof: GkOneOfManyProof,
    c: Seq<nat>,
    own: nat,
    r: nat,
    context: Seq<u8>,
    nonces: Seq<nat>,
)
    requires
        prove_fault(c.len(), own as int) is None,
        is_one_of_many_proof(proof, c, own, r, context, nonces),
        c[own as int] == field::times(spark_generators::k_log(), r),
        all_points_usable(proof.cl@, proof.ca@, proof.cb@, proof.gk@),
    ensures
        one_of_many_valid(proof, c, context),
{
    let m = gk_algebra::log2(c.len());
    let a = quarter(nonces, 0, m);
    let rho = run(nonces, 4 * m as int, m);
    let x = gk_challenge(context, c, proof.cl@, proof.ca@, proof.cb@, proof.gk@);
    let k = spark_generators::k_log() as int;
    let f = scalar_numbers(proof.f@);
    let g = point_logs(proof.gk@);
    let blind = Seq::new(m, |i: int| k * rho[i]);
    lemma_honest_bits(
        proof.cl@,
        proof.ca@,
        proof.cb@,
        proof.f@,
        proof.za@,
        proof.zb@,
        own,
        nonces,
        x,
        m,
    );
    lemma_usable_points(proof.cl@);
    lemma_usable_points(proof.ca@);
    lemma_usable_points(proof.cb@);
    lemma_usable_points(proof.gk@);
    assert forall|j: int| 0 <= j < m implies #[trigger] f[j] == field::red(
        gk_algebra::bit(own, j as nat) * x + a[j],
    ) by {
        assert(scalar_numbers(proof.f@)[j] == bit_response(own, nonces, x, j));
    }
    assert forall|i: int| 0 <= i < m implies #[trigger] g[i] == field::red(
        gk_algebra::column_sum(c, own, a, m, i, c.len()) + blind[i],
    ) by {
        assert(group::encodes(
            proof.gk@[i]@,
            field::red(
                gk_algebra::column_sum(c, own, a, m, i, c.len()) + spark_generators::k_log()
                    * rho[i],
            ),
        ));
    }
    gk_algebra::lemma_one_of_many(c, g, blind, f, own, a, x as int, m);
    gk_algebra::lemma_blind_sum_scaled(k, rho, blind, x as int, m);
    let xm = gk_algebra::ipow(x as int, m);
    let s = gk_algebra::power_sum(rho, x as int, m);
    let zd = field::red(r * xm - s);
    field::lemma_red_range(r * xm - s);
    field::lemma_scalar_bytes(zd);
    field::lemma_times_right(k as nat, r * xm - s);
    assert(field::red(c[own as int] * xm - k * s) == field::red(k * (r * xm - s))) by {
        let kr = k * r;
        field::lemma_times_red_left(kr, xm);
        field::lemma_sub_red(c[own as int] * xm, k * s);
        field::lemma_sub_red(kr * xm, k * s);
        assert(kr * xm - k * s == k * (r * xm - s)) by (nonlinear_arith)
            requires
                kr == k * r,
        ;
    }
}

/// What the challenge of a proof hashes determines the context, the commitments and the
/// first round, for one number of commitments and of rounds.
pub proof fn law_gk_input_injective(
    context1: Seq<u8>,
    c1: Seq<nat>,
    cl1: Seq<[u8; 32]>,
    ca1: Seq<[u8; 32]>,
    cb1: Seq<[u8; 32]>,
    gk1: Seq<[u8; 32]>,
    context2: Seq<u8>,
    c2: Seq<nat>,
    cl2: Seq<[u8; 32]>,
    ca2: Seq<[u8; 32]>,
    cb2: Seq<[u8; 32]>,
    gk2: Seq<[u8; 32]>,
)
    requires
        group::all_encodable(),
        forall|i: int| 0 <= i < c1.len() ==> #[trigger] c1[i] < field::order(),
        forall|i: int| 0 <= i < c2.len() ==> #[trigger] c2[i] < field::order(),
        c1.len() == c2.len(),
        cl1.len() == cl2.len() && ca1.len() == ca2.len() && cb1.len() == cb2.len() && gk1.len()
            == gk2.len(),
        gk_input(context1, c1, cl1, ca1, cb1, gk1) == gk_input(
            context2,
            c2,
            cl2,
            ca2,
            cb2,
            gk2,
        ),
    ensures
        context1 == context2,
        c1 == c2,
        cl1 == cl2,
        ca1 == ca2,
        cb1 == cb2,
        gk1 == gk2,
{
    let t = bytes::tag("COINCYNC_GK_FS_v1");
    let (n1, n2) = (
        vstd::bytes::spec_u64_to_le_bytes(context1.len() as u64),
        vstd::bytes::spec_u64_to_le_bytes(context2.len() as u64),
    );
    let (e1, e2) = (group::encodings(c1), group::encodings(c2));
    let (l1, l2) = (bytes::flat(cl1), bytes::flat(cl2));
    let (a1, a2) = (bytes::flat(ca1), bytes::flat(ca2));
    let (b1, b2) = (bytes::flat(cb1), bytes::flat(cb2));
    let (g1, g2) = (bytes::flat(gk1), bytes::flat(gk2));
    wire::lemma_flat_len(cl1);
    wire::lemma_flat_len(cl2);
    wire::lemma_flat_len(ca1);
    wire::lemma_flat_len(ca2);
    wire::lemma_flat_len(cb1);
    wire::lemma_flat_len(cb2);
    wire::lemma_flat_len(gk1);
    wire::lemma_flat_len(gk2);
    group::lemma_encodings_size(c1);
    group::lemma_encodings_size(c2);
    bytes::lemma_u64_bytes(context1.len() as u64, context2.len() as u64);
    bytes::lemma_u64_bytes(context2.len() as u64, context1.len() as u64);
    let (h1, h2) = (t + n1 + context1, t + n2 + context2);
    bytes::lemma_same_tails(h1 + e1 + l1 + a1 + b1, g1, h2 + e2 + l2 + a2 + b2, g2);
    bytes::lemma_same_tails(h1 + e1 + l1 + a1, b1, h2 + e2 + l2 + a2, b2);
    bytes::lemma_same_tails(h1 + e1 + l1, a1, h2 + e2 + l2, a2);
    bytes::lemma_same_tails(h1 + e1, l1, h2 + e2, l2);
    bytes::lemma_same_tails(h1, e1, h2, e2);
    bytes::lemma_same_heads(t + n1, context1, t + n2, context2);
    group::lemma_encodings_determine(c1, c2);
    bytes::lemma_flat_determines(cl1, cl2);
    bytes::lemma_flat_determines(ca1, ca2);
    bytes::lemma_flat_determines(cb1, cb2);
    bytes::lemma_flat_determines(gk1, gk2);
}

/// The challenge of a proof commits to its context, to the commitments and to the first
/// round: where two that differ share it, two different strings hash to one scalar.
pub proof fn law_gk_challenge_binds(
    context1: Seq<u8>,
    c1: Seq<nat>,
    p: GkOneOfManyProof,
    context2: Seq<u8>,
    c2: Seq<nat>,
    q: GkOneOfManyProof,
)
    requires
        group::all_encodable(),
        forall|i: int| 0 <= i < c1.len() ==> #[trigger] c1[i] < field::order(),
        forall|i: int| 0 <= i < c2.len() ==> #[trigger] c2[i] < field::order(),
        c1.len() == c2.len(),
        p.cl@.len() == q.cl@.len() && p.ca@.len() == q.ca@.len() && p.cb@.len() == q.cb@.len()
            && p.gk@.len() == q.gk@.len(),
        context1 != context2 || c1 != c2 || p.cl@ != q.cl@ || p.ca@ != q.ca@ || p.cb@ != q.cb@
            || p.gk@ != q.gk@,
        gk_challenge(context1, c1, p.cl@, p.ca@, p.cb@, p.gk@) == gk_challenge(
            context2,
            c2,
            q.cl@,
            q.ca@,
            q.cb@,
            q.gk@,
        ),
    ensures
        ({
            let left = gk_input(context1, c1, p.cl@, p.ca@, p.cb@, p.gk@);
            let right = gk_input(context2, c2, q.cl@, q.ca@, q.cb@, q.gk@);
            &&& left != right
            &&& field::red(field::le_nat(hashing::sha3_512(left)) as int) == field::red(
                field::le_nat(hashing::sha3_512(right)) as int,
            )
        }),
{
    if gk_input(context1, c1, p.cl@, p.ca@, p.cb@, p.gk@) == gk_input(
        context2,
        c2,
        q.cl@,
        q.ca@,
        q.cb@,
        q.gk@,
    ) {
        law_gk_input_injective(
            context1,
            c1,
            p.cl@,
            p.ca@,
            p.cb@,
            p.gk@,
            context2,
            c2,
            q.cl@,
            q.ca@,
            q.cb@,
            q.gk@,
        );
    }
}

/// In every round of an accepted proof both group equations hold, under the challenge that
/// the string of the proof hashes to: `x*cl + ca == f*G + za*K` and
/// `(x - f)*cl + cb == zb*K`.
pub proof fn law_accepted_rounds(proof: GkOneOfManyProof, c: Seq<nat>, context: Seq<u8>, j: int)
    requires
        one_of_many_valid(proof, c, context),
        0 <= j < proof.cl@.len(),
    ensures
        ({
            let x = field::red(
                field::le_nat(
                    hashing::sha3_512(
                        gk_input(context, c, proof.cl@, proof.ca@, proof.cb@, proof.gk@),
                    ),
                ) as int,
            );
            let k = spark_generators::k_log();
            let cl = group::ristretto_log(proof.cl@[j]@)->0;
            let ca = group::ristretto_log(proof.ca@[j]@)->0;
            let cb = group::ristretto_log(proof.cb@[j]@)->0;
            let f = field::le_nat(proof.f@[j]@);
            let za = field::le_nat(proof.za@[j]@);
            let zb = field::le_nat(proof.zb@[j]@);
            &&& field::plus(field::times(cl, x), ca) == field::plus(
                field::times(1, f),
                field::times(k, za),
            )
            &&& field::plus(field::times(cl, field::minus(x, f)), cb) == field::times(k, zb)
        }),
{
    lemma_shape(proof);
    let cl = point_logs(proof.cl@);
    assert(cl[j] == group::ristretto_log(proof.cl@[j]@)->0);
}

proof fn lemma_shape(proof: GkOneOfManyProof)
    requires
        proof.decode_fault() is None,
    ensures
        proof.ca@.len() == proof.cl@.len(),
        proof.cb@.len() == proof.cl@.len(),
        proof.gk@.len() == proof.cl@.len(),
        proof.f@.len() == proof.cl@.len(),
        proof.za@.len() == proof.cl@.len(),
        proof.zb@.len() == proof.cl@.len(),
        scalars_fault(proof.f@, 0) is None,
        scalars_fault(proof.za@, 0) is None,
        scalars_fault(proof.zb@, 0) is None,
        field::le_nat(proof.zd@) < field::order(),
{
}

/// Two answers of one round to two challenges `x` and `y` open its commitment: with `u` the
/// inverse of `x - y`, and `b = u*(f - f')`, `r = u*(za - za')`, `s = u*(zb - zb')`, the
/// commitment is `b*G + r*K`, and `1 - b` times it is `s*K`. So `b*(1 - b)` times `G` is a
/// known multiple of `K`: `b` is a bit, or the answers give a relation between `G` and `K`.
pub proof fn law_round_opens_to_a_bit(
    cl: nat,
    ca: nat,
    cb: nat,
    x: nat,
    f: nat,
    za: nat,
    zb: nat,
    y: nat,
    f2: nat,
    za2: nat,
    zb2: nat,
    u: nat,
)
    requires
        cl < field::order(),
        bit_holds(cl, ca, cb, f, za, zb, x),
        bit_holds(cl, ca, cb, f2, za2, zb2, y),
        field::times(u, field::minus(x, y)) == 1,
    ensures
        ({
            let k = spark_generators::k_log();
            let b = field::times(u, field::minus(f, f2));
            let r = field::times(u, field::minus(za, za2));
            let s = field::times(u, field::minus(zb, zb2));
            let rest = field::minus(1, b);
            &&& cl == field::plus(b, field::times(k, r))
            &&& field::times(cl, rest) == field::times(k, s)
            &&& field::times(b, rest) == field::times(
                k,
                field::minus(s, field::times(r, rest)),
            )
        }),
{
    let k = spark_generators::k_log() as int;
    let (ui, c) = (u as int, cl as int);
    let (x1, x2) = (x as int, y as int);
    let (d, e, g) = (f - f2, za - za2, zb - zb2);
    let b = field::times(u, field::minus(f, f2));
    let r = field::times(u, field::minus(za, za2));
    let s = field::times(u, field::minus(zb, zb2));
    broadcast use field::group_field;

    assert(b == field::red(ui * d));
    assert(r == field::red(ui * e));
    assert(s == field::red(ui * g));
    assert(field::red(ui * (x1 - x2)) == 1);
    field::lemma_red_small(cl);
    // The first equations, subtracted and scaled by the inverse.
    let (a1, a2) = (c * x1 + ca, c * x2 + ca);
    let (b1, b2) = (1 * f + k * za, 1 * f2 + k * za2);
    assert(field::red(a1) == field::red(b1));
    assert(field::red(a2) == field::red(b2));
    field::lemma_red_apart(a1, b1, a2, b2);
    field::lemma_red_scaled(ui, a1 - a2, b1 - b2);
    assert(ui * (a1 - a2) == c * (ui * (x1 - x2))) by (nonlinear_arith)
        requires
            a1 == c * x1 + ca,
            a2 == c * x2 + ca,
    ;
    assert(ui * (b1 - b2) == ui * d + k * (ui * e)) by (nonlinear_arith)
        requires
            b1 == 1 * f + k * za,
            b2 == 1 * f2 + k * za2,
            d == f - f2,
            e == za - za2,
    ;
    field::lemma_red_one(c, ui * (x1 - x2));
    assert(field::times(k as nat, r) == field::red(k * (ui * e)));
    assert(field::plus(b, field::times(k as nat, r)) == field::red(ui * d + k * (ui * e)));
    assert(cl == field::plus(b, field::times(k as nat, r)));
    // The second equations, subtracted and scaled by the inverse.
    let (p1, p2) = (c * (x1 - f) + cb, c * (x2 - f2) + cb);
    assert(field::minus(x, f) == field::red(x1 - f));
    assert(field::minus(y, f2) == field::red(x2 - f2));
    assert(field::red(p1) == field::red(k * zb));
    assert(field::red(p2) == field::red(k * zb2));
    field::lemma_red_apart(p1, k * zb, p2, k * zb2);
    field::lemma_red_scaled(ui, p1 - p2, k * zb - k * zb2);
    assert(ui * (k * zb - k * zb2) == k * (ui * g)) by (nonlinear_arith)
        requires
            g == zb - zb2,
    ;
    let w = ui * (x1 - x2) - ui * d;
    assert(ui * (p1 - p2) == c * w) by (nonlinear_arith)
        requires
            p1 == c * (x1 - f) + cb,
            p2 == c * (x2 - f2) + cb,
            w == ui * (x1 - x2) - ui * d,
            d == f - f2,
    ;
    let rest = field::minus(1, b);
    assert(rest == field::red(w)) by {
        field::lemma_sub_red(ui * (x1 - x2), ui * d);
    }
    assert(field::times(cl, rest) == field::red(c * w));
    assert(field::times(k as nat, s) == field::red(k * (ui * g)));
    // Both together.
    let v = rest as int;
    assert(field::red(c * v) == field::red(k * (ui * g)));
    field::lemma_red_scaled(v, c, ui * d + k * (ui * e));
    assert(v * c == c * v) by (nonlinear_arith);
    assert(v * (ui * d + k * (ui * e)) == v * (ui * d) + k * (v * (ui * e))) by (nonlinear_arith);
    field::lemma_sums_apart(v * (ui * d), 0, k * (v * (ui * e)), k * (ui * g));
    assert(k * (ui * g) - k * (v * (ui * e)) == k * (ui * g - v * (ui * e))) by (nonlinear_arith);
    assert(field::times(b, rest) == field::red((ui * d) * v));
    assert((ui * d) * v == v * (ui * d)) by (nonlinear_arith);
    assert(field::times(r, rest) == field::red((ui * e) * v));
    assert((ui * e) * v == v * (ui * e)) by (nonlinear_arith);
    assert(field::minus(s, field::times(r, rest)) == field::red(ui * g - v * (ui * e)));
}

/// Two accepted proofs with the same bit commitments and two challenges open the commitment
/// of every round to a bit, unless they give a relation between `G` and `K`: see
/// [`law_round_opens_to_a_bit`].
pub proof fn law_accepted_proofs_open_the_bits(
    p: GkOneOfManyProof,
    c1: Seq<nat>,
    context1: Seq<u8>,
    q: GkOneOfManyProof,
    c2: Seq<nat>,
    context2: Seq<u8>,
    j: int,
    u: nat,
)
    requires
        one_of_many_valid(p, c1, context1),
        one_of_many_valid(q, c2, context2),
        p.cl@ == q.cl@,
        p.ca@ == q.ca@,
        p.cb@ == q.cb@,
        0 <= j < p.cl@.len(),
        group::ristretto_log(p.cl@[j]@)->0 < field::order(),
        field::times(
            u,
            field::minus(
                gk_challenge(context1, c1, p.cl@, p.ca@, p.cb@, p.gk@),
                gk_challenge(context2, c2, q.cl@, q.ca@, q.cb@, q.gk@),
            ),
        ) == 1,
    ensures
        ({
            let k = spark_generators::k_log();
            let cl = group::ristretto_log(p.cl@[j]@)->0;
            let b = field::times(
                u,
                field::minus(field::le_nat(p.f@[j]@), field::le_nat(q.f@[j]@)),
            );
            let r = field::times(
                u,
                field::minus(field::le_nat(p.za@[j]@), field::le_nat(q.za@[j]@)),
            );
            let s = field::times(
                u,
                field::minus(field::le_nat(p.zb@[j]@), field::le_nat(q.zb@[j]@)),
            );
            let rest = field::minus(1, b);
            &&& cl == field::plus(b, field::times(k, r))
            &&& field::times(cl, rest) == field::times(k, s)
            &&& field::times(b, rest) == field::times(
                k,
                field::minus(s, field::times(r, rest)),
            )
        }),
{
    law_accepted_rounds(p, c1, context1, j);
    law_accepted_rounds(q, c2, context2, j);
    law_round_opens_to_a_bit(
        group::ristretto_log(p.cl@[j]@)->0,
        group::ristretto_log(p.ca@[j]@)->0,
        group::ristretto_log(p.cb@[j]@)->0,
        gk_challenge(context1, c1, p.cl@, p.ca@, p.cb@, p.gk@),
        field::le_nat(p.f@[j]@),
        field::le_nat(p.za@[j]@),
        field::le_nat(p.zb@[j]@),
        gk_challenge(context2, c2, q.cl@, q.ca@, q.cb@, q.gk@),
        field::le_nat(q.f@[j]@),
        field::le_nat(q.za@[j]@),
        field::le_nat(q.zb@[j]@),
        u,
    );
}

/// The answer of a round to a third challenge lies on the line that two other answers
/// determine: for a commitment `b*G + r*K` of the digit and `a*G + s*K` of its mask, `f` is
/// `b*x + a`, unless the answer gives a relation between `G` and `K`.
pub proof fn law_round_answers_on_a_line(
    b: nat,
    r: nat,
    a: nat,
    s: nat,
    cb: nat,
    x: nat,
    f: nat,
    za: nat,
    zb: nat,
)
    requires
        bit_holds(com(b, r), com(a, s), cb, f, za, zb, x),
    ensures
        field::minus(f, field::plus(field::times(b, x), a)) == field::times(
            spark_generators::k_log(),
            field::minus(field::plus(field::times(r, x), s), za),
        ),
{
    let k = spark_generators::k_log() as int;
    broadcast use field::group_field;

    let cl = 1 * b + k * r;
    let ca = 1 * a + k * s;
    assert(com(b, r) == field::red(cl));
    assert(com(a, s) == field::red(ca));
    assert(field::times(field::red(cl), x) == field::red(cl * x));
    assert(field::plus(field::red(cl * x), field::red(ca)) == field::red(cl * x + ca));
    let line = b * x + a;
    let blind = r * x + s;
    assert(cl * x + ca == line + k * blind) by (nonlinear_arith)
        requires
            cl == 1 * b + k * r,
            ca == 1 * a + k * s,
            line == b * x + a,
            blind == r * x + s,
    ;
    assert(field::red(f + k * za) == field::red(line + k * blind));
    field::lemma_sums_apart(f as int, line as int, k * za, k * blind);
    assert(field::plus(field::times(b, x), a) == field::red(line as int));
    assert(field::plus(field::times(r, x), s) == field::red(blind as int));
    assert(field::times(k as nat, field::red(blind - za)) == field::red(k * (blind - za)));
    assert(k * blind - k * za == k * (blind - za)) by (nonlinear_arith);
}

/// The first round and the digits determine the rest of an accepted proof: two accepted
/// proofs for one statement with the same first round and the same `f` are the same.
pub proof fn law_answers_are_determined(
    p: GkOneOfManyProof,
    q: GkOneOfManyProof,
    c: Seq<nat>,
    context: Seq<u8>,
)
    requires
        one_of_many_valid(p, c, context),
        one_of_many_valid(q, c, context),
        p.cl@ == q.cl@,
        p.ca@ == q.ca@,
        p.cb@ == q.cb@,
        p.gk@ == q.gk@,
        p.f@ == q.f@,
        field::unit(spark_generators::k_log()),
    ensures
        p.za@ == q.za@,
        p.zb@ == q.zb@,
        p.zd@ == q.zd@,
{
    let k = spark_generators::k_log();
    broadcast use field::lemma_red_range;

    lemma_shape(p);
    lemma_shape(q);
    assert forall|j: int| 0 <= j < p.cl@.len() implies p.za@[j] == q.za@[j] && p.zb@[j]
        == q.zb@[j] by {
        law_accepted_rounds(p, c, context, j);
        law_accepted_rounds(q, c, context, j);
        let (a1, a2) = (field::le_nat(p.za@[j]@), field::le_nat(q.za@[j]@));
        let (b1, b2) = (field::le_nat(p.zb@[j]@), field::le_nat(q.zb@[j]@));
        lemma_scalar_in_range(p.za@, j);
        lemma_scalar_in_range(q.za@, j);
        lemma_scalar_in_range(p.zb@, j);
        lemma_scalar_in_range(q.zb@, j);
        field::lemma_cancel_term(
            field::times(1, field::le_nat(p.f@[j]@)),
            field::times(k, a1),
            field::times(k, a2),
        );
        field::lemma_cancel(k, a1, a2);
        field::lemma_cancel(k, b1, b2);
        field::lemma_same_number(p.za@[j]@, q.za@[j]@);
        field::lemma_same_number(p.zb@[j]@, q.zb@[j]@);
        assert(p.za@[j] =~= q.za@[j]);
        assert(p.zb@[j] =~= q.zb@[j]);
    }
    assert(p.za@ =~= q.za@);
    assert(p.zb@ =~= q.zb@);
    field::lemma_cancel(k, field::le_nat(p.zd@), field::le_nat(q.zd@));
    field::lemma_same_number(p.zd@, q.zd@);
}

pub proof fn lemma_scalar_in_range(v: Seq<[u8; 32]>, j: int)
    requires
        scalars_fault(v, 0) is None,
        0 <= j < v.len(),
    ensures
        field::le_nat(v[j]@) < field::order(),
{
    lemma_scalars_below(v, 0, j);
}

proof fn lemma_scalars_below(v: Seq<[u8; 32]>, i: int, j: int)
    requires
        scalars_fault(v, i) is None,
        0 <= i <= j < v.len(),
    ensures
        field::le_nat(v[j]@) < field::order(),
    decreases j - i,
{
    if i < j {
        lemma_scalars_below(v, i + 1, j);
    }
}

/// An accepted proof is no longer accepted once a response `za`, `zb` or `zd` of it is
/// changed.
pub proof fn law_changed_answer_refused(
    p: GkOneOfManyProof,
    q: GkOneOfManyProof,
    c: Seq<nat>,
    context: Seq<u8>,
)
    requires
        one_of_many_valid(p, c, context),
        p.cl@ == q.cl@,
        p.ca@ == q.ca@,
        p.cb@ == q.cb@,
        p.gk@ == q.gk@,
        p.f@ == q.f@,
        p.za@ != q.za@ || p.zb@ != q.zb@ || p.zd@ != q.zd@,
        field::unit(spark_generators::k_log()),
    ensures
        !one_of_many_valid(q, c, context),
{
    if one_of_many_valid(q, c, context) {
        law_answers_are_determined(p, q, c, context);
    }
}

/// An accepted proof is no longer accepted once a digit response `f` of it is changed and
/// its `zb` is kept.
pub proof fn law_changed_digit_refused(
    p: GkOneOfManyProof,
    q: GkOneOfManyProof,
    c: Seq<nat>,
    context: Seq<u8>,
    j: int,
)
    requires
        one_of_many_valid(p, c, context),
        p.cl@ == q.cl@,
        p.ca@ == q.ca@,
        p.cb@ == q.cb@,
        p.gk@ == q.gk@,
        p.zb@ == q.zb@,
        0 <= j < p.f@.len(),
        p.f@[j] != q.f@[j],
        field::unit(group::ristretto_log(p.cl@[j]@)->0),
    ensures
        !one_of_many_valid(q, c, context),
{
    if one_of_many_valid(q, c, context) {
        broadcast use field::lemma_red_range;

        lemma_shape(p);
        lemma_shape(q);
        law_accepted_rounds(p, c, context, j);
        law_accepted_rounds(q, c, context, j);
        lemma_scalar_in_range(p.f@, j);
        lemma_scalar_in_range(q.f@, j);
        let x = gk_challenge(context, c, p.cl@, p.ca@, p.cb@, p.gk@);
        let cl = group::ristretto_log(p.cl@[j]@)->0;
        let cb = group::ristretto_log(p.cb@[j]@)->0;
        let (f1, f2) = (field::le_nat(p.f@[j]@), field::le_nat(q.f@[j]@));
        let (d1, d2) = (field::minus(x, f1), field::minus(x, f2));
        assert(field::plus(field::times(cl, d1), cb) == field::plus(cb, field::times(cl, d1)));
        assert(field::plus(field::times(cl, d2), cb) == field::plus(cb, field::times(cl, d2)));
        field::lemma_cancel_term(cb, field::times(cl, d1), field::times(cl, d2));
        field::lemma_cancel(cl, d1, d2);
        field::lemma_minus_right(x, x - f1);
        field::lemma_minus_right(x, x - f2);
        field::lemma_red_small(f1);
        field::lemma_red_small(f2);
        field::lemma_same_number(p.f@[j]@, q.f@[j]@);
        assert(p.f@[j] =~= q.f@[j]);
    }
}

/// What the lower coefficients of a proof hold beyond the sums over the members.
pub open spec fn lower_rest(c: Seq<nat>, g: Seq<nat>, own: nat, a: Seq<nat>, m: nat) -> Seq<int> {
    Seq::new(m, |k: int| g[k] - gk_algebra::column_sum(c, own, a, m, k, c.len()))
}

/// Where the responses `f` are `b*x + a` for the bits `b` of an index, the combination of
/// the members is a polynomial in `x` whose leading coefficient is the member at the index,
/// and whose lower coefficients do not depend on `x`.
pub proof fn law_combination_is_a_polynomial(
    c: Seq<nat>,
    f: Seq<nat>,
    g: Seq<nat>,
    own: nat,
    a: Seq<nat>,
    x: nat,
)
    requires
        c.len() == pow2(f.len()),
        own < c.len(),
        a.len() == f.len(),
        g.len() == f.len(),
        forall|k: int| 0 <= k < g.len() ==> #[trigger] g[k] < field::order(),
        forall|j: int|
            0 <= j < f.len() ==> #[trigger] f[j] == field::red(
                gk_algebra::bit(own, j as nat) * x + a[j],
            ),
    ensures
        combination(c, f, g, x) == field::red(
            c[own as int] * gk_algebra::ipow(x as int, f.len()) - gk_algebra::blind_sum(
                lower_rest(c, g, own, a, f.len()),
                x as int,
                f.len(),
            ),
        ),
{
    let m = f.len();
    let d = lower_rest(c, g, own, a, m);
    assert forall|k: int| 0 <= k < m implies #[trigger] g[k] == field::red(
        gk_algebra::column_sum(c, own, a, m, k, c.len()) + d[k],
    ) by {
        field::lemma_red_small(g[k]);
    }
    gk_algebra::lemma_one_of_many(c, g, d, f, own, a, x as int, m);
}

/// The challenges of a list of proofs.
pub open spec fn challenges(
    proofs: Seq<GkOneOfManyProof>,
    contexts: Seq<Seq<u8>>,
    c: Seq<nat>,
) -> Seq<int> {
    Seq::new(
        proofs.len(),
        |t: int|
            gk_challenge(
                contexts[t],
                c,
                proofs[t].cl@,
                proofs[t].ca@,
                proofs[t].cb@,
                proofs[t].gk@,
            ) as int,
    )
}

/// The last responses of a list of proofs.
pub open spec fn last_answers(proofs: Seq<GkOneOfManyProof>) -> Seq<int> {
    Seq::new(proofs.len(), |t: int| field::le_nat(proofs[t].zd@) as int)
}

/// What acceptance proves. Take accepted proofs over one set with the same lower
/// coefficients, whose digit responses answer their challenges by the bits of one index,
/// and weights that pick the leading coefficient out of a polynomial by its values at the
/// challenges. Then the member at the index is the weighted sum of the last responses times
/// `K`: the set holds a commitment to zero whose opening the prover knows.
pub proof fn law_accepted_proofs_open_a_member(
    proofs: Seq<GkOneOfManyProof>,
    contexts: Seq<Seq<u8>>,
    c: Seq<nat>,
    own: nat,
    a: Seq<nat>,
    w: Seq<int>,
)
    requires
        proofs.len() > 0,
        forall|t: int|
            0 <= t < proofs.len() ==> one_of_many_valid(#[trigger] proofs[t], c, contexts[t])
                && proofs[t].gk@ == proofs[0].gk@,
        forall|i: int|
            0 <= i < proofs[0].gk@.len() ==> #[trigger] point_logs(proofs[0].gk@)[i]
                < field::order(),
        own < c.len(),
        c[own as int] < field::order(),
        a.len() == gk_algebra::log2(c.len()),
        forall|t: int, j: int|
            0 <= t < proofs.len() && 0 <= j < a.len() ==> field::le_nat(
                #[trigger] proofs[t].f@[j]@,
            ) == field::red(
                gk_algebra::bit(own, j as nat) * challenges(proofs, contexts, c)[t] + a[j],
            ),
        gk_algebra::picks_leading(w, challenges(proofs, contexts, c), a.len()),
    ensures
        c[own as int] == field::times(
            spark_generators::k_log(),
            field::red(gk_algebra::weighted(w, last_answers(proofs), proofs.len())),
        ),
{
    let n = proofs.len();
    let m = a.len();
    let k = spark_generators::k_log() as int;
    let xs = challenges(proofs, contexts, c);
    let z = last_answers(proofs);
    let g = point_logs(proofs[0].gk@);
    let lead = c[own as int] as int;
    let d = lower_rest(c, g, own, a, m);
    let v = Seq::new(n, |t: int| 0 * z[t] + k * z[t]);
    assert forall|t: int| 0 <= t < n implies field::red(#[trigger] v[t]) == field::red(
        lead * gk_algebra::ipow(xs[t], m) - gk_algebra::blind_sum(d, xs[t], m),
    ) by {
        let p = proofs[t];
        assert(one_of_many_valid(p, c, contexts[t]));
        lemma_shape(p);
        let f = scalar_numbers(p.f@);
        let x = gk_challenge(contexts[t], c, p.cl@, p.ca@, p.cb@, p.gk@);
        assert(xs[t] == x);
        assert forall|j: int| 0 <= j < f.len() implies #[trigger] f[j] == field::red(
            gk_algebra::bit(own, j as nat) * x + a[j],
        ) by {
            assert(field::le_nat(proofs[t].f@[j]@) == f[j]);
        }
        law_combination_is_a_polynomial(c, f, g, own, a, x);
        assert(v[t] == k * z[t]) by (nonlinear_arith)
            requires
                v[t] == 0 * z[t] + k * z[t],
        ;
    }
    gk_algebra::lemma_leading_picked(w, xs, v, d, lead, m);
    gk_algebra::lemma_weighted_pair(w, v, 0, z, k, z, n);
    let s = gk_algebra::weighted(w, z, n);
    assert(0 * s + k * s == k * s) by (nonlinear_arith);
    field::lemma_times_right(k as nat, s);
    field::lemma_red_small(c[own as int]);
}

/// An accepted proof is in canonical form: between one and twenty rounds, every vector as
/// long as there are rounds, every point an encoding of an element that is not neutral,
/// and every scalar below the order.
pub proof fn law_accepted_proof_is_canonical(
    proof: GkOneOfManyProof,
    c: Seq<nat>,
    context: Seq<u8>,
    j: int,
)
    requires
        one_of_many_valid(proof, c, context),
        0 <= j < proof.cl@.len(),
    ensures
        1 <= proof.cl@.len() <= 20,
        c.len() == pow2(proof.cl@.len()),
        proof.ca@.len() == proof.cl@.len() && proof.cb@.len() == proof.cl@.len(),
        proof.gk@.len() == proof.cl@.len() && proof.f@.len() == proof.cl@.len(),
        proof.za@.len() == proof.cl@.len() && proof.zb@.len() == proof.cl@.len(),
        group::ristretto_log(proof.cl@[j]@) matches Some(k) && k != 0,
        group::ristretto_log(proof.ca@[j]@) matches Some(k) && k != 0,
        group::ristretto_log(proof.cb@[j]@) matches Some(k) && k != 0,
        group::ristretto_log(proof.gk@[j]@) matches Some(k) && k != 0,
        field::le_nat(proof.f@[j]@) < field::order(),
        field::le_nat(proof.za@[j]@) < field::order(),
        field::le_nat(proof.zb@[j]@) < field::order(),
        field::le_nat(proof.zd@) < field::order(),
{
    lemma_shape(proof);
    lemma_scalar_in_range(proof.f@, j);
    lemma_scalar_in_range(proof.za@, j);
    lemma_scalar_in_range(proof.zb@, j);
    lemma_point_usable(proof.cl@, 0, j);
    lemma_point_usable(proof.ca@, 0, j);
    lemma_point_usable(proof.cb@, 0, j);
    lemma_point_usable(proof.gk@, 0, j);
}

/// Where no point of a list is refused, each is an encoding of an element that is not
/// neutral.
pub proof fn lemma_point_usable(v: Seq<[u8; 32]>, i: int, j: int)
    requires
        points_fault(v, i) is None,
        0 <= i <= j < v.len(),
    ensures
        group::ristretto_log(v[j]@) matches Some(k) && k != 0,
    decreases j - i,
{
    if i < j {
        lemma_point_usable(v, i + 1, j);
    }
}

} // verus!
