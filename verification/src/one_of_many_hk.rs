//! One-out-of-many proofs for membership in the span of `H` and `K`.
//!
//! The proof shows that one of the commitments, at a hidden index, is `h*H + k*K` for known
//! `h` and `k`, and hides both.
use vstd::prelude::*;
use crate::error;
use crate::error::{Error, Result};
use crate::field;
use crate::gk_algebra;
use crate::groth_kohlweiss;
use crate::groth_kohlweiss::{
    bits_ok, challenge, check_statement, coefficient_sums, combine, commit_bits, decode_points,
    decode_scalars, final_response, is_power_of_two, pick, respond_to_bits, rounds, MAX_GK_ROUNDS,
};
use crate::group;
use crate::group::{RistrettoPoint, Scalar};
use crate::hashing;
use crate::peer_scalars::{PeerPoint, PeerScalar};
use crate::spark_generators;
use crate::spark_generators::{gen_h, gen_k};

verus! {

/// The wire form of the proof: that of a one-out-of-many proof, with one final response
/// for each of the two generators.
#[derive(Clone, Debug, PartialEq, Eq)]
pub struct GkOneOfManyHkProof {
    pub cl: Vec<[u8; 32]>,
    pub ca: Vec<[u8; 32]>,
    pub cb: Vec<[u8; 32]>,
    pub gk: Vec<[u8; 32]>,
    pub f: Vec<[u8; 32]>,
    pub za: Vec<[u8; 32]>,
    pub zb: Vec<[u8; 32]>,
    pub zdh: [u8; 32],
    pub zdk: [u8; 32],
}

struct DecodedGkHkProof {
    m: usize,
    cl: Vec<PeerPoint>,
    ca: Vec<PeerPoint>,
    cb: Vec<PeerPoint>,
    gk: Vec<PeerPoint>,
    f: Vec<PeerScalar>,
    za: Vec<PeerScalar>,
    zb: Vec<PeerScalar>,
    zdh: PeerScalar,
    zdk: PeerScalar,
}

impl GkOneOfManyHkProof {
    /// Whether the decoder accepts the proof: between one and `MAX_GK_ROUNDS` rounds,
    /// every vector as long as there are rounds, every point canonical and not neutral,
    /// every scalar canonical.
    pub open spec fn decodable(self) -> bool {
        let m = self.cl@.len();
        &&& 1 <= m <= MAX_GK_ROUNDS
        &&& self.ca@.len() == m
        &&& self.cb@.len() == m
        &&& self.gk@.len() == m
        &&& self.f@.len() == m
        &&& self.za@.len() == m
        &&& self.zb@.len() == m
        &&& groth_kohlweiss::vectors_fault(
            self.cl@,
            self.ca@,
            self.cb@,
            self.gk@,
            self.f@,
            self.za@,
            self.zb@,
        ) is None
        &&& field::le_nat(self.zdh@) < field::order()
        &&& field::le_nat(self.zdk@) < field::order()
    }

    spec fn decodes_to(self, d: DecodedGkHkProof) -> bool {
        let m = self.cl@.len();
        &&& d.m == m
        &&& d.cl@.len() == m
        &&& d.ca@.len() == m
        &&& d.cb@.len() == m
        &&& d.gk@.len() == m
        &&& d.f@.len() == m
        &&& d.za@.len() == m
        &&& d.zb@.len() == m
        &&& groth_kohlweiss::peer_logs(d.cl@) == groth_kohlweiss::point_logs(self.cl@)
        &&& groth_kohlweiss::peer_logs(d.ca@) == groth_kohlweiss::point_logs(self.ca@)
        &&& groth_kohlweiss::peer_logs(d.cb@) == groth_kohlweiss::point_logs(self.cb@)
        &&& groth_kohlweiss::peer_logs(d.gk@) == groth_kohlweiss::point_logs(self.gk@)
        &&& groth_kohlweiss::peer_values(d.f@) == groth_kohlweiss::scalar_numbers(self.f@)
        &&& groth_kohlweiss::peer_values(d.za@) == groth_kohlweiss::scalar_numbers(self.za@)
        &&& groth_kohlweiss::peer_values(d.zb@) == groth_kohlweiss::scalar_numbers(self.zb@)
        &&& d.zdh@ == field::le_nat(self.zdh@)
        &&& d.zdk@ == field::le_nat(self.zdk@)
    }

    fn decode(&self) -> (r: Option<DecodedGkHkProof>)
        ensures
            match r {
                Some(d) => self.decodable() && self.decodes_to(d),
                None => !self.decodable(),
            },
    {
        let m: usize = self.cl.len();
        if m == 0 || m > MAX_GK_ROUNDS || self.ca.len() != m || self.cb.len() != m
            || self.gk.len() != m || self.f.len() != m || self.za.len() != m || self.zb.len() != m {
            return None;
        }
        let cl = match decode_points(&self.cl) {
            Ok(v) => v,
            Err(_) => {
                return None;
            },
        };
        let ca = match decode_points(&self.ca) {
            Ok(v) => v,
            Err(_) => {
                return None;
            },
        };
        let cb = match decode_points(&self.cb) {
            Ok(v) => v,
            Err(_) => {
                return None;
            },
        };
        let gk = match decode_points(&self.gk) {
            Ok(v) => v,
            Err(_) => {
                return None;
            },
        };
        let f = match decode_scalars(&self.f) {
            Ok(v) => v,
            Err(_) => {
                return None;
            },
        };
        let za = match decode_scalars(&self.za) {
            Ok(v) => v,
            Err(_) => {
                return None;
            },
        };
        let zb = match decode_scalars(&self.zb) {
            Ok(v) => v,
            Err(_) => {
                return None;
            },
        };
        let zdh = match PeerScalar::decode(self.zdh) {
            Ok(v) => v,
            Err(_) => {
                return None;
            },
        };
        let zdk = match PeerScalar::decode(self.zdk) {
            Ok(v) => v,
            Err(_) => {
                return None;
            },
        };
        Some(DecodedGkHkProof { m, cl, ca, cb, gk, f, za, zb, zdh, zdk })
    }
}

/// The model of `a*H + b*K`.
pub open spec fn in_span(a: nat, b: nat) -> nat {
    field::plus(
        field::times(spark_generators::h_log(), a),
        field::times(spark_generators::k_log(), b),
    )
}

/// Whether a proof of membership in the span holds for these commitments and this context.
pub open spec fn membership_valid(
    proof: GkOneOfManyHkProof,
    c: Seq<nat>,
    context: Seq<u8>,
) -> bool {
    let x = groth_kohlweiss::gk_challenge(
        context,
        c,
        proof.cl@,
        proof.ca@,
        proof.cb@,
        proof.gk@,
    );
    let f = groth_kohlweiss::scalar_numbers(proof.f@);
    &&& gk_algebra::is_power_of_two(c.len())
    &&& proof.decodable()
    &&& gk_algebra::log2(c.len()) == proof.cl@.len()
    &&& groth_kohlweiss::bits_hold(
        groth_kohlweiss::point_logs(proof.cl@),
        groth_kohlweiss::point_logs(proof.ca@),
        groth_kohlweiss::point_logs(proof.cb@),
        f,
        groth_kohlweiss::scalar_numbers(proof.za@),
        groth_kohlweiss::scalar_numbers(proof.zb@),
        x,
    )
    &&& groth_kohlweiss::combination(c, f, groth_kohlweiss::point_logs(proof.gk@), x) == in_span(
        field::le_nat(proof.zdh@),
        field::le_nat(proof.zdk@),
    )
}

/// Whether `proof` is the proof that these nonces give: four for each bit, then one for
/// each lower coefficient and `H`, then one for each lower coefficient and `K`.
pub open spec fn is_membership_proof(
    proof: GkOneOfManyHkProof,
    c: Seq<nat>,
    own: nat,
    h_coef: nat,
    k_coef: nat,
    context: Seq<u8>,
    nonces: Seq<nat>,
) -> bool {
    let m = gk_algebra::log2(c.len());
    let a = groth_kohlweiss::quarter(nonces, 0, m);
    let rho_h = groth_kohlweiss::run(nonces, 4 * m as int, m);
    let rho_k = groth_kohlweiss::run(nonces, 5 * m as int, m);
    let x = groth_kohlweiss::gk_challenge(
        context,
        c,
        proof.cl@,
        proof.ca@,
        proof.cb@,
        proof.gk@,
    );
    &&& groth_kohlweiss::commits_to_bits(proof.cl@, proof.ca@, proof.cb@, own, nonces, m)
    &&& proof.gk@.len() == m
    &&& forall|k: int|
        0 <= k < m ==> group::encodes(
            (#[trigger] proof.gk@[k])@,
            field::red(
                gk_algebra::column_sum(c, own, a, m, k, c.len()) + (spark_generators::h_log()
                    * rho_h[k] + spark_generators::k_log() * rho_k[k]),
            ),
        )
    &&& groth_kohlweiss::responds_to_bits(proof.f@, proof.za@, proof.zb@, own, nonces, x, m)
    &&& proof.zdh@ == field::scalar_bytes(
        field::red(
            h_coef * gk_algebra::ipow(x as int, m) - gk_algebra::power_sum(rho_h, x as int, m),
        ),
    )
    &&& proof.zdk@ == field::scalar_bytes(
        field::red(
            k_coef * gk_algebra::ipow(x as int, m) - gk_algebra::power_sum(rho_k, x as int, m),
        ),
    )
}

/// The refusal of the statement of [`prove_one_of_many_hk_ctx`], if there is one.
pub open spec fn prove_fault(n: nat, own: int) -> Option<Seq<char>> {
    groth_kohlweiss::statement_fault(
        n,
        own,
        "GK-HK"@,
        ": set size must be a power of two >= 1"@,
    )
}

/// Proves that the commitment at `l` is `h_coef*H + k_coef*K`, without saying which it is,
/// and binds a context into the proof. The nonces are fresh random scalars, six for each
/// round.
pub fn prove_one_of_many_hk_ctx(
    commitments: &[RistrettoPoint],
    l: usize,
    h_coef: &Scalar,
    k_coef: &Scalar,
    context: &[u8],
    nonces: &[Scalar],
) -> (res: Result<GkOneOfManyHkProof>)
    requires
        nonces@.len() >= 6 * gk_algebra::log2(commitments@.len()),
    ensures
        match res {
            Ok(proof) => {
                &&& prove_fault(commitments@.len(), l as int) is None
                &&& is_membership_proof(
                    proof,
                    group::logs(commitments@),
                    l as nat,
                    h_coef@,
                    k_coef@,
                    context@,
                    group::values(nonces@),
                )
                &&& commitments@[l as int]@ == in_span(h_coef@, k_coef@)
                    && groth_kohlweiss::all_points_usable(
                    proof.cl@,
                    proof.ca@,
                    proof.cb@,
                    proof.gk@,
                ) ==> membership_valid(proof, group::logs(commitments@), context@)
            },
            Err(e) => match prove_fault(commitments@.len(), l as int) {
                Some(text) => error::is_crypto(e, text),
                None => false,
            },
        },
{
    let n: usize = commitments.len();
    let m: usize = match check_statement(n, l, "GK-HK", ": set size must be a power of two >= 1") {
        Ok(m) => m,
        Err(e) => {
            return Err(e);
        },
    };
    let ghost nv = group::values(nonces@);
    let ghost c = group::logs(commitments@);
    let a = pick(nonces, 0, 4, m);
    let rho_h = pick(nonces, 4 * m, 1, m);
    let rho_k = pick(nonces, 5 * m, 1, m);
    assert(group::values(a@) =~= groth_kohlweiss::quarter(nv, 0, m as nat));
    assert(group::values(rho_h@) =~= groth_kohlweiss::run(nv, 4 * m as int, m as nat));
    assert(group::values(rho_k@) =~= groth_kohlweiss::run(nv, 5 * m as int, m as nat));
    let (cl, ca, cb) = commit_bits(l, nonces, m);
    let sums = coefficient_sums(commitments, l, &a);
    let gk = blind_sums_pair(&sums, &rho_h, &rho_k);
    assert forall|k: int| 0 <= k < m implies group::encodes(
        (#[trigger] gk@[k])@,
        field::red(
            gk_algebra::column_sum(
                c,
                l as nat,
                groth_kohlweiss::quarter(nv, 0, m as nat),
                m as nat,
                k,
                c.len(),
            ) + (spark_generators::h_log() * groth_kohlweiss::run(
                nv,
                4 * m as int,
                m as nat,
            )[k] + spark_generators::k_log() * groth_kohlweiss::run(
                nv,
                5 * m as int,
                m as nat,
            )[k]),
        ),
    ) by {
        let col = gk_algebra::column_sum(
            c,
            l as nat,
            groth_kohlweiss::quarter(nv, 0, m as nat),
            m as nat,
            k,
            c.len(),
        );
        assert(sums@[k]@ == field::red(col));
        assert(rho_h@[k]@ == group::values(rho_h@)[k]);
        assert(rho_k@[k]@ == group::values(rho_k@)[k]);
        let ph = (spark_generators::h_log() * rho_h@[k]@) as int;
        let pk = (spark_generators::k_log() * rho_k@[k]@) as int;
        field::lemma_add_red(col, ph);
        field::lemma_add_red(col + ph, pk);
    }
    let x = challenge(context, commitments, &cl, &ca, &cb, &gk);
    let (f, za, zb) = respond_to_bits(l, nonces, &x, m);
    let zdh = final_response(h_coef, &rho_h, &x).to_bytes();
    let zdk = final_response(k_coef, &rho_k, &x).to_bytes();
    let proof = GkOneOfManyHkProof { cl, ca, cb, gk, f, za, zb, zdh, zdk };
    proof {
        if commitments@[l as int]@ == in_span(h_coef@, k_coef@)
            && groth_kohlweiss::all_points_usable(proof.cl@, proof.ca@, proof.cb@, proof.gk@) {
            law_membership_completeness(proof, c, l as nat, h_coef@, k_coef@, context@, nv);
        }
    }
    Ok(proof)
}

/// Adds `rho_h[k]*H + rho_k[k]*K` to each sum and encodes it.
fn blind_sums_pair(sums: &Vec<RistrettoPoint>, rho_h: &Vec<Scalar>, rho_k: &Vec<Scalar>) -> (r: Vec<
    [u8; 32],
>)
    requires
        sums@.len() == rho_h@.len(),
        sums@.len() == rho_k@.len(),
    ensures
        r@.len() == sums@.len(),
        forall|k: int|
            0 <= k < r@.len() ==> group::encodes(
                (#[trigger] r@[k])@,
                field::plus(
                    field::plus(
                        sums@[k]@,
                        field::times(spark_generators::h_log(), rho_h@[k]@),
                    ),
                    field::times(spark_generators::k_log(), rho_k@[k]@),
                ),
            ),
{
    let h = gen_h();
    let g = gen_k();
    let mut out: Vec<[u8; 32]> = Vec::new();
    let mut k: usize = 0;
    while k < sums.len()
        invariant
            k <= sums@.len(),
            sums@.len() == rho_h@.len(),
            sums@.len() == rho_k@.len(),
            h@ == spark_generators::h_log(),
            g@ == spark_generators::k_log(),
            out@.len() == k,
            forall|i: int|
                0 <= i < k ==> group::encodes(
                    (#[trigger] out@[i])@,
                    field::plus(
                        field::plus(
                            sums@[i]@,
                            field::times(spark_generators::h_log(), rho_h@[i]@),
                        ),
                        field::times(spark_generators::k_log(), rho_k@[i]@),
                    ),
                ),
        decreases sums@.len() - k,
    {
        out.push(sums[k].add(&h.mul(&rho_h[k])).add(&g.mul(&rho_k[k])).compress());
        k = k + 1;
    }
    out
}

/// Checks a proof that one of the commitments is in the span of `H` and `K`.
pub fn verify_one_of_many_hk_ctx(
    commitments: &[RistrettoPoint],
    proof: &GkOneOfManyHkProof,
    context: &[u8],
) -> (r: Result<()>)
    ensures
        match r {
            Ok(_) => membership_valid(*proof, group::logs(commitments@), context@),
            Err(e) => e is SparkVerifyFailed && !membership_valid(
                *proof,
                group::logs(commitments@),
                context@,
            ),
        },
{
    let n: usize = commitments.len();
    if !is_power_of_two(n) {
        return Err(Error::SparkVerifyFailed);
    }
    let m: usize = rounds(n);
    let d = match proof.decode() {
        Some(d) => d,
        None => {
            return Err(Error::SparkVerifyFailed);
        },
    };
    if d.m != m {
        return Err(Error::SparkVerifyFailed);
    }
    let x = challenge(context, commitments, &proof.cl, &proof.ca, &proof.cb, &proof.gk);
    if !bits_ok(&d.cl, &d.ca, &d.cb, &d.f, &d.za, &d.zb, &x) {
        return Err(Error::SparkVerifyFailed);
    }
    let left = combine(commitments, &d.f, &d.gk, &x);
    let right = gen_h().mul(d.zdh.as_scalar()).add(&gen_k().mul(d.zdk.as_scalar()));
    if !left.equals(&right) {
        return Err(Error::SparkVerifyFailed);
    }
    Ok(())
}

/// An honest proof verifies: where the commitment at the hidden index is
/// `h_coef*H + k_coef*K`, the proof that any nonces give is accepted, provided that no
/// point of it is the neutral element.
#[verifier::spinoff_prover]
#[verifier::rlimit(40)]
pub proof fn law_membership_completeness(
    proof: GkOneOfManyHkProof,
    c: Seq<nat>,
    own: nat,
    h_coef: nat,
    k_coef: nat,
    context: Seq<u8>,
    nonces: Seq<nat>,
)
    requires
        prove_fault(c.len(), own as int) is None,
        is_membership_proof(proof, c, own, h_coef, k_coef, context, nonces),
        c[own as int] == in_span(h_coef, k_coef),
        groth_kohlweiss::all_points_usable(proof.cl@, proof.ca@, proof.cb@, proof.gk@),
    ensures
        membership_valid(proof, c, context),
{
    let m = gk_algebra::log2(c.len());
    let a = groth_kohlweiss::quarter(nonces, 0, m);
    let rho_h = groth_kohlweiss::run(nonces, 4 * m as int, m);
    let rho_k = groth_kohlweiss::run(nonces, 5 * m as int, m);
    let x = groth_kohlweiss::gk_challenge(
        context,
        c,
        proof.cl@,
        proof.ca@,
        proof.cb@,
        proof.gk@,
    );
    let h = spark_generators::h_log() as int;
    let k = spark_generators::k_log() as int;
    let f = groth_kohlweiss::scalar_numbers(proof.f@);
    let g = groth_kohlweiss::point_logs(proof.gk@);
    let blind = Seq::new(m, |i: int| h * rho_h[i] + k * rho_k[i]);
    groth_kohlweiss::lemma_honest_bits(
        proof.cl@,
        proof.ca@,
        proof.cb@,
        proof.f@,
        proof.za@,
        proof.zb@,
        own,
        nonces,
        x,
        m,
    );
    groth_kohlweiss::lemma_usable_points(proof.cl@);
    groth_kohlweiss::lemma_usable_points(proof.ca@);
    groth_kohlweiss::lemma_usable_points(proof.cb@);
    groth_kohlweiss::lemma_usable_points(proof.gk@);
    assert forall|j: int| 0 <= j < m implies #[trigger] f[j] == field::red(
        gk_algebra::bit(own, j as nat) * x + a[j],
    ) by {
        assert(groth_kohlweiss::scalar_numbers(proof.f@)[j] == groth_kohlweiss::bit_response(
            own,
            nonces,
            x,
            j,
        ));
    }
    assert forall|i: int| 0 <= i < m implies #[trigger] g[i] == field::red(
        gk_algebra::column_sum(c, own, a, m, i, c.len()) + blind[i],
    ) by {
        assert(group::encodes(
            proof.gk@[i]@,
            field::red(
                gk_algebra::column_sum(c, own, a, m, i, c.len()) + (spark_generators::h_log()
                    * rho_h[i] + spark_generators::k_log() * rho_k[i]),
            ),
        ));
    }
    gk_algebra::lemma_one_of_many(c, g, blind, f, own, a, x as int, m);
    gk_algebra::lemma_blind_sum_scaled_pair(h, k, rho_h, rho_k, blind, x as int, m);
    let xm = gk_algebra::ipow(x as int, m);
    let sh = gk_algebra::power_sum(rho_h, x as int, m);
    let sk = gk_algebra::power_sum(rho_k, x as int, m);
    field::lemma_red_range(h_coef * xm - sh);
    field::lemma_red_range(k_coef * xm - sk);
    field::lemma_scalar_bytes(field::red(h_coef * xm - sh));
    field::lemma_scalar_bytes(field::red(k_coef * xm - sk));
    field::lemma_times_right(h as nat, h_coef * xm - sh);
    field::lemma_times_right(k as nat, k_coef * xm - sk);
    field::lemma_add_red(h * (h_coef * xm - sh), k * (k_coef * xm - sk));
    let span = h * h_coef + k * k_coef;
    field::lemma_add_red(h * h_coef, k * k_coef);
    field::lemma_times_red_left(span, xm);
    let blinds = h * sh + k * sk;
    field::lemma_sub_red(c[own as int] * xm, blinds);
    field::lemma_sub_red(span * xm, blinds);
    assert(span * xm - blinds == h * (h_coef * xm - sh) + k * (k_coef * xm - sk))
        by (nonlinear_arith)
        requires
            span == h * h_coef + k * k_coef,
            blinds == h * sh + k * sk,
    ;
}

/// In every round of an accepted proof both group equations of the bit hold, under the
/// challenge that the string of the proof hashes to.
pub proof fn law_accepted_rounds(proof: GkOneOfManyHkProof, c: Seq<nat>, context: Seq<u8>, j: int)
    requires
        membership_valid(proof, c, context),
        0 <= j < proof.cl@.len(),
    ensures
        ({
            let x = field::red(
                field::le_nat(
                    hashing::sha3_512(
                        groth_kohlweiss::gk_input(
                            context,
                            c,
                            proof.cl@,
                            proof.ca@,
                            proof.cb@,
                            proof.gk@,
                        ),
                    ),
                ) as int,
            );
            let k = spark_generators::k_log();
            let cl = group::ristretto_log(proof.cl@[j]@)->0;
            let ca = group::ristretto_log(proof.ca@[j]@)->0;
            let cb = group::ristretto_log(proof.cb@[j]@)->0;
            let f = field::le_nat(proof.f@[j]@);
            let za = field::le_nat(proof.za@[j]@);
            let zb = field::le_nat(proof.zb@[j]@);
            &&& field::plus(field::times(cl, x), ca) == field::plus(
                field::times(1, f),
                field::times(k, za),
            )
            &&& field::plus(field::times(cl, field::minus(x, f)), cb) == field::times(k, zb)
        }),
{
    let cl = groth_kohlweiss::point_logs(proof.cl@);
    assert(cl[j] == group::ristretto_log(proof.cl@[j]@)->0);
}

/// Two accepted proofs with the same bit commitments and two challenges open the commitment
/// of every round to a bit, unless they give a relation between `G` and `K`.
pub proof fn law_accepted_proofs_open_the_bits(
    p: GkOneOfManyHkProof,
    c1: Seq<nat>,
    context1: Seq<u8>,
    q: GkOneOfManyHkProof,
    c2: Seq<nat>,
    context2: Seq<u8>,
    j: int,
    u: nat,
)
    requires
        membership_valid(p, c1, context1),
        membership_valid(q, c2, context2),
        p.cl@ == q.cl@,
        p.ca@ == q.ca@,
        p.cb@ == q.cb@,
        0 <= j < p.cl@.len(),
        group::ristretto_log(p.cl@[j]@)->0 < field::order(),
        field::times(
            u,
            field::minus(
                groth_kohlweiss::gk_challenge(context1, c1, p.cl@, p.ca@, p.cb@, p.gk@),
                groth_kohlweiss::gk_challenge(context2, c2, q.cl@, q.ca@, q.cb@, q.gk@),
            ),
        ) == 1,
    ensures
        ({
            let k = spark_generators::k_log();
            let cl = group::ristretto_log(p.cl@[j]@)->0;
            let b = field::times(
                u,
                field::minus(field::le_nat(p.f@[j]@), field::le_nat(q.f@[j]@)),
            );
            let r = field::times(
                u,
                field::minus(field::le_nat(p.za@[j]@), field::le_nat(q.za@[j]@)),
            );
            let s = field::times(
                u,
                field::minus(field::le_nat(p.zb@[j]@), field::le_nat(q.zb@[j]@)),
            );
            let rest = field::minus(1, b);
            &&& cl == field::plus(b, field::times(k, r))
            &&& field::times(cl, rest) == field::times(k, s)
            &&& field::times(b, rest) == field::times(
                k,
                field::minus(s, field::times(r, rest)),
            )
        }),
{
    law_accepted_rounds(p, c1, context1, j);
    law_accepted_rounds(q, c2, context2, j);
    groth_kohlweiss::law_round_opens_to_a_bit(
        group::ristretto_log(p.cl@[j]@)->0,
        group::ristretto_log(p.ca@[j]@)->0,
        group::ristretto_log(p.cb@[j]@)->0,
        groth_kohlweiss::gk_challenge(context1, c1, p.cl@, p.ca@, p.cb@, p.gk@),
        field::le_nat(p.f@[j]@),
        field::le_nat(p.za@[j]@),
        field::le_nat(p.zb@[j]@),
        groth_kohlweiss::gk_challenge(context2, c2, q.cl@, q.ca@, q.cb@, q.gk@),
        field::le_nat(q.f@[j]@),
        field::le_nat(q.za@[j]@),
        field::le_nat(q.zb@[j]@),
        u,
    );
}

/// An accepted proof is no longer accepted once a response `za` or `zb` of a round is
/// changed.
pub proof fn law_changed_answer_refused(
    p: GkOneOfManyHkProof,
    q: GkOneOfManyHkProof,
    c: Seq<nat>,
    context: Seq<u8>,
    j: int,
)
    requires
        membership_valid(p, c, context),
        p.cl@ == q.cl@,
        p.ca@ == q.ca@,
        p.cb@ == q.cb@,
        p.gk@ == q.gk@,
        p.f@ == q.f@,
        0 <= j < p.cl@.len(),
        p.za@[j] != q.za@[j] || p.zb@[j] != q.zb@[j],
        field::unit(spark_generators::k_log()),
    ensures
        !membership_valid(q, c, context),
{
    if membership_valid(q, c, context) {
        let k = spark_generators::k_log();
        broadcast use field::lemma_red_range;

        law_accepted_rounds(p, c, context, j);
        law_accepted_rounds(q, c, context, j);
        let (a1, a2) = (field::le_nat(p.za@[j]@), field::le_nat(q.za@[j]@));
        let (b1, b2) = (field::le_nat(p.zb@[j]@), field::le_nat(q.zb@[j]@));
        groth_kohlweiss::lemma_scalar_in_range(p.za@, j);
        groth_kohlweiss::lemma_scalar_in_range(q.za@, j);
        groth_kohlweiss::lemma_scalar_in_range(p.zb@, j);
        groth_kohlweiss::lemma_scalar_in_range(q.zb@, j);
        field::lemma_cancel_term(
            field::times(1, field::le_nat(p.f@[j]@)),
            field::times(k, a1),
            field::times(k, a2),
        );
        field::lemma_cancel(k, a1, a2);
        field::lemma_cancel(k, b1, b2);
        field::lemma_same_number(p.za@[j]@, q.za@[j]@);
        field::lemma_same_number(p.zb@[j]@, q.zb@[j]@);
        assert(p.za@[j] =~= q.za@[j]);
        assert(p.zb@[j] =~= q.zb@[j]);
    }
}

/// An accepted proof is no longer accepted once one of its two last responses is changed.
pub proof fn law_changed_last_answer_refused(
    p: GkOneOfManyHkProof,
    q: GkOneOfManyHkProof,
    c: Seq<nat>,
    context: Seq<u8>,
)
    requires
        membership_valid(p, c, context),
        p.cl@ == q.cl@,
        p.ca@ == q.ca@,
        p.cb@ == q.cb@,
        p.gk@ == q.gk@,
        p.f@ == q.f@,
        (p.zdh@ == q.zdh@ && p.zdk@ != q.zdk@) || (p.zdh@ != q.zdh@ && p.zdk@ == q.zdk@),
        field::unit(spark_generators::h_log()),
        field::unit(spark_generators::k_log()),
    ensures
        !membership_valid(q, c, context),
{
    if membership_valid(q, c, context) {
        let h = spark_generators::h_log();
        let k = spark_generators::k_log();
        broadcast use field::lemma_red_range;

        let (x1, x2) = (field::le_nat(p.zdh@), field::le_nat(q.zdh@));
        let (y1, y2) = (field::le_nat(p.zdk@), field::le_nat(q.zdk@));
        assert(in_span(x1, y1) == in_span(x2, y2));
        if p.zdh@ == q.zdh@ {
            field::lemma_cancel_term(
                field::times(h, x1),
                field::times(k, y1),
                field::times(k, y2),
            );
            field::lemma_cancel(k, y1, y2);
            field::lemma_same_number(p.zdk@, q.zdk@);
        } else {
            let t = field::times(k, y1);
            assert(in_span(x1, y1) == field::plus(t, field::times(h, x1)));
            assert(in_span(x2, y2) == field::plus(t, field::times(h, x2)));
            field::lemma_cancel_term(t, field::times(h, x1), field::times(h, x2));
            field::lemma_cancel(h, x1, x2);
            field::lemma_same_number(p.zdh@, q.zdh@);
        }
    }
}

/// The challenges of a list of proofs.
pub open spec fn challenges(
    proofs: Seq<GkOneOfManyHkProof>,
    contexts: Seq<Seq<u8>>,
    c: Seq<nat>,
) -> Seq<int> {
    Seq::new(
        proofs.len(),
        |t: int|
            groth_kohlweiss::gk_challenge(
                contexts[t],
                c,
                proofs[t].cl@,
                proofs[t].ca@,
                proofs[t].cb@,
                proofs[t].gk@,
            ) as int,
    )
}

/// The last responses on `H` of a list of proofs.
pub open spec fn last_answers_h(proofs: Seq<GkOneOfManyHkProof>) -> Seq<int> {
    Seq::new(proofs.len(), |t: int| field::le_nat(proofs[t].zdh@) as int)
}

/// The last responses on `K` of a list of proofs.
pub open spec fn last_answers_k(proofs: Seq<GkOneOfManyHkProof>) -> Seq<int> {
    Seq::new(proofs.len(), |t: int| field::le_nat(proofs[t].zdk@) as int)
}

/// What acceptance proves. Take accepted proofs over one set with the same lower
/// coefficients, whose digit responses answer their challenges by the bits of one index,
/// and weights that pick the leading coefficient out of a polynomial by its values at the
/// challenges. Then the member at the index is a combination of `H` and `K` by the weighted
/// sums of the last responses: the prover knows an opening of a member without value.
pub proof fn law_accepted_proofs_open_a_member(
    proofs: Seq<GkOneOfManyHkProof>,
    contexts: Seq<Seq<u8>>,
    c: Seq<nat>,
    own: nat,
    a: Seq<nat>,
    w: Seq<int>,
)
    requires
        proofs.len() > 0,
        forall|t: int|
            0 <= t < proofs.len() ==> membership_valid(#[trigger] proofs[t], c, contexts[t])
                && proofs[t].gk@ == proofs[0].gk@,
        forall|i: int|
            0 <= i < proofs[0].gk@.len() ==> #[trigger] groth_kohlweiss::point_logs(
                proofs[0].gk@,
            )[i] < field::order(),
        own < c.len(),
        c[own as int] < field::order(),
        a.len() == gk_algebra::log2(c.len()),
        forall|t: int, j: int|
            0 <= t < proofs.len() && 0 <= j < a.len() ==> field::le_nat(
                #[trigger] proofs[t].f@[j]@,
            ) == field::red(
                gk_algebra::bit(own, j as nat) * challenges(proofs, contexts, c)[t] + a[j],
            ),
        gk_algebra::picks_leading(w, challenges(proofs, contexts, c), a.len()),
    ensures
        c[own as int] == in_span(
            field::red(gk_algebra::weighted(w, last_answers_h(proofs), proofs.len())),
            field::red(gk_algebra::weighted(w, last_answers_k(proofs), proofs.len())),
        ),
{
    let n = proofs.len();
    let m = a.len();
    let h = spark_generators::h_log() as int;
    let k = spark_generators::k_log() as int;
    let xs = challenges(proofs, contexts, c);
    let y = last_answers_h(proofs);
    let z = last_answers_k(proofs);
    let g = groth_kohlweiss::point_logs(proofs[0].gk@);
    let lead = c[own as int] as int;
    let d = groth_kohlweiss::lower_rest(c, g, own, a, m);
    let v = Seq::new(n, |t: int| h * y[t] + k * z[t]);
    assert forall|t: int| 0 <= t < n implies field::red(#[trigger] v[t]) == field::red(
        lead * gk_algebra::ipow(xs[t], m) - gk_algebra::blind_sum(d, xs[t], m),
    ) by {
        let p = proofs[t];
        assert(membership_valid(p, c, contexts[t]));
        let f = groth_kohlweiss::scalar_numbers(p.f@);
        let x = groth_kohlweiss::gk_challenge(contexts[t], c, p.cl@, p.ca@, p.cb@, p.gk@);
        assert(xs[t] == x);
        assert forall|j: int| 0 <= j < f.len() implies #[trigger] f[j] == field::red(
            gk_algebra::bit(own, j as nat) * x + a[j],
        ) by {
            assert(field::le_nat(proofs[t].f@[j]@) == f[j]);
        }
        groth_kohlweiss::law_combination_is_a_polynomial(c, f, g, own, a, x);
        field::lemma_add_red(h * y[t], k * z[t]);
    }
    gk_algebra::lemma_leading_picked(w, xs, v, d, lead, m);
    gk_algebra::lemma_weighted_pair(w, v, h, y, k, z, n);
    let s = gk_algebra::weighted(w, y, n);
    let r = gk_algebra::weighted(w, z, n);
    field::lemma_times_right(h as nat, s);
    field::lemma_times_right(k as nat, r);
    field::lemma_add_red(h * s, k * r);
    field::lemma_red_small(c[own as int]);
}

/// An accepted proof is in canonical form: between one and twenty rounds, every vector as
/// long as there are rounds, every point an encoding of an element that is not neutral,
/// and every scalar below the order.
pub proof fn law_accepted_proof_is_canonical(
    proof: GkOneOfManyHkProof,
    c: Seq<nat>,
    context: Seq<u8>,
    j: int,
)
    requires
        membership_valid(proof, c, context),
        0 <= j < proof.cl@.len(),
    ensures
        1 <= proof.cl@.len() <= 20,
        c.len() == vstd::arithmetic::power2::pow2(proof.cl@.len()),
        proof.ca@.len() == proof.cl@.len() && proof.cb@.len() == proof.cl@.len(),
        proof.gk@.len() == proof.cl@.len() && proof.f@.len() == proof.cl@.len(),
        proof.za@.len() == proof.cl@.len() && proof.zb@.len() == proof.cl@.len(),
        group::ristretto_log(proof.cl@[j]@) matches Some(k) && k != 0,
        group::ristretto_log(proof.ca@[j]@) matches Some(k) && k != 0,
        group::ristretto_log(proof.cb@[j]@) matches Some(k) && k != 0,
        group::ristretto_log(proof.gk@[j]@) matches Some(k) && k != 0,
        field::le_nat(proof.f@[j]@) < field::order(),
        field::le_nat(proof.za@[j]@) < field::order(),
        field::le_nat(proof.zb@[j]@) < field::order(),
        field::le_nat(proof.zdh@) < field::order(),
        field::le_nat(proof.zdk@) < field::order(),
{
    groth_kohlweiss::lemma_scalar_in_range(proof.f@, j);
    groth_kohlweiss::lemma_scalar_in_range(proof.za@, j);
    groth_kohlweiss::lemma_scalar_in_range(proof.zb@, j);
    groth_kohlweiss::lemma_point_usable(proof.cl@, 0, j);
    groth_kohlweiss::lemma_point_usable(proof.ca@, 0, j);
    groth_kohlweiss::lemma_point_usable(proof.cb@, 0, j);
    groth_kohlweiss::lemma_point_usable(proof.gk@, 0, j);
}

} // verus!
