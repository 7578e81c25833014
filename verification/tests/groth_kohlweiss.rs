use coincync::groth_kohlweiss::{
    prove_one_of_many, verify_one_of_many, GkOneOfManyProof, MAX_GK_ROUNDS,
};
use coincync::group::{RistrettoPoint, Scalar};
use coincync::mint_binding::{prove_mint_binding, verify_mint_binding, MintBindingProof};
use coincync::one_of_many_hk::{prove_one_of_many_hk_ctx, verify_one_of_many_hk_ctx};
use coincync::shielded_spend::{
    bound_coin_commitment, prove_spend, prove_spend_bound, prove_spend_value_hidden, verify_spend,
    verify_spend_bound, verify_spend_value_hidden, SparkSpendProofV2, SparkSpendProofV3,
};
use coincync::spark_balance::{prove_balance, value_commitment, verify_balance};
use coincync::spark_generators::{gen_g, gen_gv, gen_h, gen_k};
use rand::{RngCore, SeedableRng};
use rand_chacha::ChaCha20Rng;

fn scalar(rng: &mut ChaCha20Rng) -> Scalar {
    let mut e = [0u8; 64];
    rng.fill_bytes(&mut e);
    Scalar::from_bytes_mod_order_wide(&e)
}

fn scalars(n: usize, rng: &mut ChaCha20Rng) -> Vec<Scalar> {
    (0..n).map(|_| scalar(rng)).collect()
}

/// The nonces of a proof over `n` members.
fn nonces(n: usize, rng: &mut ChaCha20Rng) -> Vec<Scalar> {
    scalars(6 * n.trailing_zeros() as usize, rng)
}

fn times(p: RistrettoPoint, v: u64) -> RistrettoPoint {
    p.mul(&Scalar::from_u64(v))
}

/// A commitment to zero with randomness `r`.
fn zero_commitment(r: &Scalar) -> RistrettoPoint {
    gen_k().mul(r)
}

/// An arbitrary commitment, fixed by its seed.
fn filler(seed: u64) -> RistrettoPoint {
    times(RistrettoPoint::basepoint(), seed + 1).add(&times(gen_k(), seed * 7 + 3))
}

fn tweak(bytes: [u8; 32]) -> [u8; 32] {
    Scalar::from_bytes_mod_order(&bytes).add(&Scalar::one()).to_bytes()
}

fn coin(m: &Scalar, r: &Scalar) -> RistrettoPoint {
    gen_g().mul(m).add(&gen_k().mul(r))
}

/// A bound coin `v*Gv + h*H + r*K`.
fn bound(v: u64, h: &Scalar, r: &Scalar) -> RistrettoPoint {
    times(gen_gv(), v).add(&gen_h().mul(h)).add(&gen_k().mul(r))
}

fn hk(h: &Scalar, k: &Scalar) -> RistrettoPoint {
    gen_h().mul(h).add(&gen_k().mul(k))
}

#[test]
fn hk_one_of_many_round_trip_and_context_binding() {
    let mut rng = ChaCha20Rng::seed_from_u64(700);
    let h = scalar(&mut rng);
    let k = scalar(&mut rng);
    let mut coins: Vec<RistrettoPoint> = (0..4u64)
        .map(|s| bound(s + 2, &Scalar::from_u64(s + 3), &Scalar::from_u64(s + 4)))
        .collect();
    let l = 2;
    coins[l] = hk(&h, &k);
    let proof = prove_one_of_many_hk_ctx(&coins, l, &h, &k, b"ctx", &nonces(4, &mut rng)).unwrap();
    assert!(verify_one_of_many_hk_ctx(&coins, &proof, b"ctx").is_ok());
    assert!(verify_one_of_many_hk_ctx(&coins, &proof, b"other").is_err());
}

#[test]
fn hk_rejects_member_with_gv_component() {
    let mut rng = ChaCha20Rng::seed_from_u64(701);
    let h = scalar(&mut rng);
    let k = scalar(&mut rng);
    let mut coins: Vec<RistrettoPoint> = (0..4u64).map(|s| times(gen_k(), s * 5 + 2)).collect();
    let l = 1;
    coins[l] = hk(&h, &k);
    let proof = prove_one_of_many_hk_ctx(&coins, l, &h, &k, b"c", &nonces(4, &mut rng)).unwrap();
    assert!(verify_one_of_many_hk_ctx(&coins, &proof, b"c").is_ok());
    let mut tampered = coins.clone();
    tampered[l] = tampered[l].add(&times(gen_gv(), 1));
    assert!(verify_one_of_many_hk_ctx(&tampered, &proof, b"c").is_err());
}

#[test]
fn hk_tampered_response_rejected() {
    let mut rng = ChaCha20Rng::seed_from_u64(702);
    let h = scalar(&mut rng);
    let k = scalar(&mut rng);
    let mut coins: Vec<RistrettoPoint> = (0..8u64).map(|s| times(gen_k(), s + 1)).collect();
    let l = 5;
    coins[l] = hk(&h, &k);
    let mut proof = prove_one_of_many_hk_ctx(&coins, l, &h, &k, b"", &nonces(8, &mut rng)).unwrap();
    proof.zdh = tweak(proof.zdh);
    assert!(verify_one_of_many_hk_ctx(&coins, &proof, b"").is_err());
}

#[test]
fn spark_spend_v4_round_trip_and_value_binding() {
    let mut rng = ChaCha20Rng::seed_from_u64(703);
    let value = 1_000_000u64;
    let h_coef = scalar(&mut rng);
    let r = scalar(&mut rng);
    let vb = scalar(&mut rng);
    let mut coins: Vec<RistrettoPoint> = (0..4u64)
        .map(|s| bound(s + 5, &Scalar::from_u64(s + 6), &Scalar::from_u64(s + 7)))
        .collect();
    let l = 3;
    coins[l] = bound(value, &h_coef, &r);

    let msg = [7u8; 32];
    let proof =
        prove_spend_value_hidden(&coins, l, value, &h_coef, &r, &vb, &msg, &nonces(4, &mut rng))
            .unwrap();
    let v = verify_spend_value_hidden(&coins, &proof, &msg).unwrap();
    assert_eq!(v, times(gen_gv(), value).add(&gen_k().mul(&vb)));
    assert!(verify_spend_value_hidden(&coins, &proof, &[8u8; 32]).is_err());
    let mut bad = proof.clone();
    bad.value_commitment = tweak(bad.value_commitment);
    assert!(verify_spend_value_hidden(&coins, &bad, &msg).is_err());
}

#[test]
fn spark_spend_v2_round_trips_and_structurally_decodes() {
    let p = SparkSpendProofV2 {
        one_of_many: well_formed(3),
        serial: canon_scalar(),
        message: [9u8; 32],
    };
    let bytes = p.encode();
    assert_eq!(SparkSpendProofV2::from_bytes(&bytes).unwrap(), p);
    let (oom, _serial) = p.decode().unwrap();
    assert_eq!(oom.m, 3);
    let mut bad = p.clone();
    bad.serial = [0xFFu8; 32];
    assert!(bad.decode().is_err(), "non-canonical serial rejected");
    let mut extra = bytes.clone();
    extra.push(0);
    assert!(SparkSpendProofV2::from_bytes(&extra).is_err());
}

#[test]
fn spend_completeness() {
    let mut rng = ChaCha20Rng::seed_from_u64(10);
    let message = [3u8; 32];
    for m_bits in 1..=3usize {
        let n = 1usize << m_bits;
        let openings: Vec<(Scalar, Scalar)> =
            (0..n).map(|_| (scalar(&mut rng), scalar(&mut rng))).collect();
        let coins: Vec<RistrettoPoint> = openings.iter().map(|(m, r)| coin(m, r)).collect();
        for l in [0usize, n / 2, n - 1] {
            let (ml, rl) = &openings[l];
            let proof = prove_spend(&coins, l, ml, rl, &message, &nonces(n, &mut rng)).unwrap();
            assert!(
                verify_spend(&coins, &proof, &message).is_ok(),
                "honest spend must verify (m_bits={m_bits}, l={l})"
            );
        }
    }
}

#[test]
fn spend_soundness_and_binding() {
    let mut rng = ChaCha20Rng::seed_from_u64(11);
    let message = [7u8; 32];
    let n = 8usize;
    let openings: Vec<(Scalar, Scalar)> =
        (0..n).map(|_| (scalar(&mut rng), scalar(&mut rng))).collect();
    let coins: Vec<RistrettoPoint> = openings.iter().map(|(m, r)| coin(m, r)).collect();
    let l = 5usize;
    let (ml, rl) = (openings[l].0, openings[l].1);
    let proof = prove_spend(&coins, l, &ml, &rl, &message, &nonces(n, &mut rng)).unwrap();
    assert!(verify_spend(&coins, &proof, &message).is_ok());

    assert!(verify_spend(&coins, &proof, &[0u8; 32]).is_err(), "wrong message rejected");
    let mut m2 = proof.clone();
    m2.message = [0u8; 32];
    assert!(verify_spend(&coins, &m2, &message).is_err());
    assert!(verify_spend(&coins, &m2, &[0u8; 32]).is_err());

    let mut s2 = proof.clone();
    s2.serial = ml.add(&Scalar::one()).to_bytes();
    assert!(verify_spend(&coins, &s2, &message).is_err(), "tampered serial rejected");

    let mut t2 = proof.clone();
    t2.one_of_many.f[0] = tweak(t2.one_of_many.f[0]);
    assert!(verify_spend(&coins, &t2, &message).is_err(), "tampered proof rejected");

    let mut other = coins.clone();
    other[0] = coin(&scalar(&mut rng), &scalar(&mut rng));
    assert!(verify_spend(&other, &proof, &message).is_err(), "proof is set-bound");

    let wrong = scalar(&mut rng);
    assert!(prove_spend(&coins, l, &ml, &wrong, &message, &nonces(n, &mut rng)).is_err());
    let shifted = ml.add(&Scalar::one());
    assert!(prove_spend(&coins, l, &shifted, &rl, &message, &nonces(n, &mut rng)).is_err());
    let (m0, r0) = (openings[0].0, openings[0].1);
    assert!(
        prove_spend(&coins, l, &m0, &r0, &message, &nonces(n, &mut rng)).is_err(),
        "opening of the wrong coin rejected"
    );
}

#[test]
fn nullifier_is_deterministic_per_coin_and_message_independent() {
    let mut rng = ChaCha20Rng::seed_from_u64(12);
    let n = 4usize;
    let openings: Vec<(Scalar, Scalar)> =
        (0..n).map(|_| (scalar(&mut rng), scalar(&mut rng))).collect();
    let coins: Vec<RistrettoPoint> = openings.iter().map(|(m, r)| coin(m, r)).collect();
    let l = 2usize;
    let (ml, rl) = (openings[l].0, openings[l].1);

    let p_a = prove_spend(&coins, l, &ml, &rl, &[1u8; 32], &nonces(n, &mut rng)).unwrap();
    let p_b = prove_spend(&coins, l, &ml, &rl, &[2u8; 32], &nonces(n, &mut rng)).unwrap();
    assert_eq!(p_a.nullifier(), p_b.nullifier(), "same coin → same nullifier");

    let (m0, r0) = (openings[0].0, openings[0].1);
    let p_other = prove_spend(&coins, 0, &m0, &r0, &[1u8; 32], &nonces(n, &mut rng)).unwrap();
    assert_ne!(p_a.nullifier(), p_other.nullifier(), "distinct coins → distinct nullifiers");
    assert_ne!(p_a.nullifier(), [0u8; 32]);
}

#[test]
fn bound_spend_completeness_and_returns_value_commitment() {
    let mut rng = ChaCha20Rng::seed_from_u64(20);
    let message = [4u8; 32];
    for m_bits in 1..=3usize {
        let n = 1usize << m_bits;
        let vals: Vec<u64> = (0..n).map(|i| (i as u64 + 1) * 10).collect();
        let sers = scalars(n, &mut rng);
        let blinds = scalars(n, &mut rng);
        let coins: Vec<RistrettoPoint> =
            (0..n).map(|i| bound_coin_commitment(vals[i], &sers[i], &blinds[i])).collect();
        for l in [0usize, n - 1] {
            let vb = scalar(&mut rng);
            let ns = nonces(n, &mut rng);
            let proof =
                prove_spend_bound(&coins, l, vals[l], &sers[l], &blinds[l], &vb, &message, &ns)
                    .unwrap();
            let v = verify_spend_bound(&coins, &proof, &message).unwrap();
            assert_eq!(v, times(gen_gv(), vals[l]).add(&gen_k().mul(&vb)));
        }
    }
}

#[test]
fn bound_spend_binds_value_serial_message_and_set() {
    let mut rng = ChaCha20Rng::seed_from_u64(21);
    let message = [7u8; 32];
    let n = 8usize;
    let vals: Vec<u64> = (0..n).map(|i| (i as u64 + 1) * 7).collect();
    let sers = scalars(n, &mut rng);
    let blinds = scalars(n, &mut rng);
    let coins: Vec<RistrettoPoint> =
        (0..n).map(|i| bound_coin_commitment(vals[i], &sers[i], &blinds[i])).collect();
    let l = 5usize;
    let vb = scalar(&mut rng);
    let ns = nonces(n, &mut rng);
    let proof =
        prove_spend_bound(&coins, l, vals[l], &sers[l], &blinds[l], &vb, &message, &ns).unwrap();
    assert!(verify_spend_bound(&coins, &proof, &message).is_ok());
    let bytes = proof.encode();
    assert_eq!(SparkSpendProofV3::from_bytes(&bytes).unwrap(), proof);
    assert!(SparkSpendProofV3::from_bytes(&bytes[1..]).is_err());

    let mut wrong_value = proof.clone();
    wrong_value.value_commitment =
        times(gen_gv(), vals[l] + 1).add(&gen_k().mul(&vb)).compress();
    assert!(
        verify_spend_bound(&coins, &wrong_value, &message).is_err(),
        "value is bound to the spent coin"
    );

    assert!(verify_spend_bound(&coins, &proof, &[0u8; 32]).is_err());
    let mut tam = proof.clone();
    tam.one_of_many.f[0] = tweak(tam.one_of_many.f[0]);
    assert!(verify_spend_bound(&coins, &tam, &message).is_err());
    let mut other = coins.clone();
    other[0] = bound_coin_commitment(999, &scalar(&mut rng), &scalar(&mut rng));
    assert!(verify_spend_bound(&other, &proof, &message).is_err());
    let mut nid = proof.clone();
    nid.value_commitment = [0u8; 32];
    assert!(verify_spend_bound(&coins, &nid, &message).is_err());

    let ns = nonces(n, &mut rng);
    assert!(prove_spend_bound(
        &coins,
        l,
        vals[l] + 1,
        &sers[l],
        &blinds[l],
        &vb,
        &message,
        &ns
    )
    .is_err());
}

#[test]
fn bound_spend_plus_balance_prevents_inflation() {
    let mut rng = ChaCha20Rng::seed_from_u64(22);
    let message = [9u8; 32];
    let n = 4usize;
    let vals = [5u64, 3, 11, 2];
    let sers = scalars(n, &mut rng);
    let blinds = scalars(n, &mut rng);
    let coins: Vec<RistrettoPoint> =
        (0..n).map(|i| bound_coin_commitment(vals[i], &sers[i], &blinds[i])).collect();

    let (vb0, vb1) = (scalar(&mut rng), scalar(&mut rng));
    let n0 = nonces(n, &mut rng);
    let p0 =
        prove_spend_bound(&coins, 0, vals[0], &sers[0], &blinds[0], &vb0, &message, &n0).unwrap();
    let n1 = nonces(n, &mut rng);
    let p1 =
        prove_spend_bound(&coins, 1, vals[1], &sers[1], &blinds[1], &vb1, &message, &n1).unwrap();
    let vin0 = verify_spend_bound(&coins, &p0, &message).unwrap();
    let vin1 = verify_spend_bound(&coins, &p1, &message).unwrap();

    let fee = 2u64;
    let out_b = scalar(&mut rng);
    let vout = vec![value_commitment(6, &out_b)];
    let k = scalar(&mut rng);
    let bal =
        prove_balance(&[vals[0], vals[1]], &[vb0, vb1], &[6], &[out_b], fee, &message, &k).unwrap();
    assert!(verify_balance(&[vin0, vin1], &vout, fee, &bal, &message).is_ok());

    let b = scalar(&mut rng);
    let k = scalar(&mut rng);
    assert!(
        prove_balance(&[vals[0], vals[1]], &[vb0, vb1], &[100], &[b], fee, &message, &k).is_err()
    );
    let vout_big = vec![value_commitment(100, &out_b)];
    assert!(verify_balance(&[vin0, vin1], &vout_big, fee, &bal, &message).is_err());
}

#[test]
fn mint_binding_ties_tree_coin_value_to_published_value_commitment() {
    let mut rng = ChaCha20Rng::seed_from_u64(30);
    let value = 250u64;
    let serial = scalar(&mut rng);
    let coin_blinding = scalar(&mut rng);
    let value_blinding = scalar(&mut rng);

    let c_out = bound_coin_commitment(value, &serial, &coin_blinding);
    let v_out = times(gen_gv(), value).add(&gen_k().mul(&value_blinding));
    let ns = [scalar(&mut rng), scalar(&mut rng), scalar(&mut rng), scalar(&mut rng)];
    let proof = prove_mint_binding(value, &serial, &coin_blinding, &value_blinding, &ns);
    assert!(verify_mint_binding(&c_out, &v_out, &proof).is_ok());

    assert_eq!(MintBindingProof::from_bytes(&proof.encode()).unwrap(), proof);

    let v_wrong = times(gen_gv(), value + 1).add(&gen_k().mul(&value_blinding));
    assert!(
        verify_mint_binding(&c_out, &v_wrong, &proof).is_err(),
        "tree-coin value must equal the published value commitment"
    );
    let c_wrong = bound_coin_commitment(value + 1, &serial, &coin_blinding);
    assert!(verify_mint_binding(&c_wrong, &v_out, &proof).is_err());
    let mut tam = proof.clone();
    tam.zv = tweak(tam.zv);
    assert!(verify_mint_binding(&c_out, &v_out, &tam).is_err());
}

#[test]
fn one_of_many_completeness() {
    let mut rng = ChaCha20Rng::seed_from_u64(1);
    for m in 1..=4usize {
        let n = 1usize << m;
        for l in [0usize, n / 2, n - 1] {
            let r = scalar(&mut rng);
            let mut commits: Vec<RistrettoPoint> = (0..n).map(|i| filler(i as u64)).collect();
            commits[l] = zero_commitment(&r);
            let proof = prove_one_of_many(&commits, l, &r, &nonces(n, &mut rng)).unwrap();
            assert!(
                verify_one_of_many(&commits, &proof).is_ok(),
                "honest proof must verify (m={m}, l={l})"
            );
        }
    }
}

#[test]
fn one_of_many_soundness() {
    let mut rng = ChaCha20Rng::seed_from_u64(2);
    let (m, l) = (3usize, 5usize);
    let n = 1usize << m;
    let r = scalar(&mut rng);
    let mut commits: Vec<RistrettoPoint> = (0..n).map(|i| filler(i as u64)).collect();
    commits[l] = zero_commitment(&r);
    let proof = prove_one_of_many(&commits, l, &r, &nonces(n, &mut rng)).unwrap();
    assert!(verify_one_of_many(&commits, &proof).is_ok());

    let mut bad = proof.clone();
    bad.f[0] = tweak(bad.f[0]);
    assert!(verify_one_of_many(&commits, &bad).is_err(), "tampered f rejected");

    let mut bad_zd = proof.clone();
    bad_zd.zd = tweak(bad_zd.zd);
    assert!(verify_one_of_many(&commits, &bad_zd).is_err(), "tampered zd rejected");

    let mut nonzero = commits.clone();
    nonzero[l] = zero_commitment(&r).add(&times(gen_g(), 3));
    let forged = prove_one_of_many(&nonzero, l, &r, &nonces(n, &mut rng)).unwrap();
    assert!(
        verify_one_of_many(&nonzero, &forged).is_err(),
        "a non-zero hidden commitment must fail the one-of-many equation"
    );

    let mut other = commits.clone();
    other[0] = filler(9999);
    assert!(
        verify_one_of_many(&other, &proof).is_err(),
        "proof must not verify against a different commitment set"
    );
}

fn canon_point() -> [u8; 32] {
    times(RistrettoPoint::basepoint(), 7).compress()
}

fn canon_scalar() -> [u8; 32] {
    Scalar::from_u64(5).to_bytes()
}

fn well_formed(m: usize) -> GkOneOfManyProof {
    GkOneOfManyProof {
        cl: vec![canon_point(); m],
        ca: vec![canon_point(); m],
        cb: vec![canon_point(); m],
        gk: vec![canon_point(); m],
        f: vec![canon_scalar(); m],
        za: vec![canon_scalar(); m],
        zb: vec![canon_scalar(); m],
        zd: canon_scalar(),
    }
}

#[test]
fn borsh_round_trips() {
    let p = well_formed(4);
    let bytes = p.encode();
    let back = GkOneOfManyProof::from_bytes(&bytes).unwrap();
    assert_eq!(p, back);
    // Seven lists, each with its length in front, and one scalar.
    assert_eq!(bytes.len(), 7 * (4 + 4 * 32) + 32);
    let lists = (&p.cl, &p.ca, &p.cb, &p.gk, &p.f, &p.za, &p.zb, &p.zd);
    assert_eq!(bytes, borsh::to_vec(&lists).unwrap());
}

#[test]
fn decode_accepts_well_formed_and_reports_m() {
    let decoded = well_formed(3).decode().unwrap();
    assert_eq!(decoded.m, 3);
    assert_eq!(decoded.cl.len(), 3);
    assert_eq!(decoded.f.len(), 3);
}

#[test]
fn decode_rejects_bad_shape() {
    assert!(well_formed(0).decode().is_err(), "m=0 rejected");
    assert!(well_formed(MAX_GK_ROUNDS + 1).decode().is_err(), "m over cap rejected");
    let mut p = well_formed(3);
    p.ca.pop();
    assert!(p.decode().is_err(), "mismatched field length rejected");
}

#[test]
fn decode_rejects_non_canonical_scalar_and_point() {
    let mut p = well_formed(2);
    p.f[0] = [0xFFu8; 32];
    assert!(p.decode().is_err(), "non-canonical scalar rejected");

    let mut p2 = well_formed(2);
    p2.cl[0] = [0u8; 32];
    assert!(p2.decode().is_err(), "identity commitment rejected");

    let mut p3 = well_formed(2);
    p3.gk[1] = [0xFFu8; 32];
    assert!(p3.decode().is_err(), "invalid point rejected");
}

#[test]
fn the_set_must_be_a_power_of_two() {
    let commits = vec![filler(1), filler(2), filler(3)];
    let ns = scalars(15, &mut ChaCha20Rng::seed_from_u64(5));
    assert!(prove_one_of_many(&commits, 0, &Scalar::one(), &ns).is_err());
    assert!(prove_one_of_many(&commits[..2], 2, &Scalar::one(), &ns).is_err());
    assert!(verify_one_of_many(&commits, &well_formed(2)).is_err());
}
