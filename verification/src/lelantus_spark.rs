//! Shielded coins and one-out-of-many spend proofs in the form of a Schnorr ring.
//!
//! A coin is a commitment `C = v*G + s*H + r*K` to a value `v` and a serial number `s`. A
//! spend shows that one of the keys `P_i = C_i - v*G - r*K` is a known multiple of `H`,
//! without saying which, and publishes the tag `T = s*G` by which a second spend of the
//! same coin is recognised.
use vstd::prelude::*;
use crate::bytes;
use crate::bytes::{append, append_tag, append_u64};
use crate::error;
use crate::error::{Error, Result};
use crate::field;
use crate::group;
use crate::group::{RistrettoPoint, Scalar};
use crate::hashing;
use crate::spark_generators;
use crate::spark_generators::{gen_g, gen_h, gen_k};

verus! {

/// The model of the coin `v*G + s*H + r*K`.
pub open spec fn coin(v: nat, s: nat, r: nat) -> nat {
    field::plus(
        field::plus(field::times(1, v), field::times(spark_generators::h_log(), s)),
        field::times(spark_generators::k_log(), r),
    )
}

/// The model of `C - v*G - r*K`.
pub open spec fn coin_key(c: nat, v: nat, r: nat) -> nat {
    field::minus(
        field::minus(c, field::times(1, v)),
        field::times(spark_generators::k_log(), r),
    )
}

/// Commits to a value under a serial number and a blinding factor.
pub fn spark_commit(value: u64, serial: &Scalar, randomness: &Scalar) -> (r: RistrettoPoint)
    ensures
        r@ == coin(value as nat, serial@, randomness@),
{
    let v = Scalar::from_u64(value);
    gen_g().mul(&v).add(&gen_h().mul(serial)).add(&gen_k().mul(randomness))
}

/// What is left of a coin once its value and its blinding are taken out: `s*H` for a
/// coin that was made with that value and that blinding.
pub fn spark_pubkey(commitment: &RistrettoPoint, value: u64, randomness: &Scalar) -> (r:
    RistrettoPoint)
    ensures
        r@ == coin_key(commitment@, value as nat, randomness@),
{
    let v = Scalar::from_u64(value);
    commitment.sub(&gen_g().mul(&v)).sub(&gen_k().mul(randomness))
}

/// The tag of a serial number, `s*G`.
pub fn spark_serial_tag(serial: &Scalar) -> (r: RistrettoPoint)
    ensures
        r@ == serial@,
{
    RistrettoPoint::mul_base(serial)
}

/// A minted coin with its opening.
#[derive(Clone, Debug, PartialEq, Eq)]
pub struct SparkNote {
    /// The coin, encoded.
    pub commitment: [u8; 32],
    /// The value in atomic units.
    pub value: u64,
    /// The serial number.
    pub serial: [u8; 32],
    /// The blinding factor.
    pub randomness: [u8; 32],
    /// The diversifier of the receiving address.
    pub diversifier: [u8; 11],
    /// The height at which the coin was minted.
    pub height: u64,
    /// The index of the coin in the accumulator.
    pub coin_id: u64,
}

impl SparkNote {
    /// The serial number that the note holds, reduced.
    pub open spec fn serial_value(self) -> nat {
        field::red(field::le_nat(self.serial@) as int)
    }

    /// The blinding factor that the note holds, reduced.
    pub open spec fn randomness_value(self) -> nat {
        field::red(field::le_nat(self.randomness@) as int)
    }

    /// The serial number as a scalar.
    pub fn serial_scalar(&self) -> (r: Scalar)
        ensures
            r@ == self.serial_value(),
    {
        Scalar::from_bytes_mod_order(&self.serial)
    }

    /// The blinding factor as a scalar.
    pub fn randomness_scalar(&self) -> (r: Scalar)
        ensures
            r@ == self.randomness_value(),
    {
        Scalar::from_bytes_mod_order(&self.randomness)
    }

    /// The coin as a group element, if its encoding is canonical.
    pub fn commitment_point(&self) -> (r: Option<RistrettoPoint>)
        ensures
            match r {
                Some(p) => group::ristretto_log(self.commitment@) == Some(p@),
                None => group::ristretto_log(self.commitment@) is None,
            },
    {
        RistrettoPoint::decompress(&self.commitment)
    }
}

/// A proof that spends one coin of an anonymity set.
#[derive(Clone, Debug, PartialEq, Eq)]
pub struct SparkSpendProof {
    /// The indices of the anonymity set in the accumulator.
    pub anon_set_indices: Vec<u64>,
    /// The tag `s*G` of the spent coin, encoded.
    pub serial_tag: [u8; 32],
    /// The challenges of the ring.
    pub challenges: Vec<[u8; 32]>,
    /// The responses of the ring.
    pub responses: Vec<[u8; 32]>,
    /// The message that the proof is bound to.
    pub message: [u8; 32],
}

impl SparkSpendProof {
    /// The tag as a group element, if its encoding is canonical.
    pub fn serial_tag_point(&self) -> (r: Option<RistrettoPoint>)
        ensures
            match r {
                Some(p) => group::ristretto_log(self.serial_tag@) == Some(p@) && group::encodes(
                    self.serial_tag@,
                    p@,
                ),
                None => group::ristretto_log(self.serial_tag@) is None,
            },
    {
        RistrettoPoint::decompress(&self.serial_tag)
    }
}

// --- The ring ------------------------------------------------------------------------

/// A transcript part with its length in front.
pub open spec fn part(p: Seq<u8>) -> Seq<u8> {
    vstd::bytes::spec_u64_to_le_bytes(p.len() as u64) + p
}

/// The scalar that a tagged transcript hashes to.
pub open spec fn transcript_scalar(label: Seq<u8>, transcript: Seq<u8>) -> nat {
    field::red(
        field::le_nat(
            hashing::sha3_512(bytes::tag("COINCYNC_SPARK_FS_v1") + label + transcript),
        ) as int,
    )
}

/// What the challenge that opens the ring at `index` is over.
pub open spec fn seed_transcript(
    message: Seq<u8>,
    index: int,
    commitment: Seq<u8>,
    serial_tag: Seq<u8>,
) -> Seq<u8> {
    part(message) + part(vstd::bytes::spec_u64_to_le_bytes(index as u64)) + part(commitment)
        + part(serial_tag)
}

/// The challenge that opens the ring at `index`.
pub open spec fn seed_challenge(
    message: Seq<u8>,
    index: int,
    commitment: Seq<u8>,
    serial_tag: Seq<u8>,
) -> nat {
    transcript_scalar(
        bytes::tag("ring_seed"),
        seed_transcript(message, index, commitment, serial_tag),
    )
}

/// What the challenge at `index` that follows from the commitment before it is over.
pub open spec fn step_transcript(message: Seq<u8>, index: int, commitment: Seq<u8>) -> Seq<u8> {
    part(message) + part(vstd::bytes::spec_u64_to_le_bytes(index as u64)) + part(commitment)
}

/// The challenge at `index` that follows from the commitment before it.
pub open spec fn step_challenge(message: Seq<u8>, index: int, commitment: Seq<u8>) -> nat {
    transcript_scalar(
        bytes::tag("ring_step"),
        step_transcript(message, index, commitment),
    )
}

/// The position after `i` on a ring of `n`.
pub open spec fn after(i: int, n: int) -> int {
    if i + 1 == n {
        0
    } else {
        i + 1
    }
}

/// The position before `i` on a ring of `n`.
pub open spec fn before(i: int, n: int) -> int {
    if i == 0 {
        n - 1
    } else {
        i - 1
    }
}

/// The ring commitment `z*H + c*P`.
pub open spec fn ring_commitment(z: nat, c: nat, p: nat) -> nat {
    field::plus(field::times(spark_generators::h_log(), z), field::times(p, c))
}

/// Whether the challenges close the ring when it was opened at `r`.
pub open spec fn closes_at(
    message: Seq<u8>,
    serial_tag: Seq<u8>,
    commitments: Seq<nat>,
    challenges: Seq<nat>,
    r: int,
) -> bool {
    let n = commitments.len() as int;
    &&& 0 <= r < n
    &&& challenges[after(r, n)] == seed_challenge(
        message,
        r,
        group::ristretto_encoding(commitments[r]),
        serial_tag,
    )
    &&& forall|j: int|
        0 <= j < n && j != after(r, n) ==> #[trigger] challenges[j] == step_challenge(
            message,
            j,
            group::ristretto_encoding(commitments[before(j, n)]),
        )
}

/// Whether every byte string of a sequence is the canonical encoding of a scalar.
pub open spec fn all_canonical(s: Seq<[u8; 32]>) -> bool {
    forall|i: int| 0 <= i < s.len() ==> field::le_nat(#[trigger] s[i]@) < field::order()
}

/// The numbers that a sequence of byte strings encodes.
pub open spec fn numbers(s: Seq<[u8; 32]>) -> Seq<nat> {
    Seq::new(s.len(), |i: int| field::le_nat(s[i]@))
}

/// The ring commitments that a verifier recomputes.
pub open spec fn ring_commitments(responses: Seq<nat>, challenges: Seq<nat>, keys: Seq<nat>) -> Seq<
    nat,
> {
    Seq::new(keys.len(), |i: int| ring_commitment(responses[i], challenges[i], keys[i]))
}

/// Whether a spend proof holds for these keys.
pub open spec fn spend_valid(proof: SparkSpendProof, keys: Seq<nat>) -> bool {
    let c = numbers(proof.challenges@);
    let z = numbers(proof.responses@);
    &&& keys.len() > 0
    &&& proof.challenges@.len() == keys.len()
    &&& proof.responses@.len() == keys.len()
    &&& proof.anon_set_indices@.len() == keys.len()
    &&& group::ristretto_log(proof.serial_tag@) is Some
    &&& all_canonical(proof.challenges@)
    &&& all_canonical(proof.responses@)
    &&& exists|r: int| #[trigger]
        closes_at(proof.message@, proof.serial_tag@, ring_commitments(z, c, keys), c, r)
}

fn append_part(v: &mut Vec<u8>, p: &[u8])
    ensures
        final(v)@ == old(v)@ + part(p@),
{
    append_u64(v, p.len() as u64);
    append(v, p);
    assert(v@ =~= old(v)@ + part(p@));
}

fn fs_challenge(label: &str, transcript: &[u8]) -> (r: Scalar)
    ensures
        r@ == transcript_scalar(bytes::tag(label), transcript@),
{
    let mut input: Vec<u8> = Vec::new();
    append_tag(&mut input, "COINCYNC_SPARK_FS_v1");
    append_tag(&mut input, label);
    append(&mut input, transcript);
    assert(input@ =~= bytes::tag("COINCYNC_SPARK_FS_v1") + bytes::tag(label) + transcript@);
    Scalar::from_bytes_mod_order_wide(&hashing::sha3_512_digest(input.as_slice()))
}

fn ring_seed(message: &[u8; 32], index: usize, commitment: &RistrettoPoint, tag: &[u8; 32]) -> (r:
    Scalar)
    ensures
        r@ == seed_challenge(
            message@,
            index as int,
            group::ristretto_encoding(commitment@),
            tag@,
        ),
{
    let mut t: Vec<u8> = Vec::new();
    append_part(&mut t, message);
    append_part(&mut t, vstd::bytes::u64_to_le_bytes(index as u64).as_slice());
    append_part(&mut t, &commitment.compress());
    append_part(&mut t, tag);
    assert(t@ =~= seed_transcript(
        message@,
        index as int,
        group::ristretto_encoding(commitment@),
        tag@,
    ));
    fs_challenge("ring_seed", t.as_slice())
}

fn ring_step(message: &[u8; 32], index: usize, commitment: &RistrettoPoint) -> (r: Scalar)
    ensures
        r@ == step_challenge(message@, index as int, group::ristretto_encoding(commitment@)),
{
    let mut t: Vec<u8> = Vec::new();
    append_part(&mut t, message);
    append_part(&mut t, vstd::bytes::u64_to_le_bytes(index as u64).as_slice());
    append_part(&mut t, &commitment.compress());
    assert(t@ =~= part(message@) + part(vstd::bytes::spec_u64_to_le_bytes(index as u64)) + part(
        group::ristretto_encoding(commitment@),
    ));
    fs_challenge("ring_step", t.as_slice())
}

/// Decodes canonical scalars; one that is not canonical refuses the whole list.
pub(crate) fn decode_scalars(list: &Vec<[u8; 32]>) -> (r: Option<Vec<Scalar>>)
    ensures
        match r {
            Some(v) => all_canonical(list@) && group::values(v@) == numbers(list@),
            None => !all_canonical(list@),
        },
{
    let mut out: Vec<Scalar> = Vec::new();
    let mut i: usize = 0;
    while i < list.len()
        invariant
            i <= list@.len(),
            out@.len() == i,
            forall|j: int|
                0 <= j < i ==> field::le_nat(#[trigger] list@[j]@) < field::order() && out@[j]@
                    == field::le_nat(list@[j]@),
        decreases list@.len() - i,
    {
        match Scalar::from_canonical_bytes(&list[i]) {
            Some(s) => out.push(s),
            None => {
                assert(field::le_nat(list@[i as int]@) >= field::order());
                return None;
            },
        }
        i = i + 1;
    }
    assert(group::values(out@) =~= numbers(list@));
    Some(out)
}

/// Checks a spend proof against the keys of its anonymity set.
pub fn verify_spark_spend(proof: &SparkSpendProof, pubkeys: &[RistrettoPoint]) -> (r: Result<()>)
    ensures
        match r {
            Ok(_) => spend_valid(*proof, group::logs(pubkeys@)),
            Err(e) => e is SparkVerifyFailed && !spend_valid(*proof, group::logs(pubkeys@)),
        },
{
    let n: usize = pubkeys.len();
    if n == 0 || proof.challenges.len() != n || proof.responses.len() != n
        || proof.anon_set_indices.len() != n {
        return Err(Error::SparkVerifyFailed);
    }
    let tag = match proof.serial_tag_point() {
        Some(p) => p.compress(),
        None => {
            return Err(Error::SparkVerifyFailed);
        },
    };
    assert(tag@ == proof.serial_tag@);
    let c = match decode_scalars(&proof.challenges) {
        Some(v) => v,
        None => {
            return Err(Error::SparkVerifyFailed);
        },
    };
    let z = match decode_scalars(&proof.responses) {
        Some(v) => v,
        None => {
            return Err(Error::SparkVerifyFailed);
        },
    };
    let ghost cs = numbers(proof.challenges@);
    let ghost zs = numbers(proof.responses@);
    let ghost keys = group::logs(pubkeys@);
    let ghost ls = ring_commitments(zs, cs, keys);
    assert(group::values(c@) == cs && group::values(z@) == zs);
    assert(c@.len() == group::values(c@).len() && z@.len() == group::values(z@).len());

    let h = gen_h();
    let mut l: Vec<RistrettoPoint> = Vec::new();
    let mut i: usize = 0;
    while i < n
        invariant
            i <= n,
            n == pubkeys@.len(),
            c@.len() == n,
            z@.len() == n,
            group::values(c@) == cs,
            group::values(z@) == zs,
            keys == group::logs(pubkeys@),
            ls == ring_commitments(zs, cs, keys),
            h@ == spark_generators::h_log(),
            l@.len() == i,
            forall|j: int| 0 <= j < i ==> (#[trigger] l@[j])@ == ls[j],
        decreases n - i,
    {
        let p = h.mul(&z[i]).add(&pubkeys[i].mul(&c[i]));
        assert(group::values(c@)[i as int] == c@[i as int]@);
        assert(group::values(z@)[i as int] == z@[i as int]@);
        l.push(p);
        i = i + 1;
    }
    assert(group::logs(l@) =~= ls);
    if ring_closes_somewhere(&proof.message, &tag, &l, &c) {
        Ok(())
    } else {
        Err(Error::SparkVerifyFailed)
    }
}

/// Whether the challenges close the ring from some opening position.
fn ring_closes_somewhere(
    message: &[u8; 32],
    tag: &[u8; 32],
    l: &Vec<RistrettoPoint>,
    c: &Vec<Scalar>,
) -> (res: bool)
    requires
        l@.len() == c@.len(),
    ensures
        res == exists|r: int| #[trigger]
            closes_at(message@, tag@, group::logs(l@), group::values(c@), r),
{
    let mut r: usize = 0;
    while r < l.len()
        invariant
            r <= l@.len(),
            l@.len() == c@.len(),
            forall|s: int|
                0 <= s < r ==> !#[trigger] closes_at(
                    message@,
                    tag@,
                    group::logs(l@),
                    group::values(c@),
                    s,
                ),
        decreases l@.len() - r,
    {
        if ring_closes(message, tag, l, c, r) {
            return true;
        }
        r = r + 1;
    }
    false
}

/// Whether the challenges close the ring when it was opened at `r`.
fn ring_closes(
    message: &[u8; 32],
    tag: &[u8; 32],
    l: &Vec<RistrettoPoint>,
    c: &Vec<Scalar>,
    r: usize,
) -> (res: bool)
    requires
        l@.len() == c@.len(),
        r < l@.len(),
    ensures
        res == closes_at(message@, tag@, group::logs(l@), group::values(c@), r as int),
{
    let n: usize = l.len();
    let ghost ls = group::logs(l@);
    let ghost cs = group::values(c@);
    let seed_idx: usize = if r + 1 == n {
        0
    } else {
        r + 1
    };
    let seed = ring_seed(message, r, &l[r], tag);
    if !seed.equals(&c[seed_idx]) {
        assert(cs[after(r as int, n as int)] == c@[seed_idx as int]@);
        return false;
    }
    let mut j: usize = 0;
    while j < n
        invariant
            j <= n,
            n == l@.len(),
            n == c@.len(),
            r < n,
            ls == group::logs(l@),
            cs == group::values(c@),
            seed_idx == after(r as int, n as int),
            forall|i: int|
                0 <= i < j && i != seed_idx ==> #[trigger] cs[i] == step_challenge(
                    message@,
                    i,
                    group::ristretto_encoding(ls[before(i, n as int)]),
                ),
        decreases n - j,
    {
        if j != seed_idx {
            let prev: usize = if j == 0 {
                n - 1
            } else {
                j - 1
            };
            let expected = ring_step(message, j, &l[prev]);
            if !expected.equals(&c[j]) {
                assert(cs[j as int] == c@[j as int]@);
                return false;
            }
        }
        j = j + 1;
    }
    true
}

// --- Proving ---------------------------------------------------------------------------

/// The position `t` steps after `own` on a ring of `n`, for `t` up to `n`.
pub open spec fn ring_position(own: int, t: int, n: int) -> int {
    if own + t < n {
        own + t
    } else {
        own + t - n
    }
}

/// The keys `C_i - v*G - r*K` of an anonymity set.
pub open spec fn coin_keys(coins: Seq<nat>, v: nat, r: nat) -> Seq<nat> {
    Seq::new(coins.len(), |i: int| coin_key(coins[i], v, r))
}

/// The challenge that the prover meets `t` steps after the real position.
pub open spec fn prover_challenge(
    message: Seq<u8>,
    serial_tag: Seq<u8>,
    keys: Seq<nat>,
    own: int,
    nonces: Seq<nat>,
    t: nat,
) -> nat
    decreases t,
{
    let n = keys.len() as int;
    if t <= 1 {
        seed_challenge(
            message,
            own,
            group::ristretto_encoding(field::times(spark_generators::h_log(), nonces[0])),
            serial_tag,
        )
    } else {
        let c = prover_challenge(message, serial_tag, keys, own, nonces, (t - 1) as nat);
        step_challenge(
            message,
            ring_position(own, t as int, n),
            group::ristretto_encoding(
                ring_commitment(nonces[t - 1], c, keys[ring_position(own, t - 1, n)]),
            ),
        )
    }
}

/// Whether `proof` is the proof that these nonces give for a note: `nonces[0]` opens the
/// ring at the real position, `nonces[t]` is the response `t` steps after it.
pub open spec fn is_spend_proof(
    proof: SparkSpendProof,
    serial: nat,
    keys: Seq<nat>,
    indices: Seq<u64>,
    own: int,
    message: Seq<u8>,
    nonces: Seq<nat>,
) -> bool {
    let n = keys.len() as int;
    let tag = group::ristretto_encoding(serial);
    &&& proof.anon_set_indices@ == indices
    &&& proof.message@ == message
    &&& group::encodes(proof.serial_tag@, serial)
    &&& proof.challenges@.len() == n
    &&& proof.responses@.len() == n
    &&& forall|t: int|
        1 <= t <= n ==> (#[trigger] proof.challenges@[ring_position(own, t, n)])@
            == field::scalar_bytes(
            prover_challenge(message, tag, keys, own, nonces, t as nat),
        )
    &&& forall|t: int|
        1 <= t < n ==> (#[trigger] proof.responses@[ring_position(own, t, n)])@
            == field::scalar_bytes(nonces[t])
    &&& proof.responses@[own]@ == field::scalar_bytes(
        field::minus(
            nonces[0],
            field::times(
                prover_challenge(message, tag, keys, own, nonces, n as nat),
                serial,
            ),
        ),
    )
}

/// Spends a note: proves that one coin of the anonymity set, the one at `real_index`, is
/// the note's, and binds the proof to the message. The nonces are fresh random scalars,
/// one for each member of the set.
pub fn prove_spark_spend(
    note: &SparkNote,
    anon_set: &[RistrettoPoint],
    anon_set_indices: &[u64],
    real_index: usize,
    message: &[u8; 32],
    nonces: &[Scalar],
) -> (r: Result<SparkSpendProof>)
    requires
        nonces@.len() == anon_set@.len(),
    ensures
        ({
            let n = anon_set@.len();
            let v = note.value as nat;
            let keys = coin_keys(group::logs(anon_set@), v, note.randomness_value());
            match r {
                Ok(proof) => {
                    &&& n > 0
                    &&& real_index < n
                    &&& anon_set_indices@.len() == n
                    &&& anon_set@[real_index as int]@ == coin(
                        v,
                        note.serial_value(),
                        note.randomness_value(),
                    )
                    &&& is_spend_proof(
                        proof,
                        note.serial_value(),
                        keys,
                        anon_set_indices@,
                        real_index as int,
                        message@,
                        group::values(nonces@),
                    )
                    &&& spend_valid(proof, keys)
                },
                Err(e) => if n == 0 {
                    error::is_crypto(e, "Spark anon set is empty"@)
                } else if real_index >= n {
                    error::is_crypto(e, "real_index out of bounds"@)
                } else if anon_set_indices@.len() != n {
                    error::is_crypto(e, "anon set / index vectors mismatched"@)
                } else {
                    &&& anon_set@[real_index as int]@ != coin(
                        v,
                        note.serial_value(),
                        note.randomness_value(),
                    )
                    &&& error::is_crypto(
                        e,
                        "Spark note commitment does not match anon_set[real_index]"@,
                    )
                },
            }
        }),
{
    let n: usize = anon_set.len();
    if n == 0 {
        return Err(error::crypto("Spark anon set is empty"));
    }
    if real_index >= n {
        return Err(error::crypto("real_index out of bounds"));
    }
    if n != anon_set_indices.len() {
        return Err(error::crypto("anon set / index vectors mismatched"));
    }
    let serial = note.serial_scalar();
    let randomness = note.randomness_scalar();
    let expected = spark_commit(note.value, &serial, &randomness);
    if !anon_set[real_index].equals(&expected) {
        return Err(error::crypto("Spark note commitment does not match anon_set[real_index]"));
    }
    let keys = spark_pubkeys(anon_set, note.value, &randomness);
    let ghost keys_v = coin_keys(
        group::logs(anon_set@),
        note.value as nat,
        note.randomness_value(),
    );
    assert(keys_v[real_index as int] == field::times(spark_generators::h_log(), serial@)) by {
        law_coin_key(note.value as nat, serial@, randomness@);
    }
    let tag = spark_serial_tag(&serial).compress();
    assert(group::logs(keys@).len() == keys@.len());
    let proof = ring_prove(
        &serial,
        &keys,
        anon_set_indices,
        real_index,
        message,
        nonces,
        tag,
    );
    proof {
        group::lemma_values_range(nonces@);
        law_honest_spend_verifies(
            proof,
            serial@,
            keys_v,
            anon_set_indices@,
            real_index as int,
            message@,
            group::values(nonces@),
        );
    }
    Ok(proof)
}

fn spark_pubkeys(anon_set: &[RistrettoPoint], value: u64, randomness: &Scalar) -> (r: Vec<
    RistrettoPoint,
>)
    ensures
        group::logs(r@) == coin_keys(group::logs(anon_set@), value as nat, randomness@),
{
    let mut keys: Vec<RistrettoPoint> = Vec::new();
    let mut i: usize = 0;
    while i < anon_set.len()
        invariant
            i <= anon_set@.len(),
            keys@.len() == i,
            forall|j: int|
                0 <= j < i ==> (#[trigger] keys@[j])@ == coin_key(
                    anon_set@[j]@,
                    value as nat,
                    randomness@,
                ),
        decreases anon_set@.len() - i,
    {
        keys.push(spark_pubkey(&anon_set[i], value, randomness));
        i = i + 1;
    }
    assert(group::logs(keys@) =~= coin_keys(group::logs(anon_set@), value as nat, randomness@));
    keys
}

/// Walks the ring once, from the real position back to it.
fn ring_prove(
    serial: &Scalar,
    keys: &Vec<RistrettoPoint>,
    indices: &[u64],
    own: usize,
    message: &[u8; 32],
    nonces: &[Scalar],
    tag: [u8; 32],
) -> (r: SparkSpendProof)
    requires
        own < keys@.len(),
        nonces@.len() == keys@.len(),
        indices@.len() == keys@.len(),
        group::encodes(tag@, serial@),
    ensures
        is_spend_proof(
            r,
            serial@,
            group::logs(keys@),
            indices@,
            own as int,
            message@,
            group::values(nonces@),
        ),
{
    let n: usize = keys.len();
    let ghost kv = group::logs(keys@);
    let ghost nv = group::values(nonces@);
    let h = gen_h();
    let zero = Scalar::zero();
    let mut c: Vec<Scalar> = Vec::new();
    let mut z: Vec<Scalar> = Vec::new();
    let mut i: usize = 0;
    while i < n
        invariant
            i <= n,
            c@.len() == i,
            z@.len() == i,
        decreases n - i,
    {
        c.push(zero);
        z.push(zero);
        i = i + 1;
    }
    let l_real = h.mul(&nonces[0]);
    let mut pos: usize = if own + 1 == n {
        0
    } else {
        own + 1
    };
    c[pos] = ring_seed(message, own, &l_real, &tag);
    let mut t: usize = 1;
    assert(nv[0] == nonces@[0]@);
    while t < n
        invariant
            1 <= t <= n,
            n == keys@.len(),
            own < n,
            nonces@.len() == n,
            c@.len() == n,
            z@.len() == n,
            h@ == spark_generators::h_log(),
            kv == group::logs(keys@),
            nv == group::values(nonces@),
            tag@ == group::ristretto_encoding(serial@),
            pos == ring_position(own as int, t as int, n as int),
            forall|s: int|
                1 <= s <= t ==> (#[trigger] c@[ring_position(own as int, s, n as int)])@
                    == prover_challenge(message@, tag@, kv, own as int, nv, s as nat),
            forall|s: int|
                1 <= s < t ==> (#[trigger] z@[ring_position(own as int, s, n as int)])@ == nv[s],
        decreases n - t,
    {
        let ghost c0 = c@;
        let ghost z0 = z@;
        z[pos] = nonces[t];
        assert(nv[t as int] == nonces@[t as int]@);
        let l = h.mul(&nonces[t]).add(&keys[pos].mul(&c[pos]));
        assert(kv[pos as int] == keys@[pos as int]@);
        let next: usize = if pos + 1 == n {
            0
        } else {
            pos + 1
        };
        let step = ring_step(message, next, &l);
        assert(step@ == prover_challenge(message@, tag@, kv, own as int, nv, (t + 1) as nat));
        c[next] = step;
        assert(c@ == c0.update(next as int, step));
        assert(z@ == z0.update(pos as int, nonces@[t as int]));
        pos = next;
        t = t + 1;
        assert forall|s: int| 1 <= s <= t implies (#[trigger] c@[ring_position(
            own as int,
            s,
            n as int,
        )])@ == prover_challenge(message@, tag@, kv, own as int, nv, s as nat) by {
            if s < t {
                assert(ring_position(own as int, s, n as int) != next);
                assert(c0[ring_position(own as int, s, n as int)]@ == prover_challenge(
                    message@,
                    tag@,
                    kv,
                    own as int,
                    nv,
                    s as nat,
                ));
            }
        }
        assert forall|s: int| 1 <= s < t implies (#[trigger] z@[ring_position(
            own as int,
            s,
            n as int,
        )])@ == nv[s] by {
            if s < t - 1 {
                assert(z0[ring_position(own as int, s, n as int)]@ == nv[s]);
            }
        }
    }
    assert(ring_position(own as int, n as int, n as int) == own);
    assert(c@[ring_position(own as int, n as int, n as int)]@ == prover_challenge(
        message@,
        tag@,
        kv,
        own as int,
        nv,
        n as nat,
    ));
    let last = nonces[0].sub(&c[own].mul(serial));
    let ghost z1 = z@;
    z[own] = last;
    assert(z@ == z1.update(own as int, last));
    let challenges = encode_scalars(&c);
    let responses = encode_scalars(&z);
    assert forall|t: int| 1 <= t <= n implies (#[trigger] challenges@[ring_position(
        own as int,
        t,
        n as int,
    )])@ == field::scalar_bytes(
        prover_challenge(message@, tag@, kv, own as int, nv, t as nat),
    ) by {
        assert(c@[ring_position(own as int, t, n as int)]@ == prover_challenge(
            message@,
            tag@,
            kv,
            own as int,
            nv,
            t as nat,
        ));
    }
    assert forall|t: int| 1 <= t < n implies (#[trigger] responses@[ring_position(
        own as int,
        t,
        n as int,
    )])@ == field::scalar_bytes(nv[t]) by {
        assert(z1[ring_position(own as int, t, n as int)]@ == nv[t]);
    }
    let mut list: Vec<u64> = Vec::new();
    list.extend_from_slice(indices);
    assert(list@ =~= indices@);
    SparkSpendProof {
        anon_set_indices: list,
        serial_tag: tag,
        challenges,
        responses,
        message: *message,
    }
}

/// The canonical encodings of a list of scalars.
pub(crate) fn encode_scalars(list: &Vec<Scalar>) -> (r: Vec<[u8; 32]>)
    ensures
        r@.len() == list@.len(),
        forall|i: int|
            0 <= i < r@.len() ==> (#[trigger] r@[i])@ == field::scalar_bytes(list@[i]@),
{
    let mut out: Vec<[u8; 32]> = Vec::new();
    let mut i: usize = 0;
    while i < list.len()
        invariant
            i <= list@.len(),
            out@.len() == i,
            forall|j: int|
                0 <= j < i ==> (#[trigger] out@[j])@ == field::scalar_bytes(list@[j]@),
        decreases list@.len() - i,
    {
        out.push(list[i].to_bytes());
        i = i + 1;
    }
    out
}

// --- Laws ------------------------------------------------------------------------------

/// Taking the value and the blinding out of a coin leaves its serial number on `H`.
pub proof fn law_coin_key(v: nat, s: nat, r: nat)
    ensures
        coin_key(coin(v, s, r), v, r) == field::times(spark_generators::h_log(), s),
{
    broadcast use field::group_field;

    let a = (1 * v) as int;
    let b = (spark_generators::h_log() * s) as int;
    let c = (spark_generators::k_log() * r) as int;
    assert(coin(v, s, r) == field::red(a + b + c));
    assert(coin_key(coin(v, s, r), v, r) == field::red(a + b + c - a - c));
}

/// A ring response `k - c*s` brings the nonce commitment back when the key is `s*H`.
proof fn lemma_ring_opens(k: nat, c: nat, s: nat)
    ensures
        ring_commitment(
            field::minus(k, field::times(c, s)),
            c,
            field::times(spark_generators::h_log(), s),
        ) == field::times(spark_generators::h_log(), k),
{
    broadcast use field::group_field;

    let h = spark_generators::h_log();
    assert(field::minus(k, field::times(c, s)) == field::red(k - c * s));
    assert(field::times(h, field::red(k - c * s)) == field::red(h * (k - c * s)));
    assert(field::times(field::times(h, s), c) == field::red(((h * s) * c) as int));
    assert(h * (k - c * s) + (h * s) * c == h * k) by (nonlinear_arith);
}

/// An honest spend verifies: a proof made with the serial number that the real key hides
/// is accepted against the keys of its anonymity set.
#[verifier::spinoff_prover]
#[verifier::rlimit(40)]
pub proof fn law_honest_spend_verifies(
    proof: SparkSpendProof,
    serial: nat,
    keys: Seq<nat>,
    indices: Seq<u64>,
    own: int,
    message: Seq<u8>,
    nonces: Seq<nat>,
)
    requires
        0 <= own < keys.len(),
        indices.len() == keys.len(),
        nonces.len() == keys.len(),
        forall|i: int| 0 <= i < nonces.len() ==> #[trigger] nonces[i] < field::order(),
        keys[own] == field::times(spark_generators::h_log(), serial),
        is_spend_proof(proof, serial, keys, indices, own, message, nonces),
    ensures
        spend_valid(proof, keys),
{
    let n = keys.len() as int;
    let tag = group::ristretto_encoding(serial);
    let cs = numbers(proof.challenges@);
    let zs = numbers(proof.responses@);
    let ls = ring_commitments(zs, cs, keys);
    let last = prover_challenge(message, tag, keys, own, nonces, n as nat);
    assert forall|t: int| 1 <= t <= n implies #[trigger] cs[ring_position(own, t, n)]
        == prover_challenge(message, tag, keys, own, nonces, t as nat) && field::le_nat(
        proof.challenges@[ring_position(own, t, n)]@,
    ) < field::order() by {
        let p = ring_position(own, t, n);
        let x = prover_challenge(message, tag, keys, own, nonces, t as nat);
        assert(proof.challenges@[p]@ == field::scalar_bytes(x));
        lemma_challenge_range(message, tag, keys, own, nonces, t as nat);
        field::lemma_scalar_bytes(x);
    }
    assert forall|t: int| 1 <= t < n implies #[trigger] zs[ring_position(own, t, n)]
        == nonces[t] && field::le_nat(proof.responses@[ring_position(own, t, n)]@)
        < field::order() by {
        let p = ring_position(own, t, n);
        assert(proof.responses@[p]@ == field::scalar_bytes(nonces[t]));
        field::lemma_scalar_bytes(nonces[t]);
    }
    let z_real = field::minus(nonces[0], field::times(last, serial));
    field::lemma_red_range(nonces[0] - field::times(last, serial));
    field::lemma_scalar_bytes(z_real);
    assert(zs[own] == z_real);
    assert(cs[ring_position(own, n, n)] == last);
    assert(ring_position(own, n, n) == own);
    lemma_ring_opens(nonces[0], last, serial);
    assert(ls[own] == field::times(spark_generators::h_log(), nonces[0]));
    assert(ring_position(own, 1, n) == after(own, n));
    assert(cs[ring_position(own, 1, n)] == seed_challenge(
        message,
        own,
        group::ristretto_encoding(ls[own]),
        tag,
    ));
    assert forall|j: int| 0 <= j < n && j != after(own, n) implies #[trigger] cs[j]
        == step_challenge(message, j, group::ristretto_encoding(ls[before(j, n)])) by {
        let t = if j > own {
            j - own
        } else {
            j - own + n
        };
        assert(2 <= t <= n);
        assert(ring_position(own, t, n) == j);
        assert(ring_position(own, t - 1, n) == before(j, n));
        assert(cs[ring_position(own, t, n)] == prover_challenge(
            message,
            tag,
            keys,
            own,
            nonces,
            t as nat,
        ));
        assert(cs[ring_position(own, t - 1, n)] == prover_challenge(
            message,
            tag,
            keys,
            own,
            nonces,
            (t - 1) as nat,
        ));
        assert(zs[ring_position(own, t - 1, n)] == nonces[t - 1]);
    }
    assert(closes_at(proof.message@, proof.serial_tag@, ls, cs, own));
    assert forall|i: int| 0 <= i < n implies field::le_nat(#[trigger] proof.challenges@[i]@)
        < field::order() by {
        let t = if i > own {
            i - own
        } else {
            i - own + n
        };
        assert(ring_position(own, t, n) == i);
        assert(cs[ring_position(own, t, n)] == field::le_nat(proof.challenges@[i]@));
    }
    assert forall|i: int| 0 <= i < n implies field::le_nat(#[trigger] proof.responses@[i]@)
        < field::order() by {
        if i != own {
            let t = if i > own {
                i - own
            } else {
                i - own + n
            };
            assert(ring_position(own, t, n) == i);
            assert(zs[ring_position(own, t, n)] == field::le_nat(proof.responses@[i]@));
        }
    }
}

proof fn lemma_challenge_range(
    message: Seq<u8>,
    tag: Seq<u8>,
    keys: Seq<nat>,
    own: int,
    nonces: Seq<nat>,
    t: nat,
)
    ensures
        prover_challenge(message, tag, keys, own, nonces, t) < field::order(),
{
    broadcast use field::lemma_red_range;

}

/// Checks several spend proofs; the first that fails refuses them all.
#[verifier::spinoff_prover]
pub fn batch_verify_sparks(proofs: &[(&SparkSpendProof, &[RistrettoPoint])]) -> (r: Result<()>)
    ensures
        match r {
            Ok(_) => forall|i: int|
                0 <= i < proofs@.len() ==> spend_valid(
                    *(#[trigger] proofs@[i]).0,
                    group::logs(proofs@[i].1@),
                ),
            Err(e) => e is SparkVerifyFailed && exists|i: int|
                0 <= i < proofs@.len() && !spend_valid(
                    *(#[trigger] proofs@[i]).0,
                    group::logs(proofs@[i].1@),
                ),
        },
{
    let mut i: usize = 0;
    while i < proofs.len()
        invariant
            i <= proofs@.len(),
            forall|j: int|
                0 <= j < i ==> spend_valid(
                    *(#[trigger] proofs@[j]).0,
                    group::logs(proofs@[j].1@),
                ),
        decreases proofs@.len() - i,
    {
        let (proof, keys) = proofs[i];
        match verify_spark_spend(proof, keys) {
            Ok(_) => {},
            Err(e) => {
                assert(!spend_valid(*proofs@[i as int].0, group::logs(proofs@[i as int].1@)));
                return Err(e);
            },
        }
        i = i + 1;
    }
    Ok(())
}

proof fn lemma_part_prefix(x1: Seq<u8>, y1: Seq<u8>, x2: Seq<u8>, y2: Seq<u8>)
    requires
        x1.len() <= u64::MAX,
        x2.len() <= u64::MAX,
        part(x1) + y1 == part(x2) + y2,
    ensures
        x1 == x2,
        y1 == y2,
{
    let (n1, n2) = (
        vstd::bytes::spec_u64_to_le_bytes(x1.len() as u64),
        vstd::bytes::spec_u64_to_le_bytes(x2.len() as u64),
    );
    bytes::lemma_u64_bytes(x1.len() as u64, x2.len() as u64);
    bytes::lemma_u64_bytes(x2.len() as u64, x1.len() as u64);
    assert(part(x1) + y1 =~= n1 + (x1 + y1));
    assert(part(x2) + y2 =~= n2 + (x2 + y2));
    bytes::lemma_same_heads(n1, x1 + y1, n2, x2 + y2);
    bytes::lemma_same_heads(x1, y1, x2, y2);
}

/// A challenge of the ring at a step belongs to one message, one place and one commitment:
/// where two that differ share it, two different strings hash to one scalar.
pub proof fn law_step_challenge_binds(
    m1: Seq<u8>,
    i1: int,
    c1: Seq<u8>,
    m2: Seq<u8>,
    i2: int,
    c2: Seq<u8>,
)
    requires
        m1.len() <= u64::MAX && c1.len() <= u64::MAX && 0 <= i1 <= u64::MAX,
        m2.len() <= u64::MAX && c2.len() <= u64::MAX && 0 <= i2 <= u64::MAX,
        m1 != m2 || i1 != i2 || c1 != c2,
        step_challenge(m1, i1, c1) == step_challenge(m2, i2, c2),
    ensures
        ({
            let t = bytes::tag("COINCYNC_SPARK_FS_v1") + bytes::tag("ring_step");
            let left = t + step_transcript(m1, i1, c1);
            let right = t + step_transcript(m2, i2, c2);
            &&& left != right
            &&& field::red(field::le_nat(hashing::sha3_512(left)) as int) == field::red(
                field::le_nat(hashing::sha3_512(right)) as int,
            )
        }),
{
    let t = bytes::tag("COINCYNC_SPARK_FS_v1") + bytes::tag("ring_step");
    let (n1, n2) = (
        vstd::bytes::spec_u64_to_le_bytes(i1 as u64),
        vstd::bytes::spec_u64_to_le_bytes(i2 as u64),
    );
    bytes::lemma_u64_bytes(i1 as u64, i2 as u64);
    bytes::lemma_u64_bytes(i2 as u64, i1 as u64);
    let (a, b) = (step_transcript(m1, i1, c1), step_transcript(m2, i2, c2));
    if t + a == t + b {
        bytes::lemma_same_heads(t, a, t, b);
        let none = Seq::<u8>::empty();
        assert(a =~= part(m1) + (part(n1) + (part(c1) + none)));
        assert(b =~= part(m2) + (part(n2) + (part(c2) + none)));
        lemma_part_prefix(m1, part(n1) + (part(c1) + none), m2, part(n2) + (part(c2) + none));
        lemma_part_prefix(n1, part(c1) + none, n2, part(c2) + none);
        lemma_part_prefix(c1, none, c2, none);
    }
}

/// The challenge that opens the ring belongs to one message, one place, one commitment and
/// one serial tag: where two that differ share it, two different strings hash to one scalar.
pub proof fn law_seed_challenge_binds(
    m1: Seq<u8>,
    i1: int,
    c1: Seq<u8>,
    s1: Seq<u8>,
    m2: Seq<u8>,
    i2: int,
    c2: Seq<u8>,
    s2: Seq<u8>,
)
    requires
        m1.len() <= u64::MAX && c1.len() <= u64::MAX && s1.len() <= u64::MAX,
        m2.len() <= u64::MAX && c2.len() <= u64::MAX && s2.len() <= u64::MAX,
        0 <= i1 <= u64::MAX && 0 <= i2 <= u64::MAX,
        m1 != m2 || i1 != i2 || c1 != c2 || s1 != s2,
        seed_challenge(m1, i1, c1, s1) == seed_challenge(m2, i2, c2, s2),
    ensures
        ({
            let t = bytes::tag("COINCYNC_SPARK_FS_v1") + bytes::tag("ring_seed");
            let left = t + seed_transcript(m1, i1, c1, s1);
            let right = t + seed_transcript(m2, i2, c2, s2);
            &&& left != right
            &&& field::red(field::le_nat(hashing::sha3_512(left)) as int) == field::red(
                field::le_nat(hashing::sha3_512(right)) as int,
            )
        }),
{
    let t = bytes::tag("COINCYNC_SPARK_FS_v1") + bytes::tag("ring_seed");
    let (n1, n2) = (
        vstd::bytes::spec_u64_to_le_bytes(i1 as u64),
        vstd::bytes::spec_u64_to_le_bytes(i2 as u64),
    );
    bytes::lemma_u64_bytes(i1 as u64, i2 as u64);
    bytes::lemma_u64_bytes(i2 as u64, i1 as u64);
    let (a, b) = (seed_transcript(m1, i1, c1, s1), seed_transcript(m2, i2, c2, s2));
    if t + a == t + b {
        bytes::lemma_same_heads(t, a, t, b);
        let none = Seq::<u8>::empty();
        let (x, y) = (part(s1) + none, part(s2) + none);
        assert(a =~= part(m1) + (part(n1) + (part(c1) + x)));
        assert(b =~= part(m2) + (part(n2) + (part(c2) + y)));
        lemma_part_prefix(m1, part(n1) + (part(c1) + x), m2, part(n2) + (part(c2) + y));
        lemma_part_prefix(n1, part(c1) + x, n2, part(c2) + y);
        lemma_part_prefix(c1, x, c2, y);
        lemma_part_prefix(s1, none, s2, none);
    }
}

/// A ring that is opened at a place commits to its message and its serial tag: where one
/// list of challenges closes the ring for two, two different strings hash to one scalar.
pub proof fn law_ring_binds_message_and_tag(
    message1: Seq<u8>,
    tag1: Seq<u8>,
    message2: Seq<u8>,
    tag2: Seq<u8>,
    commitments: Seq<nat>,
    challenges: Seq<nat>,
    r: int,
)
    requires
        closes_at(message1, tag1, commitments, challenges, r),
        closes_at(message2, tag2, commitments, challenges, r),
        message1.len() <= u64::MAX && tag1.len() <= u64::MAX,
        message2.len() <= u64::MAX && tag2.len() <= u64::MAX,
        group::ristretto_encoding(commitments[r]).len() == 32,
        commitments.len() <= u64::MAX,
        message1 != message2 || tag1 != tag2,
    ensures
        ({
            let t = bytes::tag("COINCYNC_SPARK_FS_v1") + bytes::tag("ring_seed");
            let e = group::ristretto_encoding(commitments[r]);
            let left = t + seed_transcript(message1, r, e, tag1);
            let right = t + seed_transcript(message2, r, e, tag2);
            &&& left != right
            &&& field::red(field::le_nat(hashing::sha3_512(left)) as int) == field::red(
                field::le_nat(hashing::sha3_512(right)) as int,
            )
        }),
{
    let e = group::ristretto_encoding(commitments[r]);
    law_seed_challenge_binds(message1, r, e, tag1, message2, r, e, tag2);
}

/// Two responses to two challenges that make one ring commitment give the secret of the key
/// on `H` away: only who knows the serial number of a coin can close the ring at it.
pub proof fn law_two_ring_answers_give_the_serial(z1: nat, c1: nat, z2: nat, c2: nat, p: nat, u: nat)
    requires
        p < field::order(),
        ring_commitment(z1, c1, p) == ring_commitment(z2, c2, p),
        field::times(u, field::minus(c2, c1)) == 1,
    ensures
        p == field::times(
            spark_generators::h_log(),
            field::times(u, field::minus(z1, z2)),
        ),
{
    let h = spark_generators::h_log();
    field::lemma_answers(field::times(h, z1), field::times(h, z2), p, c1, c2);
    field::lemma_solve(
        u,
        field::minus(c2, c1),
        p,
        field::minus(field::times(h, z1), field::times(h, z2)),
    );
    field::lemma_factor_out(u, h, z1, z2);
}

/// Coins with one value and one serial number but two blinding factors differ, and so do
/// coins that differ in the value or in the serial number alone.
pub proof fn law_coin_commits(v1: nat, s1: nat, r1: nat, v2: nat, s2: nat, r2: nat)
    requires
        v1 < field::order() && s1 < field::order() && r1 < field::order(),
        v2 < field::order() && s2 < field::order() && r2 < field::order(),
        field::unit(spark_generators::h_log()),
        field::unit(spark_generators::k_log()),
        coin(v1, s1, r1) == coin(v2, s2, r2),
    ensures
        s1 == s2 && r1 == r2 ==> v1 == v2,
        v1 == v2 && r1 == r2 ==> s1 == s2,
        v1 == v2 && s1 == s2 ==> r1 == r2,
{
    let h = spark_generators::h_log();
    let k = spark_generators::k_log();
    broadcast use field::lemma_red_range;

    let (a1, a2) = (field::times(1, v1), field::times(1, v2));
    let (b1, b2) = (field::times(h, s1), field::times(h, s2));
    let (d1, d2) = (field::times(k, r1), field::times(k, r2));
    let (x1, x2) = (field::plus(a1, b1), field::plus(a2, b2));
    field::lemma_red_small(v1);
    field::lemma_red_small(v2);
    if r1 == r2 {
        assert(field::plus(x1, d1) == field::plus(d1, x1));
        assert(field::plus(x2, d2) == field::plus(d1, x2));
        field::lemma_cancel_term(d1, x1, x2);
        if s1 == s2 {
            assert(field::plus(a1, b1) == field::plus(b1, a1));
            assert(field::plus(a2, b1) == field::plus(b1, a2));
            field::lemma_cancel_term(b1, a1, a2);
        }
        if v1 == v2 {
            field::lemma_cancel_term(a1, b1, b2);
            field::lemma_cancel(h, s1, s2);
        }
    }
    if v1 == v2 && s1 == s2 {
        field::lemma_cancel_term(x1, d1, d2);
        field::lemma_cancel(k, r1, r2);
    }
}

/// An accepted spend is in canonical form: as many challenges, responses and places as there
/// are keys, at least one, all challenges and responses below the order, and a serial tag
/// that is a group element.
pub proof fn law_accepted_spend_is_canonical(proof: SparkSpendProof, keys: Seq<nat>, i: int)
    requires
        spend_valid(proof, keys),
        0 <= i < keys.len(),
    ensures
        keys.len() > 0,
        proof.challenges@.len() == keys.len(),
        proof.responses@.len() == keys.len(),
        proof.anon_set_indices@.len() == keys.len(),
        group::ristretto_log(proof.serial_tag@) is Some,
        field::le_nat(proof.challenges@[i]@) < field::order(),
        field::le_nat(proof.responses@[i]@) < field::order(),
{
}

/// In an accepted spend every challenge is a hash of the message and of the ring commitment
/// before it: `z*H + c*P` of the member before. At one place the serial tag goes in too.
pub proof fn law_accepted_spend_closes(proof: SparkSpendProof, keys: Seq<nat>) -> (r: int)
    requires
        spend_valid(proof, keys),
    ensures
        0 <= r < keys.len(),
        ({
            let n = keys.len() as int;
            let t = bytes::tag("COINCYNC_SPARK_FS_v1");
            let e = |i: int|
                group::ristretto_encoding(
                    field::plus(
                        field::times(
                            spark_generators::h_log(),
                            field::le_nat(proof.responses@[i]@),
                        ),
                        field::times(keys[i], field::le_nat(proof.challenges@[i]@)),
                    ),
                );
            &&& field::le_nat(proof.challenges@[after(r, n)]@) == field::red(
                field::le_nat(
                    hashing::sha3_512(
                        t + bytes::tag("ring_seed") + seed_transcript(
                            proof.message@,
                            r,
                            e(r),
                            proof.serial_tag@,
                        ),
                    ),
                ) as int,
            )
            &&& forall|j: int|
                0 <= j < n && j != after(r, n) ==> field::le_nat(
                    (#[trigger] proof.challenges@[j])@,
                ) == field::red(
                    field::le_nat(
                        hashing::sha3_512(
                            t + bytes::tag("ring_step") + step_transcript(
                                proof.message@,
                                j,
                                e(before(j, n)),
                            ),
                        ),
                    ) as int,
                )
        }),
{
    let c = numbers(proof.challenges@);
    let z = numbers(proof.responses@);
    let w = ring_commitments(z, c, keys);
    let n = keys.len() as int;
    let r = choose|r: int| #[trigger] closes_at(proof.message@, proof.serial_tag@, w, c, r);
    assert(c[after(r, n)] == field::le_nat(proof.challenges@[after(r, n)]@));
    assert forall|j: int| 0 <= j < n && j != after(r, n) implies field::le_nat(
        (#[trigger] proof.challenges@[j])@,
    ) == step_challenge(proof.message@, j, group::ristretto_encoding(w[before(j, n)])) by {
        assert(c[j] == field::le_nat(proof.challenges@[j]@));
    }
    r
}

} // verus!
