//! Notes: coins whose openings both sides derive from a shared secret.
//!
//! The sender and the recipient run the same derivation. A scanner with the view key
//! recovers the value and the blinding factors; only the holder of the spend secret can
//! complete the serial number.
use vstd::prelude::*;
use crate::bytes;
use crate::bytes::{append, append_tag};
use crate::error;
use crate::error::Result;
use crate::field;
use crate::group;
use crate::group::{RistrettoPoint, Scalar};
use crate::hashing;
use crate::peer_scalars;
use crate::peer_scalars::PeerPoint;
use crate::secure::ct_eq;
use crate::shielded_spend;
use crate::spark_generators;
use crate::spark_generators::{gen_gv, gen_h, gen_k};

verus! {

/// A shielded address: a detection key and a spend-authority key.
#[derive(Clone, Copy, Debug, PartialEq, Eq)]
pub struct SparkAddr2 {
    /// The diversifier.
    pub diversifier: [u8; 11],
    /// `scan_secret*G`, encoded.
    pub q_scan: [u8; 32],
    /// `spend_secret*H`, encoded.
    pub q_spend: [u8; 32],
}

impl SparkAddr2 {
    /// The address of two secrets.
    pub fn from_secrets(diversifier: [u8; 11], scan_secret: &Scalar, spend_secret: &Scalar) -> (r:
        SparkAddr2)
        ensures
            r.diversifier == diversifier,
            group::encodes(r.q_scan@, scan_secret@),
            group::encodes(r.q_spend@, field::times(spark_generators::h_log(), spend_secret@)),
    {
        let q_scan = RistrettoPoint::mul_base(scan_secret).compress();
        let q_spend = gen_h().mul(spend_secret).compress();
        SparkAddr2 { diversifier, q_scan, q_spend }
    }
}

/// What a scanner holds: the detection secret and the public spend key.
#[derive(Clone, Debug)]
pub struct NoteScanKey {
    /// The detection secret.
    pub scan_secret: Scalar,
    /// The public spend key.
    pub q_spend: [u8; 32],
}

impl NoteScanKey {
    /// A scan key from its parts.
    pub fn new(scan_secret: Scalar, q_spend: [u8; 32]) -> (r: NoteScanKey)
        ensures
            r.scan_secret == scan_secret,
            r.q_spend == q_spend,
    {
        NoteScanKey { scan_secret, q_spend }
    }
}

/// A published note.
#[derive(Clone, Copy, Debug, PartialEq, Eq)]
pub struct PublishedNote {
    /// The coin, encoded.
    pub coin: [u8; 32],
    /// The ephemeral public key, encoded.
    pub tx_public: [u8; 32],
    /// The encrypted value.
    pub enc_value: [u8; 8],
    /// The detection tag.
    pub view_tag: u8,
}

/// What a scan recovers: the value and the blinding factors, and the part of the serial
/// number that is not secret.
#[derive(Clone, Debug)]
pub struct RecoveredNote {
    /// The value.
    pub value: u64,
    /// The blinding of the coin.
    pub coin_blinding: Scalar,
    /// The blinding of the value commitment.
    pub value_blinding: Scalar,
    /// The public part of the serial number.
    pub serial_public: Scalar,
}

/// What sender and receiver both derive from their shared secret.
#[derive(Clone, Copy)]
pub struct NoteSecrets {
    /// The blinding of the coin.
    pub coin_blinding: Scalar,
    /// The blinding of the value commitment.
    pub value_blinding: Scalar,
    /// The public part of the serial number.
    pub serial_public: Scalar,
    /// The pad that hides the value.
    pub amount_pad: [u8; 8],
    /// The detection tag.
    pub view_tag: u8,
}

/// The shared secret of a key agreement on the element `k * B`.
pub open spec fn shared_secret(k: nat) -> Seq<u8> {
    hashing::sha3_256(bytes::tag("COINCYNC_NOTE_ECDH_v1") + group::ristretto_encoding(k))
}

/// The scalar that a domain, a shared secret and further bytes hash to.
pub open spec fn note_scalar(domain: Seq<u8>, ss: Seq<u8>, extra: Seq<u8>) -> nat {
    field::red(field::le_nat(hashing::sha3_512(domain + ss + extra)) as int)
}

/// The blinding of the coin of a note.
pub open spec fn note_coin_blinding(ss: Seq<u8>) -> nat {
    note_scalar(bytes::tag("COINCYNC_NOTE_r_v1"), ss, Seq::empty())
}

/// The blinding of the value commitment of a note.
pub open spec fn note_value_blinding(ss: Seq<u8>) -> nat {
    note_scalar(bytes::tag("COINCYNC_NOTE_b_v1"), ss, Seq::empty())
}

/// The public part of the serial number of a note.
pub open spec fn note_serial(ss: Seq<u8>, q_spend: Seq<u8>) -> nat {
    note_scalar(bytes::tag("COINCYNC_NOTE_s_v1"), ss, q_spend)
}

/// The pad that hides the value of a note.
pub open spec fn note_pad(ss: Seq<u8>) -> Seq<u8> {
    hashing::sha3_256(bytes::tag("COINCYNC_NOTE_amt_v1") + ss).take(8)
}

/// The detection tag of a note.
pub open spec fn note_tag(ss: Seq<u8>) -> u8 {
    hashing::sha3_256(bytes::tag("COINCYNC_NOTE_tag_v1") + ss)[0]
}

/// The model of the coin of a note: `v*Gv + s*H + Q_spend + r*K`.
pub open spec fn note_coin_log(value: nat, serial: nat, q_spend: nat, r: nat) -> nat {
    field::plus(
        field::plus(
            field::plus(
                field::times(spark_generators::gv_log(), value),
                field::times(spark_generators::h_log(), serial),
            ),
            q_spend,
        ),
        field::times(spark_generators::k_log(), r),
    )
}

/// Two byte strings combined bit by bit.
pub open spec fn xor_bytes(a: Seq<u8>, b: Seq<u8>) -> Seq<u8> {
    Seq::new(a.len(), |i: int| a[i] ^ b[i])
}

fn ecdh_shared_secret(secret: &Scalar, public: &RistrettoPoint) -> (r: [u8; 32])
    ensures
        r@ == shared_secret(field::times(public@, secret@)),
{
    let shared = public.mul(secret).compress();
    let mut input: Vec<u8> = Vec::new();
    append_tag(&mut input, "COINCYNC_NOTE_ECDH_v1");
    append(&mut input, &shared);
    assert(input@ =~= bytes::tag("COINCYNC_NOTE_ECDH_v1") + shared@);
    hashing::sha3_256_digest(input.as_slice())
}

fn hash_to_scalar(domain: &str, ss: &[u8; 32], extra: &[u8]) -> (r: Scalar)
    ensures
        r@ == note_scalar(bytes::tag(domain), ss@, extra@),
{
    let mut input: Vec<u8> = Vec::new();
    append_tag(&mut input, domain);
    append(&mut input, ss);
    append(&mut input, extra);
    assert(input@ =~= bytes::tag(domain) + ss@ + extra@);
    Scalar::from_bytes_mod_order_wide(&hashing::sha3_512_digest(input.as_slice()))
}

/// The secrets of a note, from the shared secret and the receiver's spend key.
pub fn derive_note(ss: &[u8; 32], q_spend: &[u8; 32]) -> (r: NoteSecrets)
    ensures
        r.coin_blinding@ == note_coin_blinding(ss@),
        r.value_blinding@ == note_value_blinding(ss@),
        r.serial_public@ == note_serial(ss@, q_spend@),
        r.amount_pad@ == note_pad(ss@),
        r.view_tag == note_tag(ss@),
{
    let empty: Vec<u8> = Vec::new();
    assert(empty@ =~= Seq::<u8>::empty());
    let coin_blinding = hash_to_scalar("COINCYNC_NOTE_r_v1", ss, empty.as_slice());
    let value_blinding = hash_to_scalar("COINCYNC_NOTE_b_v1", ss, empty.as_slice());
    let serial_public = hash_to_scalar("COINCYNC_NOTE_s_v1", ss, q_spend);
    let mut pad_input: Vec<u8> = Vec::new();
    append_tag(&mut pad_input, "COINCYNC_NOTE_amt_v1");
    append(&mut pad_input, ss);
    assert(pad_input@ =~= bytes::tag("COINCYNC_NOTE_amt_v1") + ss@);
    let full = hashing::sha3_256_digest(pad_input.as_slice());
    let amount_pad: [u8; 8] = [
        full[0],
        full[1],
        full[2],
        full[3],
        full[4],
        full[5],
        full[6],
        full[7],
    ];
    assert(amount_pad@ =~= full@.take(8));
    let mut tag_input: Vec<u8> = Vec::new();
    append_tag(&mut tag_input, "COINCYNC_NOTE_tag_v1");
    append(&mut tag_input, ss);
    assert(tag_input@ =~= bytes::tag("COINCYNC_NOTE_tag_v1") + ss@);
    let view_tag = hashing::sha3_256_digest(tag_input.as_slice())[0];
    NoteSecrets { coin_blinding, value_blinding, serial_public, amount_pad, view_tag }
}

fn note_coin(value: u64, secrets: &NoteSecrets, q_spend: &RistrettoPoint) -> (r: RistrettoPoint)
    ensures
        r@ == note_coin_log(
            value as nat,
            secrets.serial_public@,
            q_spend@,
            secrets.coin_blinding@,
        ),
{
    gen_gv().mul(&Scalar::from_u64(value)).add(&gen_h().mul(&secrets.serial_public)).add(
        q_spend,
    ).add(&gen_k().mul(&secrets.coin_blinding))
}

/// Combines eight bytes with a pad, bit by bit.
fn xor8_bytes(a: &[u8; 8], pad: &[u8; 8]) -> (r: [u8; 8])
    ensures
        r@ == xor_bytes(a@, pad@),
{
    let mut out: [u8; 8] = [0u8; 8];
    let mut i: usize = 0;
    while i < 8
        invariant
            i <= 8,
            forall|j: int| 0 <= j < i ==> out@[j] == a@[j] ^ pad@[j],
        decreases 8 - i,
    {
        out[i] = a[i] ^ pad[i];
        i = i + 1;
    }
    assert(out@ =~= xor_bytes(a@, pad@));
    out
}

/// Combines the little-endian bytes of a value with a pad, bit by bit.
fn xor8(value: u64, pad: &[u8; 8]) -> (r: [u8; 8])
    ensures
        r@ == xor_bytes(vstd::bytes::spec_u64_to_le_bytes(value), pad@),
{
    let v = vstd::bytes::u64_to_le_bytes(value);
    let a: [u8; 8] = [v[0], v[1], v[2], v[3], v[4], v[5], v[6], v[7]];
    assert(a@ =~= v@);
    xor8_bytes(&a, pad)
}

/// The published note of a value, an address and an ephemeral secret.
pub open spec fn is_note(
    note: PublishedNote,
    q_scan: nat,
    q_spend: Seq<u8>,
    value: u64,
    ephemeral: nat,
) -> bool {
    let ss = shared_secret(field::times(q_scan, ephemeral));
    &&& group::encodes(note.tx_public@, ephemeral)
    &&& group::encodes(
        note.coin@,
        note_coin_log(
            value as nat,
            note_serial(ss, q_spend),
            group::ristretto_log(q_spend)->0,
            note_coin_blinding(ss),
        ),
    )
    &&& note.enc_value@ == xor_bytes(vstd::bytes::spec_u64_to_le_bytes(value), note_pad(ss))
    &&& note.view_tag == note_tag(ss)
}

/// The value that a note hides from everyone but the holder of a shared secret.
pub open spec fn decrypted_value(note: PublishedNote, ss: Seq<u8>) -> u64 {
    vstd::bytes::spec_u64_from_le_bytes(xor_bytes(note.enc_value@, note_pad(ss)))
}

/// Whether a scan key detects a note: both points decode and are not neutral, the tag
/// fits, and the coin is the one that the shared secret gives for the decrypted value.
pub open spec fn detects(scan_secret: nat, q_spend: Seq<u8>, note: PublishedNote) -> bool {
    let tx = group::ristretto_log(note.tx_public@)->0;
    let ss = shared_secret(field::times(tx, scan_secret));
    &&& peer_scalars::non_identity_fault(note.tx_public@) is None
    &&& peer_scalars::non_identity_fault(q_spend) is None
    &&& note_tag(ss) == note.view_tag
    &&& note.coin@ == group::ristretto_encoding(
        note_coin_log(
            decrypted_value(note, ss) as nat,
            note_serial(ss, q_spend),
            group::ristretto_log(q_spend)->0,
            note_coin_blinding(ss),
        ),
    )
}

/// Creates and scans notes.
pub trait NoteConnector {
    /// The note of a value for an address, under a fresh random ephemeral secret.
    fn create(&self, addr: &SparkAddr2, value: u64, ephemeral: &Scalar) -> (r: Result<
        PublishedNote,
    >);

    /// The opening of a note, if the key detects it.
    fn scan(&self, key: &NoteScanKey, note: &PublishedNote) -> (r: Option<RecoveredNote>);
}

/// The connector for value-bound coins.
pub struct SparkNoteConnector;

impl NoteConnector for SparkNoteConnector {
    fn create(&self, addr: &SparkAddr2, value: u64, ephemeral: &Scalar) -> (r: Result<
        PublishedNote,
    >)
        ensures
            match r {
                Ok(note) => {
                    &&& peer_scalars::non_identity_fault(addr.q_scan@) is None
                    &&& peer_scalars::non_identity_fault(addr.q_spend@) is None
                    &&& is_note(
                        note,
                        group::ristretto_log(addr.q_scan@)->0,
                        addr.q_spend@,
                        value,
                        ephemeral@,
                    )
                },
                Err(e) => match peer_scalars::non_identity_fault(addr.q_scan@) {
                    Some(text) => error::is_crypto(e, text),
                    None => match peer_scalars::non_identity_fault(addr.q_spend@) {
                        Some(text) => error::is_crypto(e, text),
                        None => false,
                    },
                },
            },
    {
        let q_scan = PeerPoint::decode_non_identity(addr.q_scan)?.into_point();
        let q_spend = PeerPoint::decode_non_identity(addr.q_spend)?.into_point();
        let tx_public = RistrettoPoint::mul_base(ephemeral).compress();
        let ss = ecdh_shared_secret(ephemeral, &q_scan);
        let secrets = derive_note(&ss, &addr.q_spend);
        let coin = note_coin(value, &secrets, &q_spend).compress();
        let enc_value = xor8(value, &secrets.amount_pad);
        Ok(PublishedNote { coin, tx_public, enc_value, view_tag: secrets.view_tag })
    }

    fn scan(&self, key: &NoteScanKey, note: &PublishedNote) -> (r: Option<RecoveredNote>)
        ensures
            match r {
                Some(n) => {
                    let tx = group::ristretto_log(note.tx_public@)->0;
                    let ss = shared_secret(field::times(tx, key.scan_secret@));
                    &&& detects(key.scan_secret@, key.q_spend@, *note)
                    &&& n.value == decrypted_value(*note, ss)
                    &&& n.coin_blinding@ == note_coin_blinding(ss)
                    &&& n.value_blinding@ == note_value_blinding(ss)
                    &&& n.serial_public@ == note_serial(ss, key.q_spend@)
                },
                None => !detects(key.scan_secret@, key.q_spend@, *note),
            },
    {
        let tx = match PeerPoint::decode_non_identity(note.tx_public) {
            Ok(p) => p.into_point(),
            Err(_) => {
                return None;
            },
        };
        let q_spend = match PeerPoint::decode_non_identity(key.q_spend) {
            Ok(p) => p.into_point(),
            Err(_) => {
                return None;
            },
        };
        let ss = ecdh_shared_secret(&key.scan_secret, &tx);
        let secrets = derive_note(&ss, &key.q_spend);
        if secrets.view_tag != note.view_tag {
            return None;
        }
        let plain = xor8_bytes(&note.enc_value, &secrets.amount_pad);
        let value: u64 = vstd::bytes::u64_from_le_bytes(&plain);
        let recomputed = note_coin(value, &secrets, &q_spend).compress();
        if !ct_eq(&recomputed, &note.coin) {
            return None;
        }
        Some(
            RecoveredNote {
                value,
                coin_blinding: secrets.coin_blinding,
                value_blinding: secrets.value_blinding,
                serial_public: secrets.serial_public,
            },
        )
    }
}

/// The serial number that spends a recovered note: its public part plus the spend secret.
pub fn spend_serial(recovered: &RecoveredNote, spend_secret: &Scalar) -> (r: Scalar)
    ensures
        r@ == field::plus(recovered.serial_public@, spend_secret@),
{
    recovered.serial_public.add(spend_secret)
}

// --- Laws ------------------------------------------------------------------------------------

proof fn lemma_xor_twice(a: Seq<u8>, b: Seq<u8>)
    ensures
        xor_bytes(xor_bytes(a, b), b) == a,
{
    assert forall|i: int| 0 <= i < a.len() implies #[trigger] xor_bytes(
        xor_bytes(a, b),
        b,
    )[i] == a[i] by {
        let x = a[i];
        let y = b[i];
        assert((x ^ y) ^ y == x) by (bit_vector);
    }
    assert(xor_bytes(xor_bytes(a, b), b) =~= a);
}

/// The owner finds its notes: a note for an address is detected by the address's scan key,
/// and the scan recovers the value.
pub proof fn law_owner_detects(
    note: PublishedNote,
    scan_secret: nat,
    q_spend: Seq<u8>,
    value: u64,
    ephemeral: nat,
)
    requires
        is_note(note, scan_secret, q_spend, value, ephemeral),
        0 < ephemeral,
        peer_scalars::non_identity_fault(q_spend) is None,
    ensures
        detects(scan_secret, q_spend, note),
        decrypted_value(note, shared_secret(field::times(ephemeral, scan_secret))) == value,
{
    assert(scan_secret * ephemeral == ephemeral * scan_secret) by (nonlinear_arith);
    let ss = shared_secret(field::times(scan_secret, ephemeral));
    assert(ss == shared_secret(field::times(ephemeral, scan_secret)));
    vstd::bytes::lemma_auto_spec_u64_to_from_le_bytes();
    lemma_xor_twice(vstd::bytes::spec_u64_to_le_bytes(value), note_pad(ss));
}

/// The opening that a scan recovers, completed with the spend secret, opens the coin.
pub proof fn law_recovered_opening(value: nat, serial: nat, spend_secret: nat, r: nat)
    ensures
        note_coin_log(
            value,
            serial,
            field::times(spark_generators::h_log(), spend_secret),
            r,
        ) == shielded_spend::bound_coin(value, field::plus(serial, spend_secret), r),
{
    let g = (spark_generators::gv_log() * value) as int;
    let h = spark_generators::h_log();
    let a = (h * serial) as int;
    let b = (h * spend_secret) as int;
    let k = (spark_generators::k_log() * r) as int;
    field::lemma_add_red(g, a);
    field::lemma_add_red(g + a, b);
    field::lemma_add_red(g + a + b, k);
    field::lemma_times_right(h, (serial + spend_secret) as int);
    let ab = (h * (serial + spend_secret)) as int;
    field::lemma_add_red(g, ab);
    field::lemma_add_red(g + ab, k);
    assert(ab == a + b) by (nonlinear_arith)
        requires
            ab == h * (serial + spend_secret),
            a == h * serial,
            b == h * spend_secret,
    ;
}

/// The shared secret belongs to one point of the key agreement: where two share it, two
/// different strings have one SHA3-256 digest.
pub proof fn law_shared_secret_binds(a: nat, b: nat)
    requires
        group::encodable(a) && group::encodable(b),
        a != b,
        shared_secret(a) == shared_secret(b),
    ensures
        ({
            let t = bytes::tag("COINCYNC_NOTE_ECDH_v1");
            let left = t + group::ristretto_encoding(a);
            let right = t + group::ristretto_encoding(b);
            left != right && hashing::sha3_256(left) == hashing::sha3_256(right)
        }),
{
    let t = bytes::tag("COINCYNC_NOTE_ECDH_v1");
    let (x, y) = (group::ristretto_encoding(a), group::ristretto_encoding(b));
    if t + x == t + y {
        bytes::lemma_same_heads(t, x, t, y);
    }
}

/// The serial number of a note belongs to one shared secret and one spend key: where two
/// notes that differ in them share it, two different strings hash to one scalar. So every
/// note has a serial number of its own.
pub proof fn law_note_serial_binds(ss1: Seq<u8>, q1: Seq<u8>, ss2: Seq<u8>, q2: Seq<u8>)
    requires
        ss1.len() == ss2.len(),
        ss1 != ss2 || q1 != q2,
        note_serial(ss1, q1) == note_serial(ss2, q2),
    ensures
        ({
            let t = bytes::tag("COINCYNC_NOTE_s_v1");
            let left = t + ss1 + q1;
            let right = t + ss2 + q2;
            &&& left != right
            &&& field::red(field::le_nat(hashing::sha3_512(left)) as int) == field::red(
                field::le_nat(hashing::sha3_512(right)) as int,
            )
        }),
{
    let t = bytes::tag("COINCYNC_NOTE_s_v1");
    if t + ss1 + q1 == t + ss2 + q2 {
        bytes::lemma_same_heads(t + ss1, q1, t + ss2, q2);
        bytes::lemma_same_heads(t, ss1, t, ss2);
    }
}

/// The blindings of a note belong to its shared secret: where two shared secrets give one
/// blinding of the coin, or one of the value commitment, two different strings hash to one
/// scalar.
pub proof fn law_note_blindings_bind(ss1: Seq<u8>, ss2: Seq<u8>)
    requires
        ss1 != ss2,
        note_coin_blinding(ss1) == note_coin_blinding(ss2) || note_value_blinding(ss1)
            == note_value_blinding(ss2),
    ensures
        ({
            let r = bytes::tag("COINCYNC_NOTE_r_v1");
            let b = bytes::tag("COINCYNC_NOTE_b_v1");
            ||| r + ss1 != r + ss2 && field::red(
                field::le_nat(hashing::sha3_512(r + ss1)) as int,
            ) == field::red(field::le_nat(hashing::sha3_512(r + ss2)) as int)
            ||| b + ss1 != b + ss2 && field::red(
                field::le_nat(hashing::sha3_512(b + ss1)) as int,
            ) == field::red(field::le_nat(hashing::sha3_512(b + ss2)) as int)
        }),
{
    let r = bytes::tag("COINCYNC_NOTE_r_v1");
    let b = bytes::tag("COINCYNC_NOTE_b_v1");
    let none = Seq::<u8>::empty();
    assert(r + ss1 + none =~= r + ss1);
    assert(r + ss2 + none =~= r + ss2);
    assert(b + ss1 + none =~= b + ss1);
    assert(b + ss2 + none =~= b + ss2);
    if r + ss1 == r + ss2 {
        bytes::lemma_same_heads(r, ss1, r, ss2);
    }
    if b + ss1 == b + ss2 {
        bytes::lemma_same_heads(b, ss1, b, ss2);
    }
}

/// The two blindings of a note are independent: where they are the same, two different
/// strings hash to one scalar.
pub proof fn law_note_blindings_are_apart(ss: Seq<u8>)
    requires
        note_coin_blinding(ss) == note_value_blinding(ss),
    ensures
        ({
            let left = bytes::tag("COINCYNC_NOTE_r_v1") + ss;
            let right = bytes::tag("COINCYNC_NOTE_b_v1") + ss;
            &&& left != right
            &&& field::red(field::le_nat(hashing::sha3_512(left)) as int) == field::red(
                field::le_nat(hashing::sha3_512(right)) as int,
            )
        }),
{
    let r = bytes::tag("COINCYNC_NOTE_r_v1");
    let b = bytes::tag("COINCYNC_NOTE_b_v1");
    let none = Seq::<u8>::empty();
    assert(r + ss + none =~= r + ss);
    assert(b + ss + none =~= b + ss);
    reveal_strlit("COINCYNC_NOTE_r_v1");
    reveal_strlit("COINCYNC_NOTE_b_v1");
    assert("COINCYNC_NOTE_r_v1"@[14] != "COINCYNC_NOTE_b_v1"@[14]);
    bytes::lemma_tags_differ("COINCYNC_NOTE_r_v1", "COINCYNC_NOTE_b_v1");
    if r + ss == b + ss {
        bytes::lemma_same_tails(r, ss, b, ss);
    }
}

/// A note that is detected is no longer detected once its hidden value is changed and its
/// coin is kept: the coin holds the value that the note hides.
pub proof fn law_changed_value_not_detected(
    scan_secret: nat,
    q_spend: Seq<u8>,
    a: PublishedNote,
    b: PublishedNote,
)
    requires
        group::all_encodable(),
        detects(scan_secret, q_spend, a),
        a.tx_public@ == b.tx_public@,
        a.coin@ == b.coin@,
        ({
            let ss = shared_secret(
                field::times(group::ristretto_log(a.tx_public@)->0, scan_secret),
            );
            decrypted_value(a, ss) != decrypted_value(b, ss)
        }),
        field::unit(spark_generators::gv_log()),
    ensures
        !detects(scan_secret, q_spend, b),
{
    if detects(scan_secret, q_spend, b) {
        let ss = shared_secret(field::times(group::ristretto_log(a.tx_public@)->0, scan_secret));
        let g = spark_generators::gv_log();
        let (v1, v2) = (decrypted_value(a, ss) as nat, decrypted_value(b, ss) as nat);
        let s = note_serial(ss, q_spend);
        let q = group::ristretto_log(q_spend)->0;
        let r = note_coin_blinding(ss);
        let (c1, c2) = (note_coin_log(v1, s, q, r), note_coin_log(v2, s, q, r));
        broadcast use field::lemma_red_range;

        assert(group::encodes(group::ristretto_encoding(c1), c1));
        assert(group::encodes(group::ristretto_encoding(c2), c2));
        let hs = field::times(spark_generators::h_log(), s);
        let kr = field::times(spark_generators::k_log(), r);
        let (x1, x2) = (field::times(g, v1), field::times(g, v2));
        let (y1, y2) = (field::plus(x1, hs), field::plus(x2, hs));
        let (z1, z2) = (field::plus(y1, q), field::plus(y2, q));
        assert(field::plus(z1, kr) == field::plus(kr, z1));
        assert(field::plus(z2, kr) == field::plus(kr, z2));
        field::lemma_cancel_term(kr, z1, z2);
        assert(z1 == field::plus(q, y1) && z2 == field::plus(q, y2));
        field::lemma_cancel_term(q, y1, y2);
        assert(y1 == field::plus(hs, x1) && y2 == field::plus(hs, x2));
        field::lemma_cancel_term(hs, x1, x2);
        field::lemma_order_positive();
        field::lemma_cancel(g, v1, v2);
    }
}

/// A note is detected only with the tag of its shared secret in front: one byte of the
/// digest of the shared secret.
pub proof fn law_detected_note_has_its_tag(scan_secret: nat, q_spend: Seq<u8>, note: PublishedNote)
    requires
        detects(scan_secret, q_spend, note),
    ensures
        note.view_tag == hashing::sha3_256(
            bytes::tag("COINCYNC_NOTE_tag_v1") + hashing::sha3_256(
                bytes::tag("COINCYNC_NOTE_ECDH_v1") + group::ristretto_encoding(
                    field::times(group::ristretto_log(note.tx_public@)->0, scan_secret),
                ),
            ),
        )[0],
{
}

/// Two values that are hidden under one pad differ as they did before: what is hidden
/// determines the value.
pub proof fn law_hidden_value_is_determined(a: u64, b: u64, pad: Seq<u8>)
    requires
        pad.len() == 8,
        xor_bytes(vstd::bytes::spec_u64_to_le_bytes(a), pad) == xor_bytes(
            vstd::bytes::spec_u64_to_le_bytes(b),
            pad,
        ),
    ensures
        a == b,
{
    let (x, y) = (vstd::bytes::spec_u64_to_le_bytes(a), vstd::bytes::spec_u64_to_le_bytes(b));
    bytes::lemma_u64_bytes(a, b);
    bytes::lemma_u64_bytes(b, a);
    lemma_xor_twice(x, pad);
    lemma_xor_twice(y, pad);
}

} // verus!
