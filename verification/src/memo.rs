//! Encrypted memos.
//!
//! The key comes from the shared point of the sender and the recipient. The memo is padded to
//! one size, with its length in front, so that every encrypted memo is as long as any other:
//! the nonce, then the ciphertext with its tag.
use vstd::prelude::*;
use chacha20poly1305::aead::{Aead, KeyInit};
use crate::bytes;
use crate::bytes::append;
use crate::constants::MAX_OUTPUT_MEMO_SIZE;
use crate::curve::{PublicPoint, SecretScalar};
use crate::entropy::os_random_12;
use crate::error;
use crate::error::{Error, Result};
use crate::field;
use crate::group;
use crate::hashing;
use crate::hashing::hash_tagged;
use crate::secure::wipe;
use crate::stealth;
use crate::text;

verus! {

/// The size of the authentication tag.
pub const MEMO_TAG_SIZE: usize = 16;

/// The size of the nonce.
pub const MEMO_NONCE_SIZE: usize = 12;

/// What encryption adds: the nonce and the tag.
pub const MEMO_OVERHEAD: usize = MEMO_NONCE_SIZE + MEMO_TAG_SIZE;

/// The size that a memo is padded to.
pub const MEMO_PADDED_PLAINTEXT: usize = MAX_OUTPUT_MEMO_SIZE - MEMO_OVERHEAD;

/// The size of the length in front of a padded memo.
const MEMO_LEN_PREFIX: usize = 2;

/// The size of the longest memo.
pub const MAX_MEMO_SIZE: usize = MEMO_PADDED_PLAINTEXT - 2;

/// The size of an encrypted memo.
pub const MAX_ENCRYPTED_MEMO_SIZE: usize = MEMO_PADDED_PLAINTEXT + MEMO_OVERHEAD;

/// The ciphertext with its tag that ChaCha20-Poly1305 makes of a plaintext under a key and
/// a nonce.
pub uninterp spec fn chacha_seal(key: Seq<u8>, nonce: Seq<u8>, plaintext: Seq<u8>) -> Seq<u8>;

/// The plaintext that ChaCha20-Poly1305 reads from a ciphertext with its tag under a key and
/// a nonce; nothing where the tag is wrong.
pub uninterp spec fn chacha_open(key: Seq<u8>, nonce: Seq<u8>, ciphertext: Seq<u8>) -> Option<
    Seq<u8>,
>;

/// `chacha20poly1305::ChaCha20Poly1305::encrypt`: a function of the key, the nonce and the
/// plaintext, 16 bytes longer than the plaintext, which decryption gives back. A plaintext of
/// `u32::MAX` blocks or more is refused.
#[verifier::external_body]
fn chacha_encrypt(key: &[u8; 32], nonce: &[u8; 12], plaintext: &[u8]) -> (r: Option<Vec<u8>>)
    ensures
        match r {
            Some(c) => {
                &&& plaintext@.len() / 64 < u32::MAX
                &&& c@ == chacha_seal(key@, nonce@, plaintext@)
                &&& c@.len() == plaintext@.len() + 16
                &&& chacha_open(key@, nonce@, c@) == Some(plaintext@)
            },
            None => plaintext@.len() / 64 >= u32::MAX,
        },
{
    chacha20poly1305::ChaCha20Poly1305::new(key.into()).encrypt(nonce.into(), plaintext).ok()
}

/// `chacha20poly1305::ChaCha20Poly1305::decrypt`: a function of the key, the nonce and the
/// ciphertext; a plaintext that comes out is 16 bytes shorter.
#[verifier::external_body]
fn chacha_decrypt(key: &[u8; 32], nonce: &[u8; 12], ciphertext: &[u8]) -> (r: Option<Vec<u8>>)
    ensures
        match r {
            Some(p) => chacha_open(key@, nonce@, ciphertext@) == Some(p@) && p@.len() + 16
                == ciphertext@.len(),
            None => chacha_open(key@, nonce@, ciphertext@) is None,
        },
{
    chacha20poly1305::ChaCha20Poly1305::new(key.into()).decrypt(nonce.into(), ciphertext).ok()
}

/// The key of a shared point.
pub open spec fn memo_key(shared: nat) -> Seq<u8> {
    hashing::domain_hash(bytes::tag("COINCYNC_MEMO_v1"), group::ristretto_encoding(shared))
}

fn derive_memo_key(shared: &mut PublicPoint) -> (r: [u8; 32])
    ensures
        r@ == memo_key(old(shared)@),
        final(shared)@ == 0,
{
    let mut shared_bytes = shared.to_bytes();
    let key = hash_tagged("COINCYNC_MEMO_v1", &shared_bytes);
    wipe(&mut shared_bytes);
    shared.zeroize();
    key
}

/// A memo with its length in front and zeros behind.
pub open spec fn padded(memo: Seq<u8>) -> Seq<u8> {
    vstd::bytes::spec_u16_to_le_bytes(memo.len() as u16) + memo + Seq::new(
        (MAX_MEMO_SIZE - memo.len()) as nat,
        |i: int| 0u8,
    )
}

/// The memo that a plaintext holds. A plaintext that is not of the padded size, or whose
/// length does not fit, stands for itself.
pub open spec fn unpadded(plaintext: Seq<u8>) -> Seq<u8> {
    let declared = vstd::bytes::spec_u16_from_le_bytes(plaintext.take(2)) as int;
    if plaintext.len() != MEMO_PADDED_PLAINTEXT || declared > MAX_MEMO_SIZE {
        plaintext
    } else {
        plaintext.subrange(2, 2 + declared)
    }
}

/// Whether `c` is a memo encrypted under a key and a nonce, in such a way that decryption
/// gives the padded memo back.
pub open spec fn sealed(c: Seq<u8>, memo: Seq<u8>, key: Seq<u8>, nonce: Seq<u8>) -> bool {
    &&& c.len() == MAX_ENCRYPTED_MEMO_SIZE
    &&& c.take(12) == nonce
    &&& c.skip(12) == chacha_seal(key, nonce, padded(memo))
    &&& chacha_open(key, nonce, c.skip(12)) == Some(padded(memo))
}

/// What encrypting a memo gives, for a nonce.
pub open spec fn encrypt_outcome(
    r: Result<Vec<u8>>,
    memo: Seq<u8>,
    tx_secret: Seq<u8>,
    view_public: Seq<u8>,
    nonce: Seq<u8>,
) -> bool {
    if memo.len() == 0 {
        r matches Ok(c) && c@.len() == 0
    } else if memo.len() > MAX_MEMO_SIZE {
        r matches Err(Error::InvalidTransaction(m)) && m@ == "memo too large: "@ + text::decimal(
            memo.len(),
        ) + " bytes (max "@ + text::decimal(MAX_MEMO_SIZE as nat) + ")"@
    } else {
        match group::ristretto_log(view_public) {
            None => r matches Err(e) && error::is_crypto(
                e,
                "invalid view public key for memo encryption"@,
            ),
            Some(view) => r matches Ok(c) && sealed(
                c@,
                memo,
                memo_key(field::times(view, stealth::key_scalar(tx_secret))),
                nonce,
            ),
        }
    }
}

/// Encrypts a memo for the holder of a view key, under a random nonce.
pub fn encrypt_memo(
    memo: &[u8],
    tx_secret_bytes: &[u8; 32],
    recipient_view_public_bytes: &[u8; 32],
) -> (r: Result<Vec<u8>>)
    ensures
        exists|nonce: Seq<u8>|
            nonce.len() == 12 && #[trigger] encrypt_outcome(
                r,
                memo@,
                tx_secret_bytes@,
                recipient_view_public_bytes@,
                nonce,
            ),
{
    let nonce = os_random_12();
    encrypt_memo_with(memo, tx_secret_bytes, recipient_view_public_bytes, &nonce)
}

/// Encrypts a memo for the holder of a view key, under a given nonce. A nonce must not be
/// used twice under one key.
pub fn encrypt_memo_with(
    memo: &[u8],
    tx_secret_bytes: &[u8; 32],
    recipient_view_public_bytes: &[u8; 32],
    nonce: &[u8; 12],
) -> (r: Result<Vec<u8>>)
    ensures
        encrypt_outcome(
            r,
            memo@,
            tx_secret_bytes@,
            recipient_view_public_bytes@,
            nonce@,
        ),
{
    let n: usize = memo.len();
    if n == 0 {
        return Ok(Vec::new());
    }
    if n > MAX_MEMO_SIZE {
        let mut s: String = "memo too large: ".to_owned();
        text::push_decimal(&mut s, n as u64);
        text::push_text(&mut s, " bytes (max ");
        text::push_decimal(&mut s, MAX_MEMO_SIZE as u64);
        text::push_text(&mut s, ")");
        return Err(Error::InvalidTransaction(s));
    }
    let plaintext = pad_memo(memo);
    let tx_scalar = SecretScalar::from_bytes(*tx_secret_bytes);
    let view_point = match PublicPoint::from_bytes(*recipient_view_public_bytes) {
        Some(p) => p,
        None => {
            return Err(error::crypto("invalid view public key for memo encryption"));
        },
    };
    let mut shared_point = view_point.mul(&tx_scalar);
    let mut key = derive_memo_key(&mut shared_point);
    let sealed_memo = chacha_encrypt(&key, nonce, plaintext.as_slice());
    let ghost used = key@;
    wipe(&mut key);
    match sealed_memo {
        Some(ciphertext) => {
            let mut result: Vec<u8> = Vec::new();
            append(&mut result, nonce);
            append(&mut result, ciphertext.as_slice());
            proof {
                assert(result@.take(12) =~= nonce@);
                assert(result@.skip(12) =~= ciphertext@);
                assert(sealed(result@, memo@, used, nonce@));
            }
            Ok(result)
        },
        None => Err(error::crypto("memo encryption failed: aead::Error")),
    }
}

fn pad_memo(memo: &[u8]) -> (r: Vec<u8>)
    requires
        memo@.len() <= MAX_MEMO_SIZE,
    ensures
        r@ == padded(memo@),
        r@.len() == MEMO_PADDED_PLAINTEXT,
{
    let mut out: Vec<u8> = Vec::new();
    append(&mut out, vstd::bytes::u16_to_le_bytes(memo.len() as u16).as_slice());
    append(&mut out, memo);
    let ghost head = out@;
    proof {
        vstd::bytes::lemma_auto_spec_u16_to_from_le_bytes();
    }
    assert(head.len() == 2 + memo@.len());
    while out.len() < MEMO_PADDED_PLAINTEXT
        invariant
            head.len() <= out@.len() <= MEMO_PADDED_PLAINTEXT,
            out@ == head + Seq::new((out@.len() - head.len()) as nat, |i: int| 0u8),
        decreases MEMO_PADDED_PLAINTEXT - out@.len(),
    {
        out.push(0);
        assert(out@ =~= head + Seq::new((out@.len() - head.len()) as nat, |i: int| 0u8));
    }
    assert(out@ =~= padded(memo@));
    out
}

/// What decrypting a memo gives.
pub open spec fn decrypt_outcome(
    r: Result<Vec<u8>>,
    encrypted: Seq<u8>,
    view_secret: Seq<u8>,
    tx_public: Seq<u8>,
) -> bool {
    if encrypted.len() == 0 {
        r matches Ok(m) && m@.len() == 0
    } else if encrypted.len() < MEMO_OVERHEAD {
        r matches Err(e) && error::is_crypto(e, "encrypted memo too short"@)
    } else {
        match group::ristretto_log(tx_public) {
            None => r matches Err(e) && error::is_crypto(
                e,
                "invalid tx public key for memo decryption"@,
            ),
            Some(tx) => match chacha_open(
                memo_key(field::times(tx, stealth::key_scalar(view_secret))),
                encrypted.take(12),
                encrypted.skip(12),
            ) {
                Some(plaintext) => r matches Ok(m) && m@ == unpadded(plaintext),
                None => r matches Err(e) && error::is_crypto(
                    e,
                    "memo decryption failed (wrong key or corrupted)"@,
                ),
            },
        }
    }
}

/// Decrypts a memo with the view secret of the recipient.
pub fn decrypt_memo(
    encrypted: &[u8],
    view_secret_bytes: &[u8; 32],
    tx_public_key_bytes: &[u8; 32],
) -> (r: Result<Vec<u8>>)
    ensures
        decrypt_outcome(r, encrypted@, view_secret_bytes@, tx_public_key_bytes@),
{
    let n: usize = encrypted.len();
    if n == 0 {
        return Ok(Vec::new());
    }
    if n < MEMO_NONCE_SIZE + MEMO_TAG_SIZE {
        return Err(error::crypto("encrypted memo too short"));
    }
    let view_scalar = SecretScalar::from_bytes(*view_secret_bytes);
    let tx_point = match PublicPoint::from_bytes(*tx_public_key_bytes) {
        Some(p) => p,
        None => {
            return Err(error::crypto("invalid tx public key for memo decryption"));
        },
    };
    let mut shared_point = tx_point.mul(&view_scalar);
    let mut key = derive_memo_key(&mut shared_point);
    let mut nonce: [u8; 12] = [0u8; 12];
    let mut i: usize = 0;
    while i < 12
        invariant
            i <= 12,
            n == encrypted@.len(),
            n >= 28,
            forall|j: int| 0 <= j < i ==> nonce@[j] == encrypted@[j],
        decreases 12 - i,
    {
        nonce[i] = encrypted[i];
        i = i + 1;
    }
    assert(nonce@ =~= encrypted@.take(12));
    let ciphertext = vstd::slice::slice_subrange(encrypted, 12, n);
    assert(ciphertext@ =~= encrypted@.skip(12));
    let opened = chacha_decrypt(&key, &nonce, ciphertext);
    wipe(&mut key);
    match opened {
        Some(plaintext) => Ok(unpad_memo(plaintext)),
        None => Err(error::crypto("memo decryption failed (wrong key or corrupted)")),
    }
}

/// The memo that a plaintext holds.
pub fn unpad_memo(plaintext: Vec<u8>) -> (r: Vec<u8>)
    ensures
        r@ == unpadded(plaintext@),
{
    if plaintext.len() != MEMO_PADDED_PLAINTEXT {
        return plaintext;
    }
    let head = vstd::slice::slice_subrange(plaintext.as_slice(), 0, 2);
    assert(head@ =~= plaintext@.take(2));
    let declared: usize = vstd::bytes::u16_from_le_bytes(head) as usize;
    if declared > MEMO_PADDED_PLAINTEXT - MEMO_LEN_PREFIX {
        return plaintext;
    }
    let mut out: Vec<u8> = Vec::new();
    append(&mut out, vstd::slice::slice_subrange(plaintext.as_slice(), 2, 2 + declared));
    assert(out@ =~= plaintext@.subrange(2, 2 + declared as int));
    out
}

/// Padding is undone: the memo that a padded memo holds is the memo.
pub proof fn law_padding_round_trip(memo: Seq<u8>)
    requires
        memo.len() <= MAX_MEMO_SIZE,
    ensures
        padded(memo).len() == MEMO_PADDED_PLAINTEXT,
        unpadded(padded(memo)) == memo,
{
    vstd::bytes::lemma_auto_spec_u16_to_from_le_bytes();
    let head = vstd::bytes::spec_u16_to_le_bytes(memo.len() as u16);
    assert(padded(memo).take(2) =~= head);
    assert(padded(memo).subrange(2, 2 + memo.len() as int) =~= memo);
}

/// The recipient reads the memo that was encrypted for them, from the view secret and the
/// transaction key.
pub proof fn law_memo_round_trip(
    c: Result<Vec<u8>>,
    memo: Seq<u8>,
    tx_secret: Seq<u8>,
    view_secret: Seq<u8>,
    view_public: Seq<u8>,
    tx_public: Seq<u8>,
    nonce: Seq<u8>,
    r: Result<Vec<u8>>,
)
    requires
        memo.len() <= MAX_MEMO_SIZE,
        group::encodes(view_public, stealth::key_scalar(view_secret)),
        group::encodes(tx_public, stealth::key_scalar(tx_secret)),
        encrypt_outcome(c, memo, tx_secret, view_public, nonce),
        c matches Ok(e) && decrypt_outcome(r, e@, view_secret, tx_public),
    ensures
        r matches Ok(m) && m@ == memo,
{
    let a = stealth::key_scalar(view_secret);
    let t = stealth::key_scalar(tx_secret);
    assert(a * t == t * a) by (nonlinear_arith);
    law_padding_round_trip(memo);
    if memo.len() == 0 {
        assert(memo =~= Seq::<u8>::empty());
        assert((r->Ok_0)@ =~= memo);
    }
}

/// Every encrypted memo has the size that the network allows: its length says nothing of
/// the memo.
pub proof fn law_memo_size_uniform(
    c: Result<Vec<u8>>,
    memo: Seq<u8>,
    tx_secret: Seq<u8>,
    view_public: Seq<u8>,
    nonce: Seq<u8>,
)
    requires
        encrypt_outcome(c, memo, tx_secret, view_public, nonce),
        memo.len() > 0,
    ensures
        c matches Ok(e) ==> e@.len() == MAX_OUTPUT_MEMO_SIZE,
{
}

/// The key of a memo belongs to one shared point: where two share it, two different strings
/// have one BLAKE3 hash.
pub proof fn law_memo_key_binds(a: nat, b: nat)
    requires
        group::encodable(a) && group::encodable(b),
        a != b,
        memo_key(a) == memo_key(b),
    ensures
        ({
            let t = bytes::tag("COINCYNC_MEMO_v1");
            let left = t + group::ristretto_encoding(a);
            let right = t + group::ristretto_encoding(b);
            left != right && hashing::blake3_hash(left) == hashing::blake3_hash(right)
        }),
{
    let (x, y) = (group::ristretto_encoding(a), group::ristretto_encoding(b));
    hashing::law_domain_hash_binds(bytes::tag("COINCYNC_MEMO_v1"), x, y);
}

/// Sender and recipient agree on the key of a memo: the transaction secret with the view key
/// gives the same key as the view secret with the transaction key.
pub proof fn law_memo_keys_agree(tx_secret: nat, view_secret: nat)
    ensures
        memo_key(field::times(view_secret, tx_secret)) == memo_key(
            field::times(tx_secret, view_secret),
        ),
{
    assert(view_secret * tx_secret == tx_secret * view_secret) by (nonlinear_arith);
}

} // verus!
