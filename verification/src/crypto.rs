//! AES-256-GCM field encryption. A stored blob is `nonce (12 bytes) || ciphertext+tag`.

use aes_gcm::aead::{Aead, KeyInit};
use aes_gcm::{Aes256Gcm, Key, Nonce};
use rand::RngCore;
use vstd::prelude::*;

verus! {

/// Length of an AES-256 key.
pub const KEY_LEN: usize = 32;

/// Length of an AES-GCM nonce.
pub const NONCE_LEN: usize = 12;

/// Length of the authentication tag that AES-GCM appends to the ciphertext.
pub const TAG_LEN: usize = 16;

/// The longest plaintext that AES-GCM accepts (2^36 bytes).
pub const PLAINTEXT_MAX: u64 = 0x10_0000_0000;

#[verifier::external_type_specification]
#[verifier::external_body]
pub struct ExAeadError(aes_gcm::Error);

/// The ciphertext+tag that AES-256-GCM gives for `plaintext` under `key` and `nonce`
/// (no associated data).
pub uninterp spec fn aes256gcm_seal(key: Seq<u8>, nonce: Seq<u8>, plaintext: Seq<u8>) -> Seq<u8>;

/// What AES-256-GCM decryption of `ciphertext` (ciphertext+tag) under `key` and
/// `nonce` gives: the plaintext, or `None` when the tag does not verify.
pub uninterp spec fn aes256gcm_open(key: Seq<u8>, nonce: Seq<u8>, ciphertext: Seq<u8>) -> Option<Seq<u8>>;

/// `rand::rng().fill_bytes`: overwrites `buf` with random bytes; the length stays.
#[verifier::external_body]
pub(crate) fn fill_random(buf: &mut [u8])
    ensures
        final(buf)@.len() == old(buf)@.len(),
{
    rand::rng().fill_bytes(buf)
}

/// `Aes256Gcm::encrypt` (via `aead::Aead`): fails exactly when the plaintext is longer
/// than 2^36 bytes; otherwise gives the sealed text, which is 16 bytes longer than the
/// plaintext and which decryption under the same key and nonce turns back into the
/// plaintext.
#[verifier::external_body]
fn aes_gcm_seal(key: &[u8; KEY_LEN], nonce: &[u8], plaintext: &[u8]) -> (r: Result<Vec<u8>, aes_gcm::Error>)
    requires
        nonce@.len() == NONCE_LEN,
    ensures
        r is Ok <==> plaintext@.len() <= PLAINTEXT_MAX,
        r matches Ok(c) ==> c@ == aes256gcm_seal(key@, nonce@, plaintext@),
        r matches Ok(c) ==> c@.len() == plaintext@.len() + TAG_LEN,
        r matches Ok(c) ==> aes256gcm_open(key@, nonce@, c@) == Some(plaintext@),
{
    let cipher = Aes256Gcm::new(Key::<Aes256Gcm>::from_slice(key));
    cipher.encrypt(Nonce::from_slice(nonce), plaintext)
}

/// `Aes256Gcm::decrypt` (via `aead::Aead`): the plaintext when the tag verifies,
/// an error otherwise.
#[verifier::external_body]
fn aes_gcm_open(key: &[u8; KEY_LEN], nonce: &[u8], ciphertext: &[u8]) -> (r: Result<Vec<u8>, aes_gcm::Error>)
    requires
        nonce@.len() == NONCE_LEN,
    ensures
        r matches Ok(p) ==> aes256gcm_open(key@, nonce@, ciphertext@) == Some(p@),
        r is Err ==> aes256gcm_open(key@, nonce@, ciphertext@) is None,
{
    let cipher = Aes256Gcm::new(Key::<Aes256Gcm>::from_slice(key));
    cipher.decrypt(Nonce::from_slice(nonce), ciphertext)
}

/// A fresh random 32-byte master key.
pub fn generate_master_key() -> [u8; KEY_LEN] {
    let mut key = [0u8; KEY_LEN];
    fill_random(&mut key);
    key
}

/// The error text of a failed encryption.
pub open spec fn encrypt_failed_message() -> Seq<char> {
    "encrypt failed: aead::Error"@
}

/// The error text of a blob too short to hold a nonce.
pub open spec fn blob_too_short_message() -> Seq<char> {
    "encrypted blob too short"@
}

/// The error text of a blob whose tag does not verify.
pub open spec fn decrypt_failed_message() -> Seq<char> {
    "decrypt failed: aead::Error"@
}

/// `blob` is an encryption of `plaintext` under `key`: a nonce, then the sealed text,
/// which opens to `plaintext` again.
pub open spec fn encrypts(key: Seq<u8>, plaintext: Seq<u8>, blob: Seq<u8>) -> bool {
    &&& blob.len() >= NONCE_LEN
    &&& blob.subrange(NONCE_LEN as int, blob.len() as int)
        == aes256gcm_seal(key, blob.subrange(0, NONCE_LEN as int), plaintext)
    &&& aes256gcm_open(key, blob.subrange(0, NONCE_LEN as int), blob.subrange(NONCE_LEN as int, blob.len() as int))
        == Some(plaintext)
}

/// Opening what `key` and `nonce` sealed of `plaintext` gives `plaintext` back.
pub open spec fn seal_opens(key: Seq<u8>, nonce: Seq<u8>, plaintext: Seq<u8>) -> bool {
    aes256gcm_open(key, nonce, aes256gcm_seal(key, nonce, plaintext)) == Some(plaintext)
}

/// What decrypting `blob` under `key` gives.
pub open spec fn decrypted(key: Seq<u8>, blob: Seq<u8>) -> Result<Seq<u8>, Seq<char>> {
    if blob.len() < NONCE_LEN {
        Err(blob_too_short_message())
    } else {
        match aes256gcm_open(key, blob.subrange(0, NONCE_LEN as int), blob.subrange(NONCE_LEN as int, blob.len() as int)) {
            Some(p) => Ok(p),
            None => Err(decrypt_failed_message()),
        }
    }
}

/// Encrypts `plaintext` under `master` with the given nonce: `nonce || sealed text`.
pub fn encrypt_with_nonce(master: &[u8; KEY_LEN], nonce: &[u8; NONCE_LEN], plaintext: &[u8]) -> (r: Result<Vec<u8>, String>)
    ensures
        r is Ok <==> plaintext@.len() <= PLAINTEXT_MAX,
        r matches Ok(blob) ==> blob@ == nonce@ + aes256gcm_seal(master@, nonce@, plaintext@),
        r matches Ok(blob) ==> encrypts(master@, plaintext@, blob@),
        r matches Ok(blob) ==> blob@.len() == NONCE_LEN + plaintext@.len() + TAG_LEN,
        r matches Err(e) ==> e@ == encrypt_failed_message(),
{
    let sealed = aes_gcm_seal(master, nonce.as_slice(), plaintext);
    match sealed {
        Ok(ct) => {
            let mut out: Vec<u8> = Vec::new();
            out.extend_from_slice(nonce.as_slice());
            out.extend_from_slice(ct.as_slice());
            proof {
                assert(out@.subrange(0, NONCE_LEN as int) =~= nonce@);
                assert(out@.subrange(NONCE_LEN as int, out@.len() as int) =~= ct@);
            }
            Ok(out)
        },
        Err(_) => Err(String::from_str("encrypt failed: aead::Error")),
    }
}

/// Encrypts `plaintext` under `master` with a fresh random nonce.
pub fn encrypt(master: &[u8; KEY_LEN], plaintext: &[u8]) -> (r: Result<Vec<u8>, String>)
    ensures
        r is Ok <==> plaintext@.len() <= PLAINTEXT_MAX,
        r matches Ok(blob) ==> encrypts(master@, plaintext@, blob@),
        r matches Ok(blob) ==> blob@.len() == NONCE_LEN + plaintext@.len() + TAG_LEN,
        r matches Err(e) ==> e@ == encrypt_failed_message(),
{
    let mut nonce = [0u8; NONCE_LEN];
    fill_random(&mut nonce);
    encrypt_with_nonce(master, &nonce, plaintext)
}

/// Decrypts a blob `nonce || sealed text`.
pub fn decrypt(master: &[u8; KEY_LEN], blob: &[u8]) -> (r: Result<Vec<u8>, String>)
    ensures
        match r {
            Ok(p) => decrypted(master@, blob@) == Ok::<Seq<u8>, Seq<char>>(p@),
            Err(e) => decrypted(master@, blob@) == Err::<Seq<u8>, Seq<char>>(e@),
        },
{
    if blob.len() < NONCE_LEN {
        return Err(String::from_str("encrypted blob too short"));
    }
    let (nonce, ct) = blob.split_at(NONCE_LEN);
    match aes_gcm_open(master, nonce, ct) {
        Ok(p) => Ok(p),
        Err(_) => Err(String::from_str("decrypt failed: aead::Error")),
    }
}

/// Decryption undoes encryption: a blob that `encrypt` produced for `plaintext`
/// decrypts to `plaintext` under the same key.
pub proof fn lemma_decrypt_encrypted(key: Seq<u8>, plaintext: Seq<u8>, blob: Seq<u8>)
    requires
        encrypts(key, plaintext, blob),
    ensures
        decrypted(key, blob) == Ok::<Seq<u8>, Seq<char>>(plaintext),
{
}

} // verus!
