use vstd::prelude::*;

verus! {

use crate::{KEY_LEN, MAC_LEN, NONCE_LEN};
use vstd::slice::slice_subrange;

/// A symmetric key, held as plain bytes in memory.
///
/// The same type serves both the data key (encrypts vault snapshots) and the
/// master key (wraps the data key); the two are never persisted in the clear.
pub struct SecretKey {
    bytes: Vec<u8>,
}

impl View for SecretKey {
    type V = Seq<u8>;

    closed spec fn view(&self) -> Seq<u8> {
        self.bytes@
    }
}

/// What `secretbox`-style sealing returns for a payload, nonce and key.
/// The result is a function of the three arguments alone.
pub uninterp spec fn seal_of(p: Seq<u8>, n: Seq<u8>, k: Seq<u8>) -> Seq<u8>;

/// What `secretbox`-style opening returns for a ciphertext, nonce and key:
/// the recovered payload, or nothing when authentication fails.
pub uninterp spec fn open_of(c: Seq<u8>, n: Seq<u8>, k: Seq<u8>) -> Option<Seq<u8>>;

/// `blob` is a well-formed encryption of payload `p` under key `k`:
/// it starts with a nonce, and the remainder opens to `p` under that nonce.
pub open spec fn is_sealed_blob(blob: Seq<u8>, p: Seq<u8>, k: Seq<u8>) -> bool {
    &&& blob.len() >= NONCE_LEN
    &&& open_of(blob.skip(NONCE_LEN as int), blob.take(NONCE_LEN as int), k) == Some(p)
}

/// The value that decryption yields for a blob under a key: nothing for a
/// blob too short to hold a nonce, otherwise whatever opening the remainder
/// under the leading nonce yields.
pub open spec fn decrypt_model(blob: Seq<u8>, k: Seq<u8>) -> Option<Seq<u8>> {
    if blob.len() < NONCE_LEN {
        None
    } else {
        open_of(blob.skip(NONCE_LEN as int), blob.take(NONCE_LEN as int), k)
    }
}

/// Relies on sodiumoxide's `init`: prepares the library (and makes random
/// generation thread-safe); reports whether initialization succeeded.
#[verifier::external_body]
pub fn init_crypto() -> (ok: bool) {
    sodiumoxide::init().is_ok()
}

/// Relies on sodiumoxide's `secretbox::gen_key`: a freshly drawn random key
/// of `KEYBYTES` (32) bytes. Nothing is promised of the drawn value itself.
#[verifier::external_body]
fn sodium_gen_key() -> (r: Vec<u8>)
    ensures
        r@.len() == KEY_LEN,
{
    sodiumoxide::crypto::secretbox::gen_key().0.to_vec()
}

/// Relies on sodiumoxide's `secretbox::gen_nonce`: a freshly drawn random
/// nonce of `NONCEBYTES` (24) bytes. Nothing is promised of the drawn value.
#[verifier::external_body]
fn sodium_gen_nonce() -> (r: Vec<u8>)
    ensures
        r@.len() == NONCE_LEN,
{
    sodiumoxide::crypto::secretbox::gen_nonce().0.to_vec()
}

/// Relies on sodiumoxide's `secretbox::seal`: authenticated encryption whose
/// output is a function of payload, nonce and key alone, is `MACBYTES` (16)
/// bytes longer than the payload, and opens back to the payload under the
/// same nonce and key.
#[verifier::external_body]
fn sodium_seal(data: &[u8], nonce: &Vec<u8>, key: &SecretKey) -> (r: Vec<u8>)
    requires
        nonce@.len() == NONCE_LEN,
        key.wf(),
        data@.len() + MAC_LEN <= usize::MAX,
    ensures
        r@ == seal_of(data@, nonce@, key@),
        r@.len() == data@.len() + MAC_LEN,
        open_of(r@, nonce@, key@) == Some(data@),
{
    let n = sodiumoxide::crypto::secretbox::Nonce::from_slice(nonce).unwrap();
    let k = sodiumoxide::crypto::secretbox::Key::from_slice(&key.bytes).unwrap();
    sodiumoxide::crypto::secretbox::seal(data, &n, &k)
}

/// Relies on sodiumoxide's `secretbox::open`: verifies and decrypts a
/// ciphertext under a nonce and key; yields nothing when verification fails.
/// The outcome is a function of the three arguments alone.
#[verifier::external_body]
fn sodium_open(ct: &[u8], nonce: &[u8], key: &SecretKey) -> (r: Option<Vec<u8>>)
    requires
        nonce@.len() == NONCE_LEN,
        key.wf(),
    ensures
        match r {
            Some(p) => open_of(ct@, nonce@, key@) == Some(p@),
            None => open_of(ct@, nonce@, key@) is None,
        },
{
    let n = sodiumoxide::crypto::secretbox::Nonce::from_slice(nonce).unwrap();
    let k = sodiumoxide::crypto::secretbox::Key::from_slice(&key.bytes).unwrap();
    sodiumoxide::crypto::secretbox::open(ct, &n, &k).ok()
}

impl SecretKey {
    /// A key is well-formed when it holds exactly `KEY_LEN` bytes.
    pub open spec fn wf(&self) -> bool {
        self@.len() == KEY_LEN
    }

    /// Draw a fresh random key.
    pub fn generate() -> (r: SecretKey)
        ensures
            r.wf(),
    {
        SecretKey { bytes: sodium_gen_key() }
    }

    /// Build a key from raw bytes; yields nothing unless exactly `KEY_LEN`
    /// bytes are given.
    pub fn from_bytes(bytes: Vec<u8>) -> (r: Option<SecretKey>)
        ensures
            match r {
                Some(k) => k@ == bytes@ && k.wf(),
                None => bytes@.len() != KEY_LEN,
            },
    {
        if bytes.len() == KEY_LEN {
            Some(SecretKey { bytes })
        } else {
            None
        }
    }

    /// The raw bytes of the key.
    pub fn as_bytes(&self) -> (r: &Vec<u8>)
        ensures
            r@ == self@,
    {
        &self.bytes
    }
}

/// Stateless authenticated encryption over byte payloads.
pub struct Encryption {}

impl Encryption {
    /// Encrypt `data` under `key`: a fresh random nonce, followed by the
    /// payload sealed under that nonce. Every call draws its own nonce.
    pub fn encrypt(data: &[u8], key: &SecretKey) -> (r: Vec<u8>)
        requires
            key.wf(),
            data@.len() + NONCE_LEN + MAC_LEN <= usize::MAX,
        ensures
            is_sealed_blob(r@, data@, key@),
            r@.len() == data@.len() + NONCE_LEN + MAC_LEN,
            decrypt_model(r@, key@) == Some(data@),
    {
        let nonce = sodium_gen_nonce();
        let mut sealed = sodium_seal(data, &nonce, key);
        let ghost nonce_bytes = nonce@;
        let ghost sealed_bytes = sealed@;
        let mut blob = nonce;
        blob.append(&mut sealed);
        proof {
            assert(blob@.take(NONCE_LEN as int) =~= nonce_bytes);
            assert(blob@.skip(NONCE_LEN as int) =~= sealed_bytes);
        }
        blob
    }

    /// Decrypt a blob produced by `encrypt`. Yields nothing when the blob is
    /// shorter than a nonce, or when authentication of the remainder fails;
    /// the two cases are indistinguishable to the caller.
    pub fn decrypt(data: &[u8], key: &SecretKey) -> (r: Option<Vec<u8>>)
        requires
            key.wf(),
        ensures
            match r {
                Some(p) => decrypt_model(data@, key@) == Some(p@),
                None => decrypt_model(data@, key@) is None,
            },
            data@.len() < NONCE_LEN ==> r is None,
    {
        if data.len() < NONCE_LEN {
            return None;
        }
        let nonce = slice_subrange(data, 0, NONCE_LEN);
        let ct = slice_subrange(data, NONCE_LEN, data.len());
        proof {
            assert(nonce@ =~= data@.take(NONCE_LEN as int));
            assert(ct@ =~= data@.skip(NONCE_LEN as int));
        }
        sodium_open(ct, nonce, key)
    }
}

/// Law: decryption inverts encryption. Any well-formed encryption of a
/// payload `p` under a key `k` decrypts to exactly `p` under `k`.
pub proof fn lemma_decrypt_of_encrypt(blob: Seq<u8>, p: Seq<u8>, k: Seq<u8>)
    requires
        is_sealed_blob(blob, p, k),
    ensures
        decrypt_model(blob, k) == Some(p),
{
}

/// Law: a blob shorter than the fixed nonce length never decrypts, under any
/// key.
pub proof fn lemma_short_blob_never_decrypts(blob: Seq<u8>, k: Seq<u8>)
    requires
        blob.len() < NONCE_LEN,
    ensures
        decrypt_model(blob, k) is None,
{
}

} // verus!
