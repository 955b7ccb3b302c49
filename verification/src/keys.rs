use vstd::prelude::*;

verus! {

use crate::crypto::{decrypt_model, is_sealed_blob, Encryption, SecretKey};
use crate::{KEY_LEN, MAC_LEN, NONCE_LEN};

/// Wrap the data key under the master key (envelope encryption): the same
/// nonce-prepended blob the snapshot uses, with the raw key bytes as payload.
pub fn wrap_key(data_key: &SecretKey, master_key: &SecretKey) -> (r: Vec<u8>)
    requires
        data_key.wf(),
        master_key.wf(),
    ensures
        is_sealed_blob(r@, data_key@, master_key@),
        r@.len() == KEY_LEN + NONCE_LEN + MAC_LEN,
{
    Encryption::encrypt(data_key.as_bytes().as_slice(), master_key)
}

/// What unwrapping yields for a blob under a master key: the wrapped key
/// bytes when they authenticate and have the right length, nothing otherwise.
pub open spec fn unwrap_model(blob: Seq<u8>, master: Seq<u8>) -> Option<Seq<u8>> {
    match decrypt_model(blob, master) {
        Some(kb) => if kb.len() == KEY_LEN {
            Some(kb)
        } else {
            None
        },
        None => None,
    }
}

/// Unwrap a wrapped data key. Yields nothing when the blob does not
/// authenticate under the master key or does not hold exactly one key; the
/// caller treats that as "no usable key yet" and generates a fresh one.
pub fn unwrap_key(blob: &[u8], master_key: &SecretKey) -> (r: Option<SecretKey>)
    requires
        master_key.wf(),
    ensures
        match r {
            Some(k) => unwrap_model(blob@, master_key@) == Some(k@) && k.wf(),
            None => unwrap_model(blob@, master_key@) is None,
        },
{
    match Encryption::decrypt(blob, master_key) {
        Some(bytes) => SecretKey::from_bytes(bytes),
        None => None,
    }
}

/// Law: unwrapping inverts wrapping. Any well-formed wrapping of a key under
/// a master key unwraps to exactly that key under the same master key.
pub proof fn lemma_unwrap_of_wrap(blob: Seq<u8>, kb: Seq<u8>, master: Seq<u8>)
    requires
        kb.len() == KEY_LEN,
        is_sealed_blob(blob, kb, master),
    ensures
        unwrap_model(blob, master) == Some(kb),
{
}

/// The key-material lifecycle: the process starts uninitialized, either
/// loads the wrapped data key or turns to generating a fresh one, and ends
/// loaded (for the rest of the process) or failed (fatal to startup). The
/// caller performs the file reads and writes and feeds their outcomes in.
pub enum KeyState {
    Uninitialized,
    Generating,
    Loaded(SecretKey),
    Failed,
}

impl KeyState {
    /// A loaded state holds a well-formed key.
    pub open spec fn wf(&self) -> bool {
        self matches KeyState::Loaded(k) ==> k.wf()
    }

    /// Resolve an attempted read of the wrapped-key file: a blob that
    /// unwraps moves to `Loaded`; an absent file and a blob that fails to
    /// unwrap are treated identically, moving to `Generating`. No key is ever
    /// fabricated from a partial success.
    pub fn on_load_attempt(self, file_bytes: Option<Vec<u8>>, master_key: &SecretKey) -> (r:
        KeyState)
        requires
            self is Uninitialized,
            master_key.wf(),
        ensures
            r.wf(),
            match file_bytes {
                Some(b) => match unwrap_model(b@, master_key@) {
                    Some(kb) => r matches KeyState::Loaded(k) && k@ == kb,
                    None => r is Generating,
                },
                None => r is Generating,
            },
    {
        match file_bytes {
            Some(b) => match unwrap_key(b.as_slice(), master_key) {
                Some(k) => KeyState::Loaded(k),
                None => KeyState::Generating,
            },
            None => KeyState::Generating,
        }
    }

    /// While generating: draw a fresh data key and wrap it for persisting.
    pub fn generate_wrapped(master_key: &SecretKey) -> (r: (SecretKey, Vec<u8>))
        requires
            master_key.wf(),
        ensures
            r.0.wf(),
            is_sealed_blob(r.1@, r.0@, master_key@),
    {
        let k = SecretKey::generate();
        let blob = wrap_key(&k, master_key);
        (k, blob)
    }

    /// Resolve the outcome of writing the wrapped key: success moves to
    /// `Loaded` with the generated key, failure to the terminal `Failed`
    /// (reported, not retried).
    pub fn on_write_result(self, key: SecretKey, write_ok: bool) -> (r: KeyState)
        requires
            self is Generating,
            key.wf(),
        ensures
            r.wf(),
            write_ok ==> (r matches KeyState::Loaded(k) && k@ == key@),
            !write_ok ==> r is Failed,
    {
        if write_ok {
            KeyState::Loaded(key)
        } else {
            KeyState::Failed
        }
    }

    /// The data key, once loaded.
    pub fn data_key(&self) -> (r: Option<&SecretKey>)
        ensures
            match r {
                Some(k) => self matches KeyState::Loaded(l) && k@ == l@,
                None => !(self is Loaded),
            },
    {
        match self {
            KeyState::Loaded(k) => Some(k),
            _ => None,
        }
    }
}

} // verus!
