use vstd::prelude::*;

verus! {

use crate::codec::{
    dec_state, decode_state, enc_state, encode_state, lemma_dec_enc_state, state_fits,
};
use crate::crypto::{decrypt_model, is_sealed_blob, Encryption, SecretKey};
use crate::store::{wf_state, AppState, StateView};
use crate::{MAC_LEN, NONCE_LEN};

/// What loading yields for a snapshot blob under a key: nothing when
/// decryption fails, otherwise whatever the decoded plaintext denotes.
pub open spec fn load_model(blob: Seq<u8>, k: Seq<u8>) -> Option<StateView> {
    match decrypt_model(blob, k) {
        Some(bytes) => dec_state(bytes),
        None => None,
    }
}

/// Turns store snapshots into encrypted byte blobs and back; the caller owns
/// the file that the blobs are read from and written to.
pub struct StoragePersistance {}

impl StoragePersistance {
    /// Serialize a store snapshot into its canonical byte encoding.
    pub fn serialize_state(state: &AppState) -> (r: Vec<u8>)
        ensures
            r@ == enc_state(state@),
            state_fits(state@),
    {
        encode_state(state)
    }

    /// Deserialize canonical bytes back into a store snapshot; yields nothing
    /// on malformed bytes. Every vault of a decoded store is well-formed.
    pub fn deserialize_state(data: &[u8]) -> (r: Option<AppState>)
        ensures
            match r {
                Some(st) => dec_state(data@) == Some(st@) && st.wf(),
                None => dec_state(data@) is None,
            },
    {
        decode_state(data)
    }

    /// Serialize and encrypt the current snapshot, yielding the blob to be
    /// written over the snapshot file. Yields nothing only when the encoding
    /// would not leave room for the nonce and tag in one allocation.
    pub fn save_data_encrypted(state: &AppState, key: &SecretKey) -> (r: Option<Vec<u8>>)
        requires
            key.wf(),
        ensures
            match r {
                Some(blob) => is_sealed_blob(blob@, enc_state(state@), key@) && state_fits(state@)
                    && blob@.len() == enc_state(state@).len() + NONCE_LEN + MAC_LEN,
                None => enc_state(state@).len() + NONCE_LEN + MAC_LEN > usize::MAX,
            },
    {
        let encoded = Self::serialize_state(state);
        if encoded.len() <= usize::MAX - NONCE_LEN - MAC_LEN {
            Some(Encryption::encrypt(encoded.as_slice(), key))
        } else {
            None
        }
    }

    /// Decrypt and decode a snapshot blob. Yields nothing when the blob does
    /// not authenticate under the key, or its plaintext is malformed; callers
    /// treat that as "no prior state" and fall back to an empty store.
    pub fn load_data_encrypted(blob: &[u8], key: &SecretKey) -> (r: Option<AppState>)
        requires
            key.wf(),
        ensures
            match r {
                Some(st) => load_model(blob@, key@) == Some(st@) && st.wf(),
                None => load_model(blob@, key@) is None,
            },
    {
        match Encryption::decrypt(blob, key) {
            Some(bytes) => Self::deserialize_state(bytes.as_slice()),
            None => None,
        }
    }
}

/// Law: persistence round-trips. Any well-formed encryption of a well-formed
/// snapshot's canonical encoding loads back to exactly that snapshot under
/// the same key.
pub proof fn lemma_save_load_roundtrip(blob: Seq<u8>, s: StateView, k: Seq<u8>)
    requires
        wf_state(s),
        state_fits(s),
        is_sealed_blob(blob, enc_state(s), k),
    ensures
        load_model(blob, k) == Some(s),
{
    lemma_dec_enc_state(s);
}

} // verus!
