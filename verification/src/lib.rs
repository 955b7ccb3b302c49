use vstd::prelude::*;

pub mod codec;
pub mod crypto;
pub mod docs;
pub mod errors;
pub mod keys;
pub mod persist;
pub mod store;
pub mod vault;

verus! {

/// Number of bytes of the nonce that every encrypted blob begins with.
pub const NONCE_LEN: usize = 24;

/// Number of bytes of a symmetric key.
pub const KEY_LEN: usize = 32;

/// Number of authentication-tag bytes that sealing appends to a payload.
pub const MAC_LEN: usize = 16;

} // verus!
