use vstd::prelude::*;

verus! {

/// The typed failures of the vault engine.
///
/// Recoverable conditions (an absent lookup, no prior snapshot) are not
/// errors; only integrity and availability conditions are surfaced here.
#[derive(Debug, Clone, Copy, PartialEq, Eq, Structural)]
pub enum VaultError {
    /// Vault construction failed its post-construction validation.
    CreationFailed,
    /// A shared-store lock was left inconsistent by an aborted holder.
    LockPoisoned,
    /// No data key could be loaded or generated; fatal to startup.
    KeyUnavailable,
    /// A file read or write failed during save or load.
    PersistenceIOFailure,
}

impl VaultError {
    /// A human-readable description of the failure.
    pub fn message(&self) -> (r: String)
        ensures
            r@ == match self {
                VaultError::CreationFailed => "vault creation failed validation"@,
                VaultError::LockPoisoned => "a shared-store lock was poisoned"@,
                VaultError::KeyUnavailable => "no usable data key could be loaded or generated"@,
                VaultError::PersistenceIOFailure => "a persistence file operation failed"@,
            },
    {
        match self {
            VaultError::CreationFailed => "vault creation failed validation".to_owned(),
            VaultError::LockPoisoned => "a shared-store lock was poisoned".to_owned(),
            VaultError::KeyUnavailable => "no usable data key could be loaded or generated".to_owned(),
            VaultError::PersistenceIOFailure => "a persistence file operation failed".to_owned(),
        }
    }
}

} // verus!
