use rusty_vault::docs::docs;
use rusty_vault::errors::VaultError;

#[test]
fn docs_describe_the_endpoints() {
    let text = docs();
    assert!(text.contains("/api/v1/docs"));
    assert!(text.contains("/api/v1/vault/create"));
    assert!(text.contains("/api/v1/vault/list"));
    assert!(text.contains("/api/v1/vault/replicas"));
}

#[test]
fn error_messages_name_each_failure() {
    assert_eq!(VaultError::CreationFailed.message(), "vault creation failed validation");
    assert_eq!(VaultError::LockPoisoned.message(), "a shared-store lock was poisoned");
    assert_eq!(
        VaultError::KeyUnavailable.message(),
        "no usable data key could be loaded or generated"
    );
    assert_eq!(
        VaultError::PersistenceIOFailure.message(),
        "a persistence file operation failed"
    );
    assert_eq!(VaultError::LockPoisoned, VaultError::LockPoisoned);
    assert_ne!(VaultError::LockPoisoned, VaultError::KeyUnavailable);
}
