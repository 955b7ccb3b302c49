use rusty_vault::vault::Node;

#[test]
fn new_vault_echoes_name_and_starts_empty() {
    let vault = Node::new("finance".to_string()).expect("creation succeeds");
    assert_eq!(vault.name(), "finance");
    assert!(vault.entries().is_empty());
    assert!(vault.status());
    assert!(!vault.id().is_empty());
}

#[test]
fn store_then_retrieve() {
    let mut vault = Node::new("finance".to_string()).unwrap();
    let msg = vault.store("password".to_string(), "p@ss".to_string());
    assert_eq!(msg, "created entry with key: password");
    assert_eq!(vault.retrieve("password".to_string()), Some(&"p@ss".to_string()));
    assert_eq!(vault.retrieve("missing".to_string()), None);
}

#[test]
fn store_overwrites_last_write_wins() {
    let mut vault = Node::new("finance".to_string()).unwrap();
    vault.store("k".to_string(), "first".to_string());
    vault.store("k".to_string(), "second".to_string());
    assert_eq!(vault.retrieve("k".to_string()), Some(&"second".to_string()));
    assert_eq!(vault.entries().len(), 1);
}

#[test]
fn update_changes_value_and_returns_it() {
    let mut vault = Node::new("finance".to_string()).unwrap();
    vault.store("password".to_string(), "p@ss".to_string());
    let updated = vault.update("password".to_string(), "newpass".to_string());
    assert_eq!(updated, Some("newpass".to_string()));
    assert_eq!(vault.retrieve("password".to_string()), Some(&"newpass".to_string()));
}

#[test]
fn update_twice_is_idempotent() {
    let mut vault = Node::new("finance".to_string()).unwrap();
    vault.store("k".to_string(), "old".to_string());
    let first = vault.update("k".to_string(), "x".to_string());
    assert_eq!(first, Some("x".to_string()));
    assert_eq!(vault.retrieve("k".to_string()), Some(&"x".to_string()));
    let second = vault.update("k".to_string(), "x".to_string());
    assert_eq!(second, Some("x".to_string()));
    assert_eq!(vault.retrieve("k".to_string()), Some(&"x".to_string()));
    assert_eq!(vault.entries().len(), 1);
}

#[test]
fn update_absent_key_inserts_it() {
    let mut vault = Node::new("finance".to_string()).unwrap();
    let updated = vault.update("fresh".to_string(), "value".to_string());
    assert_eq!(updated, Some("value".to_string()));
    assert_eq!(vault.retrieve("fresh".to_string()), Some(&"value".to_string()));
}

#[test]
fn replicate_zero_yields_empty_set() {
    let vault = Node::new("finance".to_string()).unwrap();
    assert!(vault.replicate(0).is_empty());
}

#[test]
fn replicas_share_data_but_not_identifiers() {
    let mut vault = Node::new("finance".to_string()).unwrap();
    vault.store("login".to_string(), "email".to_string());
    vault.store("password".to_string(), "p@ss".to_string());
    let replicas = vault.replicate(3);
    assert_eq!(replicas.len(), 3);
    for replica in &replicas {
        assert_eq!(replica.name(), vault.name());
        assert_eq!(replica.entries(), vault.entries());
        assert!(replica.status());
        assert_ne!(replica.id(), vault.id());
    }
    for i in 0..replicas.len() {
        for j in (i + 1)..replicas.len() {
            assert_ne!(replicas[i].id(), replicas[j].id());
        }
    }
}

#[test]
fn replicas_are_deep_copies_taken_at_call_time() {
    let mut vault = Node::new("finance".to_string()).unwrap();
    vault.store("k".to_string(), "before".to_string());
    let replicas = vault.replicate(1);
    vault.store("k".to_string(), "after".to_string());
    assert_eq!(replicas[0].retrieve("k".to_string()), Some(&"before".to_string()));
    assert_eq!(vault.retrieve("k".to_string()), Some(&"after".to_string()));
}

#[test]
fn vault_identifiers_are_fresh_per_creation() {
    let v1 = Node::new("same-name".to_string()).unwrap();
    let v2 = Node::new("same-name".to_string()).unwrap();
    assert_eq!(v1.name(), v2.name());
    assert_ne!(v1.id(), v2.id());
}
