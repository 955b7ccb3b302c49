use rusty_vault::store::AppState;
use rusty_vault::vault::Node;

#[test]
fn new_store_is_empty() {
    let store = AppState::new();
    assert!(store.list_vaults().is_empty());
    assert!(store.list_replicas().is_empty());
}

#[test]
fn create_vault_without_replicas() {
    let mut store = AppState::new();
    let vault = Node::new("finance".to_string()).unwrap();
    let replicas = vault.replicate(0);
    store.add_vault(vault);
    store.add_replicas(&replicas);
    assert_eq!(store.list_vaults().len(), 1);
    assert_eq!(store.list_replicas().len(), 0);
    assert_eq!(store.list_vaults()[0].name(), "finance");
}

#[test]
fn create_vault_with_two_replicas() {
    let mut store = AppState::new();
    let vault = Node::new("finance".to_string()).unwrap();
    let source_id = vault.id().clone();
    let replicas = vault.replicate(2);
    store.add_vault(vault);
    store.add_replicas(&replicas);
    let listed = store.list_replicas();
    assert_eq!(listed.len(), 2);
    assert_eq!(listed[0].name(), "finance");
    assert_eq!(listed[1].name(), "finance");
    assert_ne!(listed[0].id(), listed[1].id());
    assert_ne!(listed[0].id(), &source_id);
    assert_ne!(listed[1].id(), &source_id);
}

#[test]
fn listings_preserve_insertion_order() {
    let mut store = AppState::new();
    for name in ["first", "second", "third"] {
        store.add_vault(Node::new(name.to_string()).unwrap());
    }
    let listed = store.list_vaults();
    assert_eq!(listed.len(), 3);
    assert_eq!(listed[0].name(), "first");
    assert_eq!(listed[1].name(), "second");
    assert_eq!(listed[2].name(), "third");
}

#[test]
fn listings_are_snapshots_not_views() {
    let mut store = AppState::new();
    store.add_vault(Node::new("one".to_string()).unwrap());
    let snapshot = store.list_vaults();
    store.add_vault(Node::new("two".to_string()).unwrap());
    assert_eq!(snapshot.len(), 1);
    assert_eq!(store.list_vaults().len(), 2);
}
