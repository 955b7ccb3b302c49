use rusty_vault::crypto::{init_crypto, SecretKey};
use rusty_vault::keys::{unwrap_key, wrap_key, KeyState};
use rusty_vault::persist::StoragePersistance;
use rusty_vault::store::AppState;
use rusty_vault::vault::Node;

fn sample_store() -> AppState {
    let mut store = AppState::new();
    let mut vault = Node::new("finance".to_string()).unwrap();
    vault.store("password".to_string(), "p@ss".to_string());
    vault.store("login".to_string(), "email".to_string());
    vault.store("Schlüssel".to_string(), "значение 🔑".to_string());
    let replicas = vault.replicate(2);
    store.add_vault(vault);
    store.add_replicas(&replicas);
    store.add_vault(Node::new("personal".to_string()).unwrap());
    store
}

fn assert_same_nodes(a: &[Node], b: &[Node]) {
    assert_eq!(a.len(), b.len());
    for (x, y) in a.iter().zip(b.iter()) {
        assert_eq!(x.name(), y.name());
        assert_eq!(x.id(), y.id());
        assert_eq!(x.entries(), y.entries());
        assert_eq!(x.status(), y.status());
    }
}

#[test]
fn serialize_deserialize_round_trip() {
    let store = sample_store();
    let bytes = StoragePersistance::serialize_state(&store);
    let back = StoragePersistance::deserialize_state(&bytes).expect("own encoding must decode");
    assert_same_nodes(&store.list_vaults(), &back.list_vaults());
    assert_same_nodes(&store.list_replicas(), &back.list_replicas());
}

#[test]
fn serialize_deserialize_empty_store() {
    let store = AppState::new();
    let bytes = StoragePersistance::serialize_state(&store);
    let back = StoragePersistance::deserialize_state(&bytes).expect("own encoding must decode");
    assert!(back.list_vaults().is_empty());
    assert!(back.list_replicas().is_empty());
}

#[test]
fn deserialize_rejects_malformed_bytes() {
    assert!(StoragePersistance::deserialize_state(&[]).is_none());
    assert!(StoragePersistance::deserialize_state(&[1, 2, 3]).is_none());
    let store = sample_store();
    let bytes = StoragePersistance::serialize_state(&store);
    let mut trailing = bytes.clone();
    trailing.push(0);
    assert!(StoragePersistance::deserialize_state(&trailing).is_none());
}

#[test]
fn save_load_round_trip() {
    init_crypto();
    let key = SecretKey::generate();
    let store = sample_store();
    let blob = StoragePersistance::save_data_encrypted(&store, &key).expect("snapshot fits");
    let back = StoragePersistance::load_data_encrypted(&blob, &key).expect("own blob must load");
    assert_same_nodes(&store.list_vaults(), &back.list_vaults());
    assert_same_nodes(&store.list_replicas(), &back.list_replicas());
}

#[test]
fn load_missing_snapshot_falls_back_to_empty_store() {
    init_crypto();
    let key = SecretKey::generate();
    let loaded = StoragePersistance::load_data_encrypted(&[], &key);
    assert!(loaded.is_none());
    let fallback = loaded.unwrap_or_else(AppState::new);
    assert!(fallback.list_vaults().is_empty());
    assert!(fallback.list_replicas().is_empty());
}

#[test]
fn corrupting_one_byte_makes_load_absent() {
    init_crypto();
    let key = SecretKey::generate();
    let store = sample_store();
    let blob = StoragePersistance::save_data_encrypted(&store, &key).unwrap();
    let mut tampered = blob.clone();
    let middle = tampered.len() / 2;
    tampered[middle] ^= 0x40;
    assert!(StoragePersistance::load_data_encrypted(&tampered, &key).is_none());
}

#[test]
fn load_with_wrong_key_is_absent() {
    init_crypto();
    let store = sample_store();
    let k1 = SecretKey::from_bytes(vec![1u8; 32]).unwrap();
    let k2 = SecretKey::from_bytes(vec![2u8; 32]).unwrap();
    let blob = StoragePersistance::save_data_encrypted(&store, &k1).unwrap();
    assert!(StoragePersistance::load_data_encrypted(&blob, &k2).is_none());
}

#[test]
fn wrap_unwrap_key_round_trip() {
    init_crypto();
    let master = SecretKey::generate();
    let data_key = SecretKey::generate();
    let blob = wrap_key(&data_key, &master);
    assert_eq!(blob.len(), 32 + 24 + 16);
    let back = unwrap_key(&blob, &master).expect("own wrapping must unwrap");
    assert_eq!(back.as_bytes(), data_key.as_bytes());
}

#[test]
fn unwrap_under_wrong_master_is_absent() {
    init_crypto();
    let m1 = SecretKey::from_bytes(vec![3u8; 32]).unwrap();
    let m2 = SecretKey::from_bytes(vec![4u8; 32]).unwrap();
    let data_key = SecretKey::generate();
    let blob = wrap_key(&data_key, &m1);
    assert!(unwrap_key(&blob, &m2).is_none());
}

#[test]
fn key_lifecycle_loads_existing_wrapped_key() {
    init_crypto();
    let master = SecretKey::generate();
    let data_key = SecretKey::generate();
    let blob = wrap_key(&data_key, &master);
    let state = KeyState::Uninitialized.on_load_attempt(Some(blob), &master);
    let held = state.data_key().expect("state must be loaded");
    assert_eq!(held.as_bytes(), data_key.as_bytes());
}

#[test]
fn key_lifecycle_generates_when_nothing_loads() {
    init_crypto();
    let master = SecretKey::generate();
    let state = KeyState::Uninitialized.on_load_attempt(None, &master);
    assert!(state.data_key().is_none());
    let (fresh, wrapped) = KeyState::generate_wrapped(&master);
    let after_write = state.on_write_result(fresh, true);
    let held = after_write.data_key().expect("state must be loaded after a good write");
    let unwrapped = unwrap_key(&wrapped, &master).unwrap();
    assert_eq!(unwrapped.as_bytes(), held.as_bytes());
}

#[test]
fn key_lifecycle_fails_when_write_fails() {
    init_crypto();
    let master = SecretKey::generate();
    let garbage = vec![0u8; 10];
    let state = KeyState::Uninitialized.on_load_attempt(Some(garbage), &master);
    assert!(state.data_key().is_none());
    let (fresh, _wrapped) = KeyState::generate_wrapped(&master);
    let after_write = state.on_write_result(fresh, false);
    assert!(after_write.data_key().is_none());
}
