//! The content-addressable object store: storing, loading, idempotence.

use cogit::cogit::CogitRepository;
use cogit::errors::CogitError;
use cogit::objects::ObjectStore;

#[test]
fn store_then_load_returns_content() {
    let mut store = ObjectStore::empty();
    let content = b"some file content".to_vec();
    let hash = store.store(content.clone()).unwrap();
    let loaded = store.load(&hash).unwrap();
    assert_eq!(loaded, content);
}

#[test]
fn store_empty_bytes_round_trip() {
    let mut store = ObjectStore::empty();
    let hash = store.store(Vec::new()).unwrap();
    assert_eq!(store.load(&hash).unwrap(), Vec::<u8>::new());
}

#[test]
fn store_twice_returns_same_hash_without_duplicate() {
    let mut store = ObjectStore::empty();
    let h1 = store.store(b"hello".to_vec()).unwrap();
    let h2 = store.store(b"hello".to_vec()).unwrap();
    assert_eq!(h1, h2);
    assert_eq!(store.count(), 1);
}

#[test]
fn distinct_contents_get_distinct_entries() {
    let mut store = ObjectStore::empty();
    let h1 = store.store(b"one".to_vec()).unwrap();
    let h2 = store.store(b"two".to_vec()).unwrap();
    assert_ne!(h1, h2);
    assert_eq!(store.count(), 2);
}

#[test]
fn load_missing_hash_fails() {
    let store = ObjectStore::empty();
    let err = store.load(&"0123456789abcdef".to_string()).unwrap_err();
    assert_eq!(err, CogitError::InvalidHash);
}

#[test]
fn calculate_hash_known_digest() {
    // The SHA-256 digest of "hello", as any other tool reports it.
    let h = CogitRepository::calculate_hash(b"hello");
    assert_eq!(
        h,
        "2cf24dba5fb0a30e26e83b2ac5b9e29e1b161e5c1fa7425e73043362938b9824"
    );
}

#[test]
fn calculate_hash_empty_digest() {
    let h = CogitRepository::calculate_hash(b"");
    assert_eq!(
        h,
        "e3b0c44298fc1c149afbf4c8996fb92427ae41e4649b934ca495991b7852b855"
    );
}

#[test]
fn fan_out_splits_after_two_characters() {
    let (bucket, rest) = cogit::objects::fan_out("2cf24dba5fb0");
    assert_eq!(bucket, "2c");
    assert_eq!(rest, "f24dba5fb0");
}

#[test]
fn from_pairs_rejects_duplicate_hashes() {
    let mut store = ObjectStore::empty();
    store.store(b"x".to_vec()).unwrap();
    let items: Vec<_> = store
        .items()
        .iter()
        .map(|o| cogit::objects::StoredObject {
            hash: o.hash.clone(),
            data: o.data.clone(),
        })
        .collect();
    let mut doubled = Vec::new();
    for o in &items {
        doubled.push(cogit::objects::StoredObject {
            hash: o.hash.clone(),
            data: o.data.clone(),
        });
    }
    for o in items {
        doubled.push(o);
    }
    let err = ObjectStore::from_pairs(doubled).unwrap_err();
    assert_eq!(err, CogitError::InvalidHash);
}
