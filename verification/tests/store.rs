use merkle_log::{KeyValueStore, LocalKeyValueStore};

#[test]
fn local_store_put_then_get() {
    let mut store = LocalKeyValueStore::new();
    assert!(store.get(5).is_none());
    store.put(5, &[1u8, 2, 3]);
    assert_eq!(store.get(5), Some(&vec![1u8, 2, 3]));
    assert!(store.get(4).is_none());
}

#[test]
fn local_store_put_overwrites() {
    let mut store = LocalKeyValueStore::new();
    store.put(9, &[0u8; 32]);
    store.put(9, &[7u8; 32]);
    assert_eq!(store.get(9), Some(&vec![7u8; 32]));
}
