use balances::block::output_key;
use balances::index::{UnspentEntry, UnspentIndex};

fn entry(address: &str, value: u64, height: u64) -> UnspentEntry {
    UnspentEntry { address: address.to_string(), value, height }
}

#[test]
fn insert_then_remove_round_trip() {
    let mut idx = UnspentIndex::new();
    assert_eq!(idx.len(), 0);
    let key = output_key(&vec![0xaa, 0xbb], 0);
    assert!(idx.insert(key.clone(), entry("A", 42, 7)).is_none());
    assert_eq!(idx.len(), 1);
    let removed = idx.remove(&key).expect("entry is live");
    assert_eq!(removed.address, "A");
    assert_eq!(removed.value, 42);
    assert_eq!(removed.height, 7);
    assert_eq!(idx.len(), 0);
}

#[test]
fn removing_an_absent_key_changes_nothing() {
    let mut idx = UnspentIndex::new();
    let key = output_key(&vec![1, 2, 3], 5);
    idx.insert(key.clone(), entry("A", 10, 0));
    let other = output_key(&vec![1, 2, 3], 6);
    assert!(idx.remove(&other).is_none());
    assert_eq!(idx.len(), 1);
}

#[test]
fn reinsertion_is_a_silent_overwrite() {
    let mut idx = UnspentIndex::new();
    let key = output_key(&vec![9], 1);
    assert!(idx.insert(key.clone(), entry("A", 10, 0)).is_none());
    let replaced = idx.insert(key.clone(), entry("B", 20, 1)).expect("overwrites");
    assert_eq!(replaced.address, "A");
    assert_eq!(replaced.value, 10);
    assert_eq!(idx.len(), 1);
    let current = idx.remove(&key).expect("entry is live");
    assert_eq!(current.address, "B");
    assert_eq!(current.value, 20);
}

#[test]
fn output_keys_distinguish_indexes_of_one_transaction() {
    let txid = vec![0xde, 0xad, 0xbe, 0xef];
    let k0 = output_key(&txid, 0);
    let k1 = output_key(&txid, 1);
    assert_ne!(k0, k1);
    assert_eq!(k0, vec![0xde, 0xad, 0xbe, 0xef, 0, 0, 0, 0]);
    assert_eq!(k1, vec![0xde, 0xad, 0xbe, 0xef, 1, 0, 0, 0]);
    // The index bytes are little-endian.
    let k = output_key(&txid, 0x0102_0304);
    assert_eq!(k, vec![0xde, 0xad, 0xbe, 0xef, 4, 3, 2, 1]);
}
