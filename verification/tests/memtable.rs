//! The memtable.

use lsm_storage_engine::memtable::Memtable;

#[test]
fn put_get_and_delete() {
    let mut m = Memtable::new();
    assert!(m.is_empty());
    assert_eq!(m.get(b"k"), None);
    m.put(b"k".to_vec(), b"v".to_vec());
    assert_eq!(m.get(b"k"), Some(&Some(b"v".to_vec())));
    m.put(b"k".to_vec(), b"w".to_vec());
    assert_eq!(m.get(b"k"), Some(&Some(b"w".to_vec())));
    m.delete(b"k".to_vec());
    assert_eq!(m.get(b"k"), Some(&None));
    assert_eq!(m.len(), 1);
    assert!(!m.is_empty());
    m.clear();
    assert!(m.is_empty());
    assert_eq!(m.get(b"k"), None);
}

#[test]
fn size_counts_the_keys_and_values_of_live_entries() {
    let mut m = Memtable::default();
    assert_eq!(m.approx_size_bytes(), 0);
    m.put(b"key".to_vec(), b"value".to_vec());
    assert_eq!(m.approx_size_bytes(), 8);
    m.put(b"key".to_vec(), b"v".to_vec());
    assert_eq!(m.approx_size_bytes(), 4);
    m.delete(b"key".to_vec());
    assert_eq!(m.approx_size_bytes(), 0);
    m.delete(b"key".to_vec());
    assert_eq!(m.approx_size_bytes(), 0);
    m.delete(b"other".to_vec());
    assert_eq!(m.approx_size_bytes(), 0);
    assert_eq!(m.len(), 2);
    m.put(b"key".to_vec(), b"value".to_vec());
    assert_eq!(m.approx_size_bytes(), 8);
    m.clear();
    assert_eq!(m.approx_size_bytes(), 0);
}

#[test]
fn a_deleted_key_does_not_count() {
    let mut m = Memtable::new();
    m.put(b"ab".to_vec(), b"xyz".to_vec());
    m.put(b"k".to_vec(), b"v".to_vec());
    m.delete(b"k".to_vec());
    assert_eq!(m.approx_size_bytes(), 5);
}

#[test]
fn entries_come_in_key_order() {
    let mut m = Memtable::new();
    for k in ["b", "", "ab", "a", "ba", "aa"] {
        m.put(k.as_bytes().to_vec(), b"1".to_vec());
    }
    m.delete(b"aa".to_vec());
    let keys: Vec<Vec<u8>> = m.iter_sorted().iter().map(|(k, _)| k.to_vec()).collect();
    let expected: Vec<Vec<u8>> = ["", "a", "aa", "ab", "b", "ba"]
        .iter()
        .map(|k| k.as_bytes().to_vec())
        .collect();
    assert_eq!(keys, expected);
    assert_eq!(m.iter_sorted()[2].1, &None);
    assert_eq!(m.iter_sorted()[3].1, &Some(b"1".to_vec()));
}
