use thordb::lsm::memtable::MemTable;
use thordb::lsm::types::{Key, Value};

#[test]
fn test_put_and_get() {
    let mut mem = MemTable::new();
    mem.put(Key::from("key1"), Value::from("value1"));
    mem.put(Key::from("key2"), Value::from("value2"));

    assert_eq!(
        mem.get(&Key::from("key1")).unwrap().unwrap().as_bytes(),
        b"value1"
    );
    assert_eq!(
        mem.get(&Key::from("key2")).unwrap().unwrap().as_bytes(),
        b"value2"
    );
    assert!(mem.get(&Key::from("key3")).is_none());
}

#[test]
fn memtable_test_overwrite() {
    let mut mem = MemTable::new();
    mem.put(Key::from("key"), Value::from("v1"));
    mem.put(Key::from("key"), Value::from("v2"));

    // Latest value should be returned
    assert_eq!(
        mem.get(&Key::from("key")).unwrap().unwrap().as_bytes(),
        b"v2"
    );

    // Both values should be accessible via get_all
    let all = mem.get_all(&Key::from("key"));
    assert_eq!(all.len(), 2);
    assert_eq!(all[0].1.unwrap().as_bytes(), b"v2"); // newer first
    assert_eq!(all[1].1.unwrap().as_bytes(), b"v1");
}

#[test]
fn memtable_test_delete() {
    let mut mem = MemTable::new();
    mem.put(Key::from("key"), Value::from("value"));
    mem.delete(Key::from("key"));

    // Get should return tombstone
    assert!(mem.get(&Key::from("key")).unwrap().is_none());
}

#[test]
fn test_iter_order() {
    let mut mem = MemTable::new();
    mem.put(Key::from("c"), Value::from("3"));
    mem.put(Key::from("a"), Value::from("1"));
    mem.put(Key::from("b"), Value::from("2"));

    let keys: Vec<_> = mem.iter().into_iter().map(|e| e.key.0.clone()).collect();
    assert_eq!(keys, vec![b"a".to_vec(), b"b".to_vec(), b"c".to_vec()]);
}

#[test]
fn test_duplicate_keys_ordering() {
    let mut mem = MemTable::new();
    let seq1 = mem.put(Key::from("key"), Value::from("first"));
    let seq2 = mem.put(Key::from("key"), Value::from("second"));

    assert!(seq2 > seq1);

    // Iteration should return same key twice, newer first
    let entries: Vec<_> = mem.iter();
    assert_eq!(entries.len(), 2);
    assert_eq!(entries[0].seq_num, seq2);
    assert_eq!(entries[1].seq_num, seq1);
}

#[test]
fn memtable_counters() {
    let mut mem = MemTable::new();
    assert!(mem.is_empty());
    assert_eq!(mem.len(), 0);
    assert_eq!(mem.size_bytes(), 0);
    assert_eq!(mem.current_seq_num(), 1);
    assert_eq!(mem.put(Key::from("ab"), Value::from("cde")), 1);
    assert_eq!(mem.size_bytes(), 2 + 3 + 24);
    assert_eq!(mem.delete(Key::from("ab")), 2);
    assert_eq!(mem.size_bytes(), 2 + 3 + 24 + 2 + 24);
    assert_eq!(mem.len(), 2);
    assert_eq!(mem.current_seq_num(), 3);
    mem.clear();
    assert!(mem.is_empty());
    assert_eq!(mem.size_bytes(), 0);
    assert_eq!(mem.current_seq_num(), 3);
    let other = MemTable::with_seq_num(77);
    assert_eq!(other.current_seq_num(), 77);
    let fresh = MemTable::default();
    assert_eq!(fresh.current_seq_num(), 1);
}

#[test]
fn memtable_put_with_seq_replaces_same_version() {
    let mut mem = MemTable::new();
    mem.put_with_seq(Key::from("k"), Value::from("a"), 5);
    mem.put_with_seq(Key::from("k"), Value::from("b"), 5);
    mem.delete_with_seq(Key::from("k"), 3);
    mem.put_with_seq(Key::from("j"), Value::from("c"), 9);
    assert_eq!(mem.len(), 3);
    assert_eq!(mem.current_seq_num(), 1);
    let all = mem.get_all(&Key::from("k"));
    assert_eq!(all.len(), 2);
    assert_eq!(all[0].0, 5);
    assert_eq!(all[0].1.unwrap().as_bytes(), b"b");
    assert_eq!(all[1].0, 3);
    assert!(all[1].1.is_none());
    let order: Vec<(Vec<u8>, u64)> = mem
        .iter()
        .into_iter()
        .map(|e| (e.key.0.clone(), e.seq_num))
        .collect();
    assert_eq!(
        order,
        vec![(b"j".to_vec(), 9), (b"k".to_vec(), 5), (b"k".to_vec(), 3)]
    );
}

#[test]
fn memtable_counter_goes_up_to_the_largest_number() {
    let mut mem = MemTable::with_seq_num(u64::MAX - 2);
    assert_eq!(mem.put(Key::from("k"), Value::from("v")), u64::MAX - 2);
    assert_eq!(mem.delete(Key::from("k")), u64::MAX - 1);
    assert_eq!(mem.current_seq_num(), u64::MAX);
    assert_eq!(mem.len(), 2);
}
