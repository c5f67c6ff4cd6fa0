use thordb::lsm::iterator::{LatestVersionIterator, LiveEntriesIterator, MergeIterator};
use thordb::lsm::types::{Entry, Key, Value};

#[test]
fn test_merge_iterator_basic() {
    let source1 = vec![
        Entry::put(Key::from("a"), 1, Value::from("v1")),
        Entry::put(Key::from("c"), 3, Value::from("v3")),
    ];
    let source2 = vec![
        Entry::put(Key::from("b"), 2, Value::from("v2")),
        Entry::put(Key::from("d"), 4, Value::from("v4")),
    ];

    let merged: Vec<_> = MergeIterator::new(vec![source1, source2]).collect();

    let keys: Vec<_> = merged.iter().map(|e| e.key.as_bytes()).collect();
    assert_eq!(keys, vec![b"a", b"b", b"c", b"d"]);
}

#[test]
fn test_merge_iterator_duplicates() {
    let source1 = vec![Entry::put(Key::from("key"), 1, Value::from("old"))];
    let source2 = vec![Entry::put(Key::from("key"), 2, Value::from("new"))];

    let merged: Vec<_> = MergeIterator::new(vec![source1, source2]).collect();

    // Both entries should be present, newer first
    assert_eq!(merged.len(), 2);
    assert_eq!(merged[0].seq_num, 2);
    assert_eq!(merged[1].seq_num, 1);
}

#[test]
fn test_latest_version_iterator() {
    let entries = vec![
        Entry::put(Key::from("a"), 2, Value::from("new")),
        Entry::put(Key::from("a"), 1, Value::from("old")),
        Entry::put(Key::from("b"), 3, Value::from("val")),
    ];

    let latest: Vec<_> = LatestVersionIterator::new(entries).collect();

    assert_eq!(latest.len(), 2);
    assert_eq!(latest[0].key.as_bytes(), b"a");
    assert_eq!(latest[0].seq_num, 2);
    assert_eq!(latest[1].key.as_bytes(), b"b");
}

#[test]
fn test_live_entries_iterator() {
    let entries = vec![
        Entry::put(Key::from("a"), 1, Value::from("val")),
        Entry::delete(Key::from("b"), 2),
        Entry::put(Key::from("c"), 3, Value::from("val")),
    ];

    let live: Vec<_> = LiveEntriesIterator::new(entries).collect();

    assert_eq!(live.len(), 2);
    assert_eq!(live[0].key.as_bytes(), b"a");
    assert_eq!(live[1].key.as_bytes(), b"c");
}

#[test]
fn merge_takes_the_earlier_stream_first_on_ties() {
    let source1 = vec![Entry::put(Key::from("k"), 5, Value::from("first"))];
    let source2 = vec![Entry::put(Key::from("k"), 5, Value::from("second"))];
    let mut merge = MergeIterator::new(vec![source1, source2, Vec::new()]);
    assert_eq!(merge.next().unwrap().value.unwrap().as_bytes(), b"first");
    assert_eq!(merge.next().unwrap().value.unwrap().as_bytes(), b"second");
    assert!(merge.next().is_none());
    assert!(merge.next().is_none());
    assert!(MergeIterator::new(Vec::new()).collect().is_empty());
}

#[test]
fn filters_one_entry_at_a_time() {
    let entries = vec![
        Entry::delete(Key::from("a"), 4),
        Entry::put(Key::from("a"), 3, Value::from("x")),
        Entry::put(Key::from("b"), 2, Value::from("y")),
    ];
    let mut latest = LatestVersionIterator::new(entries);
    let first = latest.next().unwrap();
    assert_eq!(first.seq_num, 4);
    assert!(first.is_tombstone());
    assert_eq!(latest.next().unwrap().seq_num, 2);
    assert!(latest.next().is_none());

    let entries = vec![
        Entry::delete(Key::from("a"), 4),
        Entry::put(Key::from("b"), 2, Value::from("y")),
        Entry::delete(Key::from("c"), 1),
    ];
    let mut live = LiveEntriesIterator::new(entries);
    assert_eq!(live.next().unwrap().key.as_bytes(), b"b");
    assert!(live.next().is_none());
}
