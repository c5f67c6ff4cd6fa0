use thordb::bufferpool::BufferPool;
use thordb::error::StoreError;
use thordb::lsm::sstable::{SSTableReader, SSTableWriter};
use thordb::lsm::types::{Entry, Key, Value};

#[test]
fn test_sstable_write_and_read() {
    let mut pool = BufferPool::new();
    let file_id = 1;

    // Write entries
    let entries = vec![
        Entry::put(Key::from("apple"), 1, Value::from("red")),
        Entry::put(Key::from("banana"), 2, Value::from("yellow")),
        Entry::put(Key::from("cherry"), 3, Value::from("red")),
    ];

    {
        let mut writer = SSTableWriter::new(&mut pool, file_id).unwrap();
        for entry in &entries {
            writer.write_entry(&mut pool, entry).unwrap();
        }
        let meta = writer.finish(&mut pool).unwrap();
        assert_eq!(meta.entry_count, 3);
    }

    // Read back
    {
        let reader = SSTableReader::open(&mut pool, file_id).unwrap();
        assert_eq!(reader.meta.entry_count, 3);

        // Point lookup
        let results = reader.get(&mut pool, &Key::from("banana")).unwrap();
        assert_eq!(results.len(), 1);
        assert_eq!(results[0].value.as_ref().unwrap().as_bytes(), b"yellow");

        // Iterate
        let all: Vec<_> = reader.iter().collect(&mut pool).unwrap();
        assert_eq!(all.len(), 3);
    }
}

#[test]
fn test_sstable_duplicate_keys() {
    let mut pool = BufferPool::new();
    let file_id = 1;

    // Write entries with duplicate keys (different seq_nums)
    let entries = vec![
        Entry::put(Key::from("key"), 1, Value::from("v1")),
        Entry::put(Key::from("key"), 2, Value::from("v2")),
        Entry::put(Key::from("key"), 3, Value::from("v3")),
    ];

    {
        let mut writer = SSTableWriter::new(&mut pool, file_id).unwrap();
        for entry in &entries {
            writer.write_entry(&mut pool, entry).unwrap();
        }
        writer.finish(&mut pool).unwrap();
    }

    // Read back - should get all 3 entries
    {
        let reader = SSTableReader::open(&mut pool, file_id).unwrap();
        let results = reader.get(&mut pool, &Key::from("key")).unwrap();
        assert_eq!(results.len(), 3);
    }
}

fn numbered(i: u32) -> Vec<u8> {
    format!("key{:05}", i).into_bytes()
}

#[test]
fn a_run_over_many_pages_reads_back_in_order() {
    let mut pool = BufferPool::new();
    let mut written = Vec::new();
    let mut writer = SSTableWriter::new(&mut pool, 9).unwrap();
    for i in 0..3000u32 {
        // Three versions of every third key, the newest first.
        let versions = if i % 3 == 0 { 3 } else { 1 };
        for v in 0..versions {
            let entry = Entry::put(
                Key::new(numbered(i)),
                (10 * i + (versions - v)) as u64,
                Value::new(vec![(i % 251) as u8; (i % 40) as usize]),
            );
            writer.write_entry(&mut pool, &entry).unwrap();
            written.push(entry);
        }
    }
    let tombstone = Entry::delete(Key::new(numbered(3000)), 5);
    writer.write_entry(&mut pool, &tombstone).unwrap();
    written.push(tombstone);
    let meta = writer.finish(&mut pool).unwrap();
    assert_eq!(meta.id, 9);
    assert_eq!(meta.entry_count, written.len() as u64);
    assert_eq!(meta.start_page, 1);
    assert!(meta.end_page > 10);
    assert_eq!(meta.min_key.as_bytes(), &numbered(0)[..]);
    assert_eq!(meta.max_key.as_bytes(), &numbered(3000)[..]);
    assert_eq!(meta.min_seq, 1);
    assert_eq!(meta.max_seq, 29991);

    let reader = SSTableReader::open(&mut pool, 9).unwrap();
    assert_eq!(reader.meta.entry_count, meta.entry_count);
    assert_eq!(reader.meta.end_page, meta.end_page);
    assert_eq!(reader.meta.min_key.as_bytes(), meta.min_key.as_bytes());
    assert_eq!(reader.meta.max_key.as_bytes(), meta.max_key.as_bytes());
    assert_eq!(reader.meta.min_seq, meta.min_seq);
    assert_eq!(reader.meta.max_seq, meta.max_seq);

    let all = reader.iter().collect(&mut pool).unwrap();
    assert_eq!(all.len(), written.len());
    for (got, want) in all.iter().zip(written.iter()) {
        assert_eq!(got.key.as_bytes(), want.key.as_bytes());
        assert_eq!(got.seq_num, want.seq_num);
        assert_eq!(got.value, want.value);
    }

    let mut cursor = reader.iter();
    let first = cursor.next(&mut pool).unwrap().unwrap();
    assert_eq!(first.seq_num, 3);

    for i in [0u32, 1, 2, 3, 1499, 1500, 2998, 2999] {
        let found = reader.get(&mut pool, &Key::new(numbered(i))).unwrap();
        let versions = if i % 3 == 0 { 3 } else { 1 };
        assert_eq!(found.len(), versions);
        for (v, entry) in found.iter().enumerate() {
            assert_eq!(entry.seq_num, (10 * i as usize + (versions - v)) as u64);
        }
    }
    let found = reader.get(&mut pool, &Key::new(numbered(3000))).unwrap();
    assert_eq!(found.len(), 1);
    assert!(found[0].is_tombstone());
    assert!(reader.get(&mut pool, &Key::from("key000005x")).unwrap().is_empty());
    assert!(reader.get(&mut pool, &Key::from("a")).unwrap().is_empty());
    assert!(reader.get(&mut pool, &Key::from("z")).unwrap().is_empty());
    assert!(reader.might_contain(&Key::new(numbered(17))));
    assert!(!reader.might_contain(&Key::from("a")));
    assert!(!reader.might_contain(&Key::from("z")));
}

#[test]
fn versions_of_one_key_across_pages() {
    let mut pool = BufferPool::new();
    let mut writer = SSTableWriter::new(&mut pool, 2).unwrap();
    writer
        .write_entry(&mut pool, &Entry::put(Key::from("a"), 1, Value::from("x")))
        .unwrap();
    for i in 0..20u64 {
        let entry = Entry::put(Key::from("k"), 100 - i, Value::new(vec![i as u8; 1000]));
        writer.write_entry(&mut pool, &entry).unwrap();
    }
    writer
        .write_entry(&mut pool, &Entry::put(Key::from("z"), 2, Value::from("y")))
        .unwrap();
    let meta = writer.finish(&mut pool).unwrap();
    assert!(meta.end_page >= 5);
    let reader = SSTableReader::open(&mut pool, 2).unwrap();
    let found = reader.get(&mut pool, &Key::from("k")).unwrap();
    assert_eq!(found.len(), 20);
    for (i, entry) in found.iter().enumerate() {
        assert_eq!(entry.seq_num, 100 - i as u64);
        assert_eq!(entry.value.as_ref().unwrap().as_bytes(), &vec![i as u8; 1000][..]);
    }
    assert_eq!(reader.get(&mut pool, &Key::from("z")).unwrap().len(), 1);
    assert_eq!(reader.get(&mut pool, &Key::from("a")).unwrap().len(), 1);
}

#[test]
fn an_empty_run() {
    let mut pool = BufferPool::new();
    let writer = SSTableWriter::new(&mut pool, 4).unwrap();
    let meta = writer.finish(&mut pool).unwrap();
    assert_eq!(meta.entry_count, 0);
    assert_eq!(meta.start_page, 1);
    assert_eq!(meta.end_page, 1);
    assert_eq!(meta.min_seq, 0);
    assert_eq!(meta.max_seq, 0);
    assert!(meta.min_key.is_empty());
    assert!(meta.max_key.is_empty());
    let reader = SSTableReader::open(&mut pool, 4).unwrap();
    assert!(reader.iter().collect(&mut pool).unwrap().is_empty());
    assert!(reader.get(&mut pool, &Key::from("")).unwrap().is_empty());
}

#[test]
fn what_cannot_be_written_or_opened() {
    let mut pool = BufferPool::new();
    let mut writer = SSTableWriter::new(&mut pool, 5).unwrap();
    let too_long = Entry::put(Key::from("k"), 1, Value::new(vec![0u8; 5000]));
    assert_eq!(
        writer.write_entry(&mut pool, &too_long),
        Err(StoreError::InvalidArgument)
    );
    let fits = Entry::put(Key::from("k"), 1, Value::new(vec![0u8; 4000]));
    assert_eq!(writer.write_entry(&mut pool, &fits), Ok(()));
    writer.abandon(&mut pool);
    pool.flush().unwrap();
    // The file has no summary.
    assert!(matches!(
        SSTableReader::open(&mut pool, 5),
        Err(StoreError::Corruption)
    ));
    // The file was never written.
    assert!(matches!(SSTableReader::open(&mut pool, 6), Err(StoreError::Io)));
}
