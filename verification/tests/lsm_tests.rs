use thordb::error::StoreError;
use thordb::lsm::lsm::{sort_order, LsmConfig, LsmTree};
use thordb::lsm::types::{Key, Value};
use thordb::lsm::wal::Wal;
use thordb::pagefile::PageFiles;

fn open_empty(config: LsmConfig) -> LsmTree {
    LsmTree::open(config, Vec::new(), None, PageFiles::new()).unwrap()
}

#[test]
fn test_basic_put_get() {
    let config = LsmConfig { data_dir: String::from("/tmp/thordb_lsm_test"), ..Default::default() };

    let mut lsm = open_empty(config);

    lsm.put(Key::from("key1"), Value::from("value1")).unwrap();
    lsm.put(Key::from("key2"), Value::from("value2")).unwrap();

    assert_eq!(
        lsm.get(&Key::from("key1")).unwrap().unwrap().as_bytes(),
        b"value1"
    );
    assert_eq!(
        lsm.get(&Key::from("key2")).unwrap().unwrap().as_bytes(),
        b"value2"
    );
    assert!(lsm.get(&Key::from("key3")).unwrap().is_none());
}

#[test]
fn lsm_test_overwrite() {
    let mut lsm = open_empty(LsmConfig::default());

    lsm.put(Key::from("key"), Value::from("v1")).unwrap();
    lsm.put(Key::from("key"), Value::from("v2")).unwrap();

    // Get returns latest
    assert_eq!(
        lsm.get(&Key::from("key")).unwrap().unwrap().as_bytes(),
        b"v2"
    );

    // Get all returns both
    let all = lsm.get_all(&Key::from("key")).unwrap();
    assert_eq!(all.len(), 2);
}

#[test]
fn lsm_test_delete() {
    let mut lsm = open_empty(LsmConfig::default());

    lsm.put(Key::from("key"), Value::from("value")).unwrap();
    lsm.delete(Key::from("key")).unwrap();

    assert!(lsm.get(&Key::from("key")).unwrap().is_none());
}

#[test]
fn test_flush_and_recover() {
    let config = LsmConfig {
        data_dir: String::from("/tmp/thordb_lsm_test"),
        memtable_size_threshold: 100, // Small threshold for testing
    };

    // Write and flush
    let (wal, manifest, files) = {
        let mut lsm = open_empty(config.clone());
        lsm.put(Key::from("key1"), Value::from("value1")).unwrap();
        lsm.put(Key::from("key2"), Value::from("value2")).unwrap();
        lsm.flush().unwrap();
        lsm.buffer_pool.flush().unwrap();
        (lsm.wal.contents().to_vec(), lsm.manifest.clone(), lsm.buffer_pool.page_files)
    };

    // Reopen and verify
    {
        let mut lsm = LsmTree::open(config, wal, Some(manifest), files).unwrap();
        assert_eq!(
            lsm.get(&Key::from("key1")).unwrap().unwrap().as_bytes(),
            b"value1"
        );
        assert_eq!(
            lsm.get(&Key::from("key2")).unwrap().unwrap().as_bytes(),
            b"value2"
        );
        let stats = lsm.stats();
        assert!(stats.sstable_count >= 1);
        assert_eq!(stats.memtable_entries, 0);
    }
}

#[test]
fn test_scan() {
    let mut lsm = open_empty(LsmConfig::default());

    lsm.put(Key::from("c"), Value::from("3")).unwrap();
    lsm.put(Key::from("a"), Value::from("1")).unwrap();
    lsm.put(Key::from("b"), Value::from("2")).unwrap();

    let entries: Vec<_> = lsm.scan_live().unwrap();
    let keys: Vec<_> = entries.iter().map(|e| e.key.as_bytes()).collect();

    assert_eq!(keys, vec![b"a", b"b", b"c"]);
}

#[test]
fn put_overwrite_get_all() {
    let mut lsm = open_empty(LsmConfig::default());
    let s1 = lsm.put(Key::from("k"), Value::from("v1")).unwrap();
    let s2 = lsm.put(Key::from("k"), Value::from("v2")).unwrap();
    assert!(s2 > s1);
    assert_eq!(lsm.get(&Key::from("k")).unwrap().unwrap().as_bytes(), b"v2");
    let all = lsm.get_all(&Key::from("k")).unwrap();
    assert_eq!(all.len(), 2);
    assert_eq!(all[0].seq_num, s2);
    assert_eq!(all[0].value.as_ref().unwrap().as_bytes(), b"v2");
    assert_eq!(all[1].seq_num, s1);
    assert_eq!(all[1].value.as_ref().unwrap().as_bytes(), b"v1");
}

#[test]
fn delete_is_seen() {
    let mut lsm = open_empty(LsmConfig::default());
    lsm.put(Key::from("k"), Value::from("v")).unwrap();
    lsm.delete(Key::from("k")).unwrap();
    assert!(lsm.get(&Key::from("k")).unwrap().is_none());
    let all = lsm.get_all(&Key::from("k")).unwrap();
    assert_eq!(all.len(), 2);
    assert!(all[0].is_tombstone());
    assert!(!all[1].is_tombstone());
    assert!(lsm.scan_live().unwrap().is_empty());
    let latest = lsm.scan_latest().unwrap();
    assert_eq!(latest.len(), 1);
    assert!(latest[0].is_tombstone());
    assert_eq!(lsm.scan().unwrap().len(), 2);
}

#[test]
fn versions_in_the_table_and_in_a_run() {
    let mut lsm = open_empty(LsmConfig::default());
    lsm.put(Key::from("k"), Value::from("old")).unwrap();
    lsm.put(Key::from("j"), Value::from("other")).unwrap();
    lsm.flush().unwrap();
    assert_eq!(lsm.stats().sstable_count, 1);
    assert_eq!(lsm.stats().memtable_entries, 0);
    assert_eq!(lsm.stats().memtable_size_bytes, 0);
    assert_eq!(lsm.stats().total_entries, 2);
    assert!(lsm.wal.contents().is_empty());
    assert_eq!(lsm.manifest, b"1".to_vec());
    lsm.put(Key::from("k"), Value::from("new")).unwrap();
    assert_eq!(lsm.get(&Key::from("k")).unwrap().unwrap().as_bytes(), b"new");
    assert_eq!(lsm.get(&Key::from("j")).unwrap().unwrap().as_bytes(), b"other");
    let all = lsm.get_all(&Key::from("k")).unwrap();
    assert_eq!(all.len(), 2);
    assert_eq!(all[0].value.as_ref().unwrap().as_bytes(), b"new");
    assert_eq!(all[1].value.as_ref().unwrap().as_bytes(), b"old");
    let latest = lsm.scan_latest().unwrap();
    let seen: Vec<(Vec<u8>, Vec<u8>)> = latest
        .iter()
        .map(|e| (e.key.0.clone(), e.value.as_ref().unwrap().0.clone()))
        .collect();
    assert_eq!(
        seen,
        vec![(b"j".to_vec(), b"other".to_vec()), (b"k".to_vec(), b"new".to_vec())]
    );
    lsm.delete(Key::from("j")).unwrap();
    lsm.flush().unwrap();
    assert_eq!(lsm.manifest, b"2\n1".to_vec());
    assert!(lsm.get(&Key::from("j")).unwrap().is_none());
    assert_eq!(lsm.stats().total_entries, 4);
    let live: Vec<Vec<u8>> = lsm.scan_live().unwrap().iter().map(|e| e.key.0.clone()).collect();
    assert_eq!(live, vec![b"k".to_vec()]);
}

#[test]
fn the_table_is_flushed_when_it_has_reached_its_size() {
    let config = LsmConfig { data_dir: String::from("d"), memtable_size_threshold: 100 };
    let mut lsm = open_empty(config);
    lsm.put(Key::from("key1"), Value::from("value1")).unwrap();
    assert_eq!(lsm.stats().sstable_count, 0);
    assert_eq!(lsm.stats().memtable_size_bytes, 34);
    lsm.put(Key::from("key2"), Value::from("value2")).unwrap();
    assert_eq!(lsm.stats().sstable_count, 0);
    lsm.put(Key::from("key3"), Value::from("value3")).unwrap();
    assert_eq!(lsm.stats().sstable_count, 1);
    assert_eq!(lsm.stats().memtable_entries, 0);
    let seq = lsm.put(Key::from("key1"), Value::from("again")).unwrap();
    assert_eq!(seq, 4);
    for (key, value) in [("key1", "again"), ("key2", "value2"), ("key3", "value3")] {
        assert_eq!(lsm.get(&Key::from(key)).unwrap().unwrap().as_bytes(), value.as_bytes());
    }
}

#[test]
fn recovery_from_the_log() {
    let mut lsm = open_empty(LsmConfig::default());
    lsm.put(Key::from("a"), Value::from("1")).unwrap();
    lsm.put(Key::from("b"), Value::from("2")).unwrap();
    lsm.delete(Key::from("a")).unwrap();
    lsm.put(Key::from("c"), Value::from("3")).unwrap();
    let whole = lsm.wal.contents().to_vec();
    // A crash within the record of a write that did not return.
    let mut torn = whole.clone();
    torn.extend_from_slice(&[1, 9, 0, 0, 0, 0, 0, 0, 0, 5, 0, 0, 0, b'x']);
    for wal in [whole, torn] {
        let mut again = LsmTree::open(LsmConfig::default(), wal, None, PageFiles::new()).unwrap();
        assert!(again.get(&Key::from("a")).unwrap().is_none());
        assert_eq!(again.get(&Key::from("b")).unwrap().unwrap().as_bytes(), b"2");
        assert_eq!(again.get(&Key::from("c")).unwrap().unwrap().as_bytes(), b"3");
        assert_eq!(again.stats().memtable_entries, 4);
        // The counter goes on behind the highest number in the log.
        assert_eq!(again.put(Key::from("d"), Value::from("4")).unwrap(), 5);
    }
}

#[test]
fn a_corrupt_log_is_refused() {
    let wal = vec![9, 1, 0, 0, 0, 0, 0, 0, 0, 1, 0, 0, 0, b'k'];
    assert!(matches!(
        LsmTree::open(LsmConfig::default(), wal, None, PageFiles::new()),
        Err(StoreError::Corruption)
    ));
}

#[test]
fn runs_that_cannot_be_opened_are_left_out() {
    let mut lsm = open_empty(LsmConfig::default());
    lsm.put(Key::from("a"), Value::from("1")).unwrap();
    lsm.flush().unwrap();
    lsm.put(Key::from("b"), Value::from("2")).unwrap();
    lsm.flush().unwrap();
    lsm.buffer_pool.flush().unwrap();
    let files = lsm.buffer_pool.page_files;
    let manifest = b"1\n7\nnonsense\n2".to_vec();
    let mut again = LsmTree::open(LsmConfig::default(), Vec::new(), Some(manifest), files).unwrap();
    assert_eq!(again.stats().sstable_count, 2);
    assert_eq!(again.sstables[0].meta.id, 2);
    assert_eq!(again.sstables[1].meta.id, 1);
    assert_eq!(again.next_sstable_id, 3);
    assert_eq!(again.get(&Key::from("a")).unwrap().unwrap().as_bytes(), b"1");
    assert_eq!(again.get(&Key::from("b")).unwrap().unwrap().as_bytes(), b"2");
}

#[test]
fn an_entry_that_fits_on_no_page_cannot_be_flushed() {
    let mut lsm = open_empty(LsmConfig::default());
    lsm.put(Key::from("k"), Value::new(vec![0u8; 5000])).unwrap();
    assert_eq!(lsm.flush(), Err(StoreError::InvalidArgument));
    assert_eq!(lsm.stats().sstable_count, 0);
    assert_eq!(lsm.stats().memtable_entries, 1);
    assert_eq!(lsm.get(&Key::from("k")).unwrap().unwrap().len(), 5000);
}

#[test]
fn config_defaults() {
    let config = LsmConfig::default();
    assert_eq!(config.memtable_size_threshold, 4 * 1024 * 1024);
    assert_eq!(config.data_dir, "./data");
    let lsm = open_empty(config);
    assert_eq!(lsm.wal.path(), "./data/wal.log");
    assert_eq!(lsm.next_sstable_id, 1);
}

#[test]
fn sort_order_is_descending_and_stable() {
    assert_eq!(sort_order(&vec![5, 9, 5, 1, 9]), vec![1, 4, 0, 2, 3]);
    assert_eq!(sort_order(&Vec::new()), Vec::<usize>::new());
}

#[test]
fn a_write_leaves_its_entry_in_the_table_and_its_record_in_the_log() {
    let mut lsm = open_empty(LsmConfig::default());
    assert_eq!(lsm.put(Key::from("key"), Value::from("value")), Ok(1));
    assert_eq!(lsm.stats().memtable_entries, 1);
    assert_eq!(lsm.stats().memtable_size_bytes, 24 + 3 + 5);
    let mut log = Wal::open(String::from("w"), Vec::new());
    log.log_put(&Key::from("key"), &Value::from("value"), 1).unwrap();
    assert_eq!(lsm.wal.contents(), log.contents());

    assert_eq!(lsm.delete(Key::from("key")), Ok(2));
    assert_eq!(lsm.stats().memtable_entries, 2);
    assert_eq!(lsm.stats().memtable_size_bytes, 32 + 24 + 3);
    log.log_delete(&Key::from("key"), 2).unwrap();
    assert_eq!(lsm.wal.contents(), log.contents());
    assert_eq!(lsm.memtable.current_seq_num(), 3);
    assert_eq!(lsm.memtable.entries.len(), 2);
    assert_eq!(lsm.memtable.entries[0].seq_num, 2);
    assert!(lsm.memtable.entries[0].is_tombstone());
    assert_eq!(lsm.memtable.entries[1].seq_num, 1);
    assert_eq!(lsm.stats().sstable_count, 0);
    assert!(lsm.manifest.is_empty());
    assert_eq!(lsm.next_sstable_id, 1);
}

#[test]
fn a_write_is_refused_once_the_sequence_numbers_are_used_up() {
    let mut log = Wal::open(String::from("w"), Vec::new());
    log.log_put(&Key::from("k"), &Value::from("v"), u64::MAX - 2).unwrap();
    let wal = log.contents().to_vec();
    let mut lsm = LsmTree::open(LsmConfig::default(), wal.clone(), None, PageFiles::new()).unwrap();
    assert_eq!(lsm.memtable.current_seq_num(), u64::MAX - 1);
    assert_eq!(lsm.put(Key::from("k"), Value::from("w")), Ok(u64::MAX - 1));
    assert_eq!(lsm.memtable.current_seq_num(), u64::MAX);
    let before = lsm.wal.contents().to_vec();
    let size = lsm.stats().memtable_size_bytes;

    assert_eq!(lsm.put(Key::from("k"), Value::from("x")), Err(StoreError::Exhaustion));
    assert_eq!(lsm.delete(Key::from("k")), Err(StoreError::Exhaustion));
    assert_eq!(lsm.memtable.current_seq_num(), u64::MAX);
    assert_eq!(lsm.stats().memtable_entries, 2);
    assert_eq!(lsm.stats().memtable_size_bytes, size);
    assert_eq!(lsm.wal.contents(), &before[..]);
    assert_eq!(lsm.get(&Key::from("k")).unwrap().unwrap().as_bytes(), b"w");
    let all = lsm.get_all(&Key::from("k")).unwrap();
    assert_eq!(all.len(), 2);
    assert!(all[0].seq_num > all[1].seq_num);
}

#[test]
fn a_flush_that_fails_within_a_write_keeps_the_write() {
    let config = LsmConfig { data_dir: String::from("d"), memtable_size_threshold: 100 };
    let mut lsm = open_empty(config);
    assert_eq!(
        lsm.put(Key::from("k"), Value::new(vec![0u8; 5000])),
        Err(StoreError::InvalidArgument)
    );
    assert_eq!(lsm.stats().memtable_entries, 1);
    assert_eq!(lsm.stats().memtable_size_bytes, 24 + 1 + 5000);
    assert_eq!(lsm.stats().sstable_count, 0);
    assert_eq!(lsm.memtable.current_seq_num(), 2);
    // The id of the run that could not be written is used up.
    assert_eq!(lsm.next_sstable_id, 2);
    assert_eq!(lsm.wal.contents().len(), 1 + 8 + 4 + 1 + 4 + 5000);
    assert_eq!(lsm.get(&Key::from("k")).unwrap().unwrap().len(), 5000);
}

#[test]
fn a_flush_leaves_an_empty_table_and_a_manifest_of_the_runs() {
    let mut lsm = open_empty(LsmConfig::default());
    lsm.put(Key::from("b"), Value::from("2")).unwrap();
    lsm.put(Key::from("a"), Value::from("1")).unwrap();
    assert_eq!(lsm.flush(), Ok(()));
    assert_eq!(lsm.stats().memtable_entries, 0);
    assert_eq!(lsm.stats().memtable_size_bytes, 0);
    assert!(lsm.wal.contents().is_empty());
    assert_eq!(lsm.memtable.current_seq_num(), 3);
    assert_eq!(lsm.manifest, b"1".to_vec());
    assert_eq!(lsm.next_sstable_id, 2);
    let meta = &lsm.sstables[0].meta;
    assert_eq!((meta.id, meta.entry_count, meta.start_page, meta.end_page), (1, 2, 1, 1));
    assert_eq!((meta.min_seq, meta.max_seq), (1, 2));
    assert_eq!(meta.min_key.as_bytes(), b"a");
    assert_eq!(meta.max_key.as_bytes(), b"b");
    // A flush of an empty table does nothing.
    assert_eq!(lsm.flush(), Ok(()));
    assert_eq!(lsm.stats().sstable_count, 1);
    assert_eq!(lsm.next_sstable_id, 2);

    lsm.put(Key::from("c"), Value::from("3")).unwrap();
    assert_eq!(lsm.flush(), Ok(()));
    assert_eq!(lsm.manifest, b"2\n1".to_vec());
    assert_eq!(lsm.stats().total_entries, 3);
}

#[test]
fn the_table_that_the_log_makes_up_counts_every_record() {
    let mut lsm = open_empty(LsmConfig::default());
    lsm.put(Key::from("a"), Value::from("1")).unwrap();
    lsm.put(Key::from("bb"), Value::from("22")).unwrap();
    lsm.delete(Key::from("a")).unwrap();
    let size = lsm.stats().memtable_size_bytes;
    assert_eq!(size, (24 + 2) + (24 + 4) + (24 + 1));
    let wal = lsm.wal.contents().to_vec();
    let again = LsmTree::open(LsmConfig::default(), wal, None, PageFiles::new()).unwrap();
    assert_eq!(again.stats().memtable_size_bytes, size);
    assert_eq!(again.stats().memtable_entries, 3);
    assert_eq!(again.memtable.current_seq_num(), 4);
}

#[test]
fn a_run_is_written_over_pages_that_a_crash_left() {
    // A run was written to file 1, and the store went down before the
    // manifest was: the store that opens knows no run, and writes its next
    // run to file 1 again.
    let mut first = open_empty(LsmConfig::default());
    for i in 0..300u32 {
        let key = format!("stale{:04}", i);
        first.put(Key::from(key.as_str()), Value::new(vec![b'x'; 40])).unwrap();
    }
    first.flush().unwrap();
    first.buffer_pool.flush().unwrap();
    assert!(first.sstables[0].meta.end_page > 1);
    let files = first.buffer_pool.page_files;

    let mut lsm = LsmTree::open(LsmConfig::default(), Vec::new(), None, files).unwrap();
    assert_eq!(lsm.stats().sstable_count, 0);
    assert_eq!(lsm.next_sstable_id, 1);
    lsm.put(Key::from("fresh"), Value::from("1")).unwrap();
    assert_eq!(lsm.flush(), Ok(()));
    assert_eq!(lsm.sstables[0].meta.id, 1);
    assert_eq!(lsm.sstables[0].meta.entry_count, 1);
    assert_eq!(lsm.sstables[0].meta.end_page, 1);
    assert_eq!(lsm.get(&Key::from("fresh")).unwrap().unwrap().as_bytes(), b"1");
    assert!(lsm.get(&Key::from("stale0000")).unwrap().is_none());
    let all: Vec<Vec<u8>> = lsm.scan().unwrap().iter().map(|e| e.key.0.clone()).collect();
    assert_eq!(all, vec![b"fresh".to_vec()]);
}

#[test]
fn reads_fail_on_runs_that_are_not_on_the_pages() {
    // The store is opened over a manifest and files, and a page of the run
    // is then damaged: reads give an error and leave the store as it is.
    let mut first = open_empty(LsmConfig::default());
    first.put(Key::from("a"), Value::from("1")).unwrap();
    first.flush().unwrap();
    first.buffer_pool.flush().unwrap();
    let manifest = first.manifest.clone();
    let mut files = first.buffer_pool.page_files;
    let mut page = vec![0u8; 4096];
    page[0] = 12;
    page[2] = 0xf0;
    page[3] = 0x0f;
    page[4] = 0xff;
    page[5] = 0xff;
    page[6] = 0xff;
    page[7] = 0xff;
    files.write_page(thordb::bufferpool::PageAddr::new(1, 1), &page).unwrap();
    let mut lsm = LsmTree::open(LsmConfig::default(), Vec::new(), Some(manifest), files).unwrap();
    assert_eq!(lsm.stats().sstable_count, 1);
    assert!(lsm.get(&Key::from("a")).is_err());
    assert!(lsm.scan().is_err());
    assert_eq!(lsm.stats().sstable_count, 1);
    // Writes still go into the table and are read from it.
    assert_eq!(lsm.put(Key::from("a"), Value::from("2")), Ok(1));
    assert_eq!(lsm.get(&Key::from("a")).unwrap().unwrap().as_bytes(), b"2");
}
