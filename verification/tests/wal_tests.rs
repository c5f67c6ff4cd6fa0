use thordb::error::StoreError;
use thordb::lsm::types::{Key, Value};
use thordb::lsm::wal::{Wal, WalReader};

#[test]
fn test_wal_write_and_read() {
    let path = String::from("/tmp/thordb_wal_test.wal");

    // Write entries
    let data = {
        let mut wal = Wal::open(path.clone(), Vec::new());
        wal.log_put(&Key::from("key1"), &Value::from("value1"), 1).unwrap();
        wal.log_put(&Key::from("key2"), &Value::from("value2"), 2).unwrap();
        wal.log_delete(&Key::from("key1"), 3).unwrap();
        assert_eq!(wal.path(), "/tmp/thordb_wal_test.wal");
        wal.contents().to_vec()
    };

    // Read entries
    {
        let mut reader = WalReader::open(data);
        let entries = reader.read_all().unwrap();

        assert_eq!(entries.len(), 3);

        assert_eq!(entries[0].key.as_bytes(), b"key1");
        assert_eq!(entries[0].seq_num, 1);
        assert!(!entries[0].is_tombstone());

        assert_eq!(entries[1].key.as_bytes(), b"key2");
        assert_eq!(entries[1].seq_num, 2);

        assert_eq!(entries[2].key.as_bytes(), b"key1");
        assert_eq!(entries[2].seq_num, 3);
        assert!(entries[2].is_tombstone());
    }
}

#[test]
fn wal_records_are_exact() {
    let mut wal = Wal::open(String::new(), Vec::new());
    wal.log_put(&Key::from("k"), &Value::from("vw"), 0x0102).unwrap();
    assert_eq!(
        wal.contents(),
        &[1, 0x02, 0x01, 0, 0, 0, 0, 0, 0, 1, 0, 0, 0, b'k', 2, 0, 0, 0, b'v', b'w']
    );
    let mut wal = Wal::open(String::new(), vec![9]);
    wal.log_delete(&Key::from("k"), 3).unwrap();
    assert_eq!(
        wal.contents(),
        &[9, 2, 3, 0, 0, 0, 0, 0, 0, 0, 1, 0, 0, 0, b'k']
    );
}

#[test]
fn a_log_that_ends_within_a_record_reads_up_to_that_record() {
    let mut wal = Wal::open(String::new(), Vec::new());
    wal.log_put(&Key::from("a"), &Value::from("1"), 1).unwrap();
    wal.log_delete(&Key::from("b"), 2).unwrap();
    let whole = wal.contents().to_vec();
    wal.log_put(&Key::from("c"), &Value::from("3"), 3).unwrap();
    let longer = wal.contents().to_vec();
    for cut in whole.len()..longer.len() {
        let entries = WalReader::open(longer[..cut].to_vec()).read_all().unwrap();
        assert_eq!(entries.len(), 2);
        assert_eq!(entries[1].key.as_bytes(), b"b");
        assert!(entries[1].is_tombstone());
    }
    assert_eq!(WalReader::open(longer).read_all().unwrap().len(), 3);
    assert!(WalReader::open(Vec::new()).read_all().unwrap().is_empty());
}

#[test]
fn a_record_of_an_unknown_kind_is_corrupt() {
    let mut wal = Wal::open(String::new(), Vec::new());
    wal.log_put(&Key::from("a"), &Value::from("1"), 1).unwrap();
    let mut data = wal.contents().to_vec();
    data.extend_from_slice(&[7, 1, 0, 0, 0, 0, 0, 0, 0, 1, 0, 0, 0, b'k']);
    assert!(matches!(
        WalReader::open(data).read_all(),
        Err(StoreError::Corruption)
    ));
    // The kind is looked at once the key is there.
    let short = vec![7, 1, 0, 0, 0, 0, 0, 0, 0, 1, 0, 0, 0];
    assert!(WalReader::open(short).read_all().unwrap().is_empty());
}
