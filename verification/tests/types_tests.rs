use thordb::error::StoreError;
use thordb::lsm::types::{Entry, Key, Value};
use thordb::tuple::varint::{decode_varint, encode_varint, varint_len};

#[test]
fn test_entry_serialization() {
    let entry = Entry::put(Key::from("hello"), 42, Value::from("world"));

    let mut buffer = Vec::new();
    let written = entry.write_to(&mut buffer).unwrap();
    assert_eq!(written, buffer.len());

    let (decoded, read) = Entry::read_from(&buffer).unwrap();
    assert_eq!(read, buffer.len());
    assert_eq!(decoded.key, entry.key);
    assert_eq!(decoded.seq_num, entry.seq_num);
    assert_eq!(decoded.value, entry.value);
}

#[test]
fn test_tombstone_serialization() {
    let entry = Entry::delete(Key::from("deleted"), 100);

    let mut buffer = Vec::new();
    entry.write_to(&mut buffer).unwrap();

    let (decoded, _) = Entry::read_from(&buffer).unwrap();
    assert!(decoded.is_tombstone());
    assert_eq!(decoded.key, entry.key);
    assert_eq!(decoded.seq_num, entry.seq_num);
}

#[test]
fn test_entry_ordering() {
    let e1 = Entry::put(Key::from("a"), 1, Value::from("v1"));
    let e2 = Entry::put(Key::from("a"), 2, Value::from("v2"));
    let e3 = Entry::put(Key::from("b"), 1, Value::from("v3"));

    // Same key: higher seq_num comes first
    assert!(e2 < e1);
    // Different keys: ordered by key
    assert!(e1 < e3);
}

#[test]
fn entry_wire_form_is_exact() {
    let entry = Entry::put(Key::from("k"), 0x0102, Value::from("vv"));
    let mut buffer = Vec::new();
    let written = entry.write_to(&mut buffer).unwrap();
    assert_eq!(
        buffer,
        vec![1, b'k', 0x02, 0x01, 0, 0, 0, 0, 0, 0, 0, 2, b'v', b'v']
    );
    assert_eq!(written, 14);
    assert_eq!(entry.serialized_size(), 14);

    let tombstone = Entry::delete(Key::from("k"), 7);
    let mut buffer = Vec::new();
    tombstone.write_to(&mut buffer).unwrap();
    assert_eq!(buffer, vec![1, b'k', 7, 0, 0, 0, 0, 0, 0, 0, 1]);
    assert_eq!(tombstone.serialized_size(), 11);
}

#[test]
fn entry_read_stops_behind_the_entry() {
    let entry = Entry::put(Key::from("key"), 9, Value::from(""));
    let mut buffer = Vec::new();
    entry.write_to(&mut buffer).unwrap();
    let len = buffer.len();
    buffer.extend_from_slice(&[0xaa, 0xbb]);
    let (decoded, read) = Entry::read_from(&buffer).unwrap();
    assert_eq!(read, len);
    assert_eq!(decoded.key.as_bytes(), b"key");
    assert_eq!(decoded.value.unwrap().as_bytes(), b"");
}

#[test]
fn entry_read_rejects_truncated_input() {
    let entry = Entry::put(Key::from("hello"), 42, Value::from("world"));
    let mut buffer = Vec::new();
    entry.write_to(&mut buffer).unwrap();
    for cut in 0..buffer.len() {
        match Entry::read_from(&buffer[..cut]) {
            Err(e) => assert_eq!(e, StoreError::Corruption),
            Ok(_) => panic!("a truncated entry was read at {}", cut),
        }
    }
}

#[test]
fn key_and_value_accessors() {
    let key = Key::new(vec![1, 2, 3]);
    assert_eq!(key.len(), 3);
    assert!(!key.is_empty());
    assert_eq!(key.as_bytes(), &[1, 2, 3]);
    assert!(Key::from_slice(&[]).is_empty());
    let value = Value::from_slice(b"ab");
    assert_eq!(value.len(), 2);
    assert!(!value.is_empty());
    assert!(Value::new(Vec::new()).is_empty());
    assert!(Key::from("a") < Key::from("ab"));
    assert!(Key::from("ab") < Key::from("b"));
    assert!(Key::from("b") == Key::from(vec![b'b']));
    assert!(Value::from("x") == Value::from(&b"x"[..]));
}

#[test]
fn varint_exact_bytes() {
    let mut out = Vec::new();
    assert_eq!(encode_varint(0, &mut out).unwrap(), 1);
    assert_eq!(out, vec![0]);
    let mut out = Vec::new();
    assert_eq!(encode_varint(127, &mut out).unwrap(), 1);
    assert_eq!(out, vec![0x7f]);
    let mut out = Vec::new();
    assert_eq!(encode_varint(128, &mut out).unwrap(), 2);
    assert_eq!(out, vec![0x80, 0x01]);
    let mut out = Vec::new();
    assert_eq!(encode_varint(300, &mut out).unwrap(), 2);
    assert_eq!(out, vec![0xac, 0x02]);
    let mut out = Vec::new();
    assert_eq!(encode_varint(u64::MAX, &mut out).unwrap(), 10);
    assert_eq!(out, vec![0xff, 0xff, 0xff, 0xff, 0xff, 0xff, 0xff, 0xff, 0xff, 0x01]);
    assert_eq!(varint_len(0), 1);
    assert_eq!(varint_len(127), 1);
    assert_eq!(varint_len(128), 2);
    assert_eq!(varint_len(16383), 2);
    assert_eq!(varint_len(16384), 3);
    assert_eq!(varint_len(u64::MAX), 10);
}

#[test]
fn varint_round_trip() {
    for value in [0u64, 1, 127, 128, 255, 300, 16383, 16384, 1 << 32, u64::MAX - 1, u64::MAX] {
        let mut out = Vec::new();
        let written = encode_varint(value, &mut out).unwrap();
        out.push(0x55);
        assert_eq!(decode_varint(&out), Ok((value, written)));
    }
}

#[test]
fn varint_decode_errors() {
    assert_eq!(decode_varint(&[]), Err(StoreError::Corruption));
    assert_eq!(decode_varint(&[0x80]), Err(StoreError::Corruption));
    assert_eq!(decode_varint(&[0xff; 10]), Err(StoreError::Corruption));
    assert_eq!(decode_varint(&[0xff; 11]), Err(StoreError::Corruption));
    // The tenth byte ends the number; only its lowest bit counts.
    let mut bytes = vec![0x80u8; 9];
    bytes.push(0x03);
    assert_eq!(decode_varint(&bytes), Ok((1u64 << 63, 10)));
    // A number need not be written in the shortest way.
    assert_eq!(decode_varint(&[0x80, 0x00]), Ok((0, 2)));
}
