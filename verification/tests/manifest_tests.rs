use thordb::lsm::manifest::{parse_line, read_manifest, render_manifest, write_decimal};

#[test]
fn manifest_is_one_id_on_each_line() {
    assert_eq!(render_manifest(&vec![3, 2, 1]), b"3\n2\n1".to_vec());
    assert_eq!(render_manifest(&vec![12345678901234567890]), b"12345678901234567890".to_vec());
    assert_eq!(render_manifest(&Vec::new()), Vec::<u8>::new());
    assert_eq!(render_manifest(&vec![0, u64::MAX]), b"0\n18446744073709551615".to_vec());
}

#[test]
fn manifest_round_trip() {
    let ids = vec![17u64, 0, 9, 100, u64::MAX];
    assert_eq!(read_manifest(&render_manifest(&ids)), ids);
    assert_eq!(read_manifest(b""), Vec::<u64>::new());
}

#[test]
fn lines_that_hold_no_id_are_passed_over() {
    assert_eq!(read_manifest(b"1\nx\n\n22\n 3\n4 \n18446744073709551616\n5\n"), vec![1, 22, 5]);
    assert_eq!(read_manifest(b"\n\n"), Vec::<u64>::new());
    assert_eq!(read_manifest(b"007"), vec![7]);
    assert_eq!(parse_line(b"42"), Some(42));
    assert_eq!(parse_line(b""), None);
    assert_eq!(parse_line(b"4a"), None);
    assert_eq!(parse_line(b"18446744073709551615"), Some(u64::MAX));
    assert_eq!(parse_line(b"18446744073709551616"), None);
    assert_eq!(parse_line(b"99999999999999999999999"), None);
}

#[test]
fn decimal_digits() {
    let mut out = vec![b'#'];
    write_decimal(0, &mut out);
    write_decimal(10, &mut out);
    write_decimal(905, &mut out);
    assert_eq!(out, b"#010905".to_vec());
}
