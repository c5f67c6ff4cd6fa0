use thordb::bufferpool::{BufferPool, PageAddr};
use thordb::error::StoreError;
use thordb::page::{Page, PageRead};
use thordb::serialize::BinarySerializable;
use thordb::serialpages::{SerialReader, SerialWriter};
use thordb::tuple::tuple::{read_var_bytes_tuple, write_var_bytes_tuple, Tuple, TupleOnDisk};
use thordb::tuple::types::{
    int32_bits, int32_of_bits, int64_bits, int64_of_bits, TupleDescriptor, TupleFieldDescriptor,
    TupleFieldType, TupleValue,
};
use thordb::tuple::{ColumnType, TupleDescriptor as ColumnsDescriptor};

#[test]
fn test_serial_tuple_write_and_read() {
    let mut pool = BufferPool::new();
    let page_addr = PageAddr::new(1, 0);

    // Create descriptor
    let mut descriptor = TupleDescriptor::new();
    descriptor.add_field(TupleFieldDescriptor::new("id".to_string(), TupleFieldType::Int64));
    descriptor.add_field(TupleFieldDescriptor::new("name".to_string(), TupleFieldType::VarBytes));
    descriptor.add_field(TupleFieldDescriptor::new("age".to_string(), TupleFieldType::Int32));

    // Write tuples
    {
        let mut writer = SerialWriter::new(&mut pool, page_addr).unwrap();

        let tuple1 = Tuple::new(vec![
            TupleValue::Int64(1),
            TupleValue::VarBytes(b"Alice"),
            TupleValue::Int32(30),
        ]);
        writer.append_tuple(&mut pool, &tuple1).unwrap();

        let tuple2 = Tuple::new(vec![
            TupleValue::Int64(2),
            TupleValue::VarBytes(b"Bob"),
            TupleValue::Null,
        ]);
        writer.append_tuple(&mut pool, &tuple2).unwrap();
        writer.close(&mut pool);
    }

    // Read tuples back
    {
        let page = Page::open(&mut pool, page_addr).unwrap();
        assert_eq!(page.num_cells().unwrap(), 2);

        // Read first tuple
        let cell1 = page.read_cell(0).unwrap();
        let tuple1 = TupleOnDisk::new(cell1);
        assert_eq!(tuple1.read_field(&descriptor, 0).unwrap(), TupleValue::Int64(1));
        assert_eq!(tuple1.read_field(&descriptor, 1).unwrap(), TupleValue::VarBytes(b"Alice"));
        assert_eq!(tuple1.read_field(&descriptor, 2).unwrap(), TupleValue::Int32(30));

        // Read second tuple
        let cell2 = page.read_cell(1).unwrap();
        let tuple2 = TupleOnDisk::new(cell2);
        assert_eq!(tuple2.read_field(&descriptor, 0).unwrap(), TupleValue::Int64(2));
        assert_eq!(tuple2.read_field(&descriptor, 1).unwrap(), TupleValue::VarBytes(b"Bob"));
        assert_eq!(tuple2.read_field(&descriptor, 2).unwrap(), TupleValue::Null);
        page.close(&mut pool);
    }
}

#[test]
fn test_serial_multiple_tuples() {
    let mut pool = BufferPool::new();
    let page_addr = PageAddr::new(1, 0);

    // Simple descriptor with just integers
    let mut descriptor = TupleDescriptor::new();
    descriptor.add_field(TupleFieldDescriptor::new("value".to_string(), TupleFieldType::Int32));

    let test_values: Vec<i32> = vec![100, 200, 300, 400, 500];

    // Write tuples
    {
        let mut writer = SerialWriter::new(&mut pool, page_addr).unwrap();
        for val in &test_values {
            let tuple = Tuple::new(vec![TupleValue::Int32(*val)]);
            writer.append_tuple(&mut pool, &tuple).unwrap();
        }
        writer.close(&mut pool);
    }

    // Read tuples back using Page directly
    {
        let page = Page::open(&mut pool, page_addr).unwrap();
        assert_eq!(page.num_cells().unwrap(), test_values.len());

        for (i, expected_val) in test_values.iter().enumerate() {
            let cell = page.read_cell(i).unwrap();
            let tuple = TupleOnDisk::new(cell);
            assert_eq!(
                tuple.read_field(&descriptor, 0).unwrap(),
                TupleValue::Int32(*expected_val)
            );
        }
        page.close(&mut pool);
    }
}

#[test]
fn serialpages_test_tuple_with_nulls() {
    let mut pool = BufferPool::new();
    let page_addr = PageAddr::new(1, 0);

    let mut descriptor = TupleDescriptor::new();
    descriptor.add_field(TupleFieldDescriptor::new("a".to_string(), TupleFieldType::Int32));
    descriptor.add_field(TupleFieldDescriptor::new("b".to_string(), TupleFieldType::Int32));
    descriptor.add_field(TupleFieldDescriptor::new("c".to_string(), TupleFieldType::Int32));

    // Write tuple with null in middle
    {
        let mut writer = SerialWriter::new(&mut pool, page_addr).unwrap();
        let tuple = Tuple::new(vec![
            TupleValue::Int32(10),
            TupleValue::Null,
            TupleValue::Int32(30),
        ]);
        writer.append_tuple(&mut pool, &tuple).unwrap();
        writer.close(&mut pool);
    }

    // Read and verify using Page directly
    {
        let page = Page::open(&mut pool, page_addr).unwrap();
        let cell = page.read_cell(0).unwrap();
        let tuple = TupleOnDisk::new(cell);
        assert_eq!(tuple.read_field(&descriptor, 0).unwrap(), TupleValue::Int32(10));
        assert_eq!(tuple.read_field(&descriptor, 1).unwrap(), TupleValue::Null);
        assert_eq!(tuple.read_field(&descriptor, 2).unwrap(), TupleValue::Int32(30));
        page.close(&mut pool);
    }
}

#[test]
fn tuples_are_read_across_pages() {
    let mut pool = BufferPool::new();
    let start = PageAddr::new(2, 0);
    let mut writer = SerialWriter::new(&mut pool, start).unwrap();
    let payload = vec![7u8; 1500];
    for i in 0..5i64 {
        let tuple = Tuple::new(vec![TupleValue::Int64(i), TupleValue::VarBytes(&payload)]);
        writer.append_tuple(&mut pool, &tuple).unwrap();
    }
    let end = writer.page_address;
    assert_eq!(end, PageAddr::new(2, 2));
    writer.close(&mut pool);

    let mut descriptor = TupleDescriptor::new();
    descriptor.add_field(TupleFieldDescriptor::new("n".to_string(), TupleFieldType::Int64));
    descriptor.add_field(TupleFieldDescriptor::new("p".to_string(), TupleFieldType::VarBytes));
    let mut reader = SerialReader::new(&mut pool, start, end).unwrap();
    for i in 0..5i64 {
        let bytes = reader.next(&mut pool).unwrap().unwrap();
        let tuple = TupleOnDisk::new(&bytes);
        assert_eq!(tuple.read_field(&descriptor, 0).unwrap(), TupleValue::Int64(i));
        assert_eq!(tuple.read_field(&descriptor, 1).unwrap(), TupleValue::VarBytes(&payload));
    }
    assert!(reader.next(&mut pool).is_none());
    reader.close(&mut pool);
}

#[test]
fn tuple_bytes_are_exact() {
    let tuple = Tuple::new(vec![
        TupleValue::Bool(true),
        TupleValue::Null,
        TupleValue::Int32(-2),
        TupleValue::Float32(1.5f32.to_bits()),
        TupleValue::VarBytes(b"ab"),
        TupleValue::Int64(258),
        TupleValue::Float64(2.0f64.to_bits()),
        TupleValue::Null,
        TupleValue::Null,
    ]);
    let mut out = Vec::new();
    let written = tuple.write_to_stream(&mut out).unwrap();
    let mut expected = vec![0b1000_0010u8, 0b0000_0001, 1];
    expected.extend_from_slice(&(-2i32).to_le_bytes());
    expected.extend_from_slice(&1.5f32.to_le_bytes());
    expected.extend_from_slice(&[2, b'a', b'b']);
    expected.extend_from_slice(&258i64.to_le_bytes());
    expected.extend_from_slice(&2.0f64.to_le_bytes());
    assert_eq!(out, expected);
    assert_eq!(written, expected.len());
    assert_eq!(tuple.len(), expected.len());

    let mut descriptor = TupleDescriptor::new();
    for (i, field_type) in [
        TupleFieldType::Bool,
        TupleFieldType::Int32,
        TupleFieldType::Int32,
        TupleFieldType::Float32,
        TupleFieldType::VarBytes,
        TupleFieldType::Int64,
        TupleFieldType::Float64,
        TupleFieldType::Bool,
        TupleFieldType::VarBytes,
    ]
    .into_iter()
    .enumerate()
    {
        descriptor.add_field(TupleFieldDescriptor::new(format!("f{}", i), field_type));
    }
    assert_eq!(descriptor.get_field(4).name(), "f4");
    let on_disk = TupleOnDisk::new(&out);
    for (i, value) in tuple.values.iter().enumerate() {
        assert_eq!(on_disk.read_field(&descriptor, i).unwrap(), *value);
        assert_eq!(on_disk.is_null(i), *value == TupleValue::Null);
    }
    let short = TupleOnDisk::new(&out[..out.len() - 1]);
    assert_eq!(short.read_field(&descriptor, 6), Err(StoreError::Corruption));
    assert_eq!(short.read_field(&descriptor, 5).unwrap(), TupleValue::Int64(258));
    assert_eq!(TupleValue::Null.write_to_stream(&mut out), Err(StoreError::InvalidArgument));
    assert_eq!(TupleValue::VarBytes(b"xyz").len(), 4);
    assert_eq!(descriptor.get_field(4).value_len(&[3, 1, 2, 3, 9]), Ok(4));
    assert_eq!(descriptor.get_field(4).value_len(&[0x80]), Err(StoreError::Corruption));
    assert_eq!(descriptor.get_field(0).value_len(&[]), Ok(1));
}

#[test]
fn a_tuple_of_one_field_wraps_bytes() {
    let cell = write_var_bytes_tuple(b"entry");
    assert_eq!(cell, vec![0, 5, b'e', b'n', b't', b'r', b'y']);
    let tuple = Tuple::new(vec![TupleValue::VarBytes(b"entry")]);
    let mut out = Vec::new();
    tuple.write_to_stream(&mut out).unwrap();
    assert_eq!(out, cell);
    assert_eq!(read_var_bytes_tuple(&cell), Ok(&b"entry"[..]));
    assert_eq!(read_var_bytes_tuple(&cell[..4]), Err(StoreError::Corruption));
    assert_eq!(read_var_bytes_tuple(&[]), Err(StoreError::Corruption));
}

#[test]
fn integers_and_their_bits() {
    assert_eq!(int32_bits(-1), u32::MAX);
    assert_eq!(int32_bits(i32::MIN), 0x8000_0000);
    assert_eq!(int32_bits(5), 5);
    assert_eq!(int32_of_bits(u32::MAX), -1);
    assert_eq!(int32_of_bits(0x8000_0000), i32::MIN);
    assert_eq!(int64_bits(-2), u64::MAX - 1);
    assert_eq!(int64_of_bits(u64::MAX - 1), -2);
    assert_eq!(int64_of_bits(int64_bits(i64::MIN)), i64::MIN);
}

#[test]
fn numbers_in_buffers() {
    let mut buffer = vec![0xffu8; 10];
    0x0102_0304_0506_0708u64.write_to(&mut buffer);
    assert_eq!(buffer, vec![8, 7, 6, 5, 4, 3, 2, 1, 0xff, 0xff]);
    assert_eq!(u64::read_from(&buffer), Ok(0x0102_0304_0506_0708));
    assert_eq!(u64::read_from(&buffer[..7]), Err(StoreError::Corruption));
    0xa1b2_c3d4u32.write_to(&mut buffer);
    assert_eq!(&buffer[..5], &[0xd4, 0xc3, 0xb2, 0xa1, 4]);
    assert_eq!(u32::read_from(&buffer), Ok(0xa1b2_c3d4));
    assert_eq!(u32::read_from(&[1, 2, 3]), Err(StoreError::Corruption));
}

#[test]
fn columns() {
    assert_eq!(ColumnType::Bool.fixed_size(), Some(1));
    assert_eq!(ColumnType::Int32.fixed_size(), Some(4));
    assert_eq!(ColumnType::Int64.fixed_size(), Some(8));
    assert_eq!(ColumnType::Float32.fixed_size(), Some(4));
    assert_eq!(ColumnType::Float64.fixed_size(), Some(8));
    assert_eq!(ColumnType::FixedString(12).fixed_size(), Some(12));
    assert_eq!(ColumnType::VarString.fixed_size(), None);
    let mut descriptor = ColumnsDescriptor::new();
    assert_eq!(descriptor.column_count(), 0);
    descriptor.add_column("id", ColumnType::Int64, false);
    descriptor.add_column("name", ColumnType::VarString, true);
    assert_eq!(descriptor.column_count(), 2);
    assert_eq!(descriptor.columns[1].name, "name");
    assert_eq!(descriptor.columns[1].column_type, ColumnType::VarString);
    assert!(descriptor.columns[1].nullable);
    assert!(!descriptor.columns[0].clone().nullable);
}

#[test]
fn the_writer_stays_where_the_next_page_is_held() {
    let mut pool = BufferPool::new();
    let start = PageAddr::new(5, 0);
    let mut writer = SerialWriter::new(&mut pool, start).unwrap();
    let payload = vec![1u8; 3000];
    let tuple = Tuple::new(vec![TupleValue::VarBytes(&payload)]);
    assert_eq!(writer.append_tuple(&mut pool, &tuple), Ok(()));
    let filled = writer.page_writer.data.clone();

    // Somebody holds the page that follows: the tuple finds no page.
    let (slot, data) = pool.pin_write(PageAddr::new(5, 1)).unwrap();
    assert_eq!(writer.append_tuple(&mut pool, &tuple), Err(StoreError::InvalidArgument));
    assert_eq!(writer.page_address, start);
    assert_eq!(writer.page_writer.data, filled);
    pool.unpin_write(slot, data);

    // The page is free again: the writer goes on to it.
    assert_eq!(writer.append_tuple(&mut pool, &tuple), Ok(()));
    assert_eq!(writer.page_address, PageAddr::new(5, 1));
    assert_eq!(writer.page_writer.num_cells(), Ok(1));

    // A tuple that fits on no page: the writer goes on to the next page
    // and stays there.
    let large = vec![2u8; 5000];
    let tuple = Tuple::new(vec![TupleValue::VarBytes(&large)]);
    assert_eq!(writer.append_tuple(&mut pool, &tuple), Err(StoreError::InvalidArgument));
    assert_eq!(writer.page_address, PageAddr::new(5, 2));
    assert_eq!(writer.page_writer.num_cells(), Ok(0));
    writer.close(&mut pool);

    let page = Page::open(&mut pool, start).unwrap();
    assert_eq!(page.page_data(), &filled[..]);
    page.close(&mut pool);
}

#[test]
fn the_reader_stays_where_the_next_page_cannot_be_had() {
    let mut pool = BufferPool::new();
    let start = PageAddr::new(6, 0);
    let mut writer = SerialWriter::new(&mut pool, start).unwrap();
    let tuple = Tuple::new(vec![TupleValue::Int64(11)]);
    writer.append_tuple(&mut pool, &tuple).unwrap();
    writer.close(&mut pool);

    // The reader is told of a last page that was never written.
    let mut reader = SerialReader::new(&mut pool, start, PageAddr::new(6, 1)).unwrap();
    let first = reader.next(&mut pool).unwrap().unwrap();
    assert_eq!(first.len(), tuple.len());
    assert!(matches!(reader.next(&mut pool), Some(Err(StoreError::Io))));
    assert_eq!(reader.page_address, start);
    assert_eq!(reader.current_cell_index, 1);
    assert!(matches!(reader.next(&mut pool), Some(Err(StoreError::Io))));
    reader.close(&mut pool);

    // The next page is there and holds a cell: the reader goes on to it.
    let mut writer = SerialWriter::new(&mut pool, PageAddr::new(6, 1)).unwrap();
    let second = Tuple::new(vec![TupleValue::Int64(12)]);
    writer.append_tuple(&mut pool, &second).unwrap();
    writer.close(&mut pool);
    let mut reader = SerialReader::new(&mut pool, start, PageAddr::new(6, 1)).unwrap();
    assert!(reader.next(&mut pool).unwrap().is_ok());
    let bytes = reader.next(&mut pool).unwrap().unwrap();
    assert_eq!(reader.page_address, PageAddr::new(6, 1));
    assert_eq!(reader.current_cell_index, 1);
    let mut expected = Vec::new();
    second.write_to_stream(&mut expected).unwrap();
    assert_eq!(bytes, expected);
    assert!(reader.next(&mut pool).is_none());
    reader.close(&mut pool);
}
