use thordb::bufferpool::{BufferPool, PageAddr};
use thordb::constants::PAGE_SIZE;
use thordb::error::StoreError;
use thordb::page::{Page, PageMut, PageRead};

#[test]
fn cells_are_read_as_they_were_written() {
    let mut pool = BufferPool::new();
    let addr = PageAddr::new(1, 0);
    let mut page = PageMut::open(&mut pool, addr).unwrap();
    assert_eq!(page.num_cells(), Ok(0));
    assert_eq!(page.read_u16(0), Ok(4));
    assert_eq!(page.read_u16(2), Ok(PAGE_SIZE as u16));
    assert_eq!(page.append_cell(b"first"), Ok(()));
    assert_eq!(page.append_cell(b"second!"), Ok(()));
    assert_eq!(page.num_cells(), Ok(2));
    assert_eq!(page.read_u16(0), Ok(12));
    assert_eq!(page.read_u16(2), Ok((PAGE_SIZE - 12) as u16));
    assert_eq!(page.read_cell_pointer(0), Ok((PAGE_SIZE - 5, PAGE_SIZE)));
    assert_eq!(page.read_cell_pointer(1), Ok((PAGE_SIZE - 12, PAGE_SIZE - 5)));
    assert_eq!(page.read_cell(0).unwrap(), b"first");
    assert_eq!(page.read_cell(1).unwrap(), b"second!");
    page.close(&mut pool);

    let page = Page::open(&mut pool, addr).unwrap();
    assert_eq!(page.num_cells(), Ok(2));
    assert_eq!(page.read_cell(0).unwrap(), b"first");
    assert_eq!(page.read_cell(1).unwrap(), b"second!");
    // No cell was made behind the second: its pointer names an empty body.
    assert_eq!(page.read_cell(2), Ok(&b""[..]));
    assert_eq!(page.read_cell(5000), Err(StoreError::InvalidArgument));
    assert_eq!(page.read_u16(PAGE_SIZE - 1), Err(StoreError::InvalidArgument));
    assert_eq!(page.page_data().len(), PAGE_SIZE);
    page.close(&mut pool);

    // The page keeps its cells when it is opened for writing again.
    let mut page = PageMut::open(&mut pool, addr).unwrap();
    assert_eq!(page.num_cells(), Ok(2));
    assert_eq!(page.allocate_cell(3), Ok(PAGE_SIZE - 15));
    assert_eq!(page.num_cells(), Ok(3));
    page.close(&mut pool);
}

#[test]
fn a_page_takes_cells_until_it_is_full() {
    let mut pool = BufferPool::new();
    let mut page = PageMut::open(&mut pool, PageAddr::new(1, 0)).unwrap();
    assert_eq!(page.has_space_for_cell(PAGE_SIZE - 8), Ok(true));
    assert_eq!(page.has_space_for_cell(PAGE_SIZE - 7), Ok(false));
    assert_eq!(page.allocate_cell(PAGE_SIZE - 7), Err(StoreError::InvalidArgument));
    let cell = vec![1u8; 1000];
    let mut count = 0;
    while page.has_space_for_cell(cell.len()).unwrap() {
        page.append_cell(&cell).unwrap();
        count += 1;
    }
    assert_eq!(count, 4);
    assert_eq!(page.append_cell(&cell), Err(StoreError::InvalidArgument));
    assert_eq!(page.num_cells(), Ok(4));
    for i in 0..4 {
        assert_eq!(page.read_cell(i).unwrap(), &cell[..]);
    }
    page.close(&mut pool);
}

#[test]
fn a_page_that_was_never_written_has_no_header() {
    let mut pool = BufferPool::new();
    let (slot, data) = pool.pin_write(PageAddr::new(1, 0)).unwrap();
    pool.unpin_write(slot, data);
    let page = Page::open(&mut pool, PageAddr::new(1, 0)).unwrap();
    assert_eq!(page.num_cells(), Err(StoreError::Corruption));
    assert_eq!(page.read_cell(0), Ok(&b""[..]));
    page.close(&mut pool);
}

#[test]
fn an_empty_cell_reads_as_no_bytes() {
    let mut pool = BufferPool::new();
    let addr = PageAddr::new(3, 0);
    let mut page = PageMut::open(&mut pool, addr).unwrap();
    assert_eq!(page.append_cell(b"ab"), Ok(()));
    assert_eq!(page.append_cell(b""), Ok(()));
    assert_eq!(page.append_cell(b"cde"), Ok(()));
    assert_eq!(page.num_cells(), Ok(3));
    assert_eq!(page.read_cell_pointer(1), Ok((PAGE_SIZE - 2, PAGE_SIZE - 2)));
    assert_eq!(page.read_cell(0), Ok(&b"ab"[..]));
    assert_eq!(page.read_cell(1), Ok(&b""[..]));
    assert_eq!(page.read_cell(2), Ok(&b"cde"[..]));
    page.close(&mut pool);
}

#[test]
fn a_cell_that_runs_past_the_page_is_corrupt() {
    let mut pool = BufferPool::new();
    let addr = PageAddr::new(3, 1);
    let mut page = PageMut::open(&mut pool, addr).unwrap();
    assert_eq!(page.append_cell(b"ab"), Ok(()));
    // The pointer of cell 0 now names a body of 10 bytes from the last two.
    page.data[6] = 10;
    page.data[7] = 0;
    assert_eq!(page.read_cell(0), Err(StoreError::Corruption));
    page.close(&mut pool);
}
