use thordb::bufferpool::{BufferPool, PageAddr, PinState};
use thordb::constants::{BUFFER_POOL_SIZE, PAGE_SIZE};
use thordb::error::StoreError;
use thordb::pagefile::{PageFile, PageFiles};

#[test]
fn test_buffer_pool_simple_read_write() {
    let mut pool = BufferPool::new();
    let page_addr = PageAddr::new(1, 0);

    // Write
    {
        let (slot, mut data) = pool.pin_write(page_addr).unwrap();
        data[0] = 42;
        pool.unpin_write(slot, data);
    }

    // Read
    {
        let slot = pool.pin_read(page_addr).unwrap();
        assert_eq!(pool.page_data(slot)[0], 42);
        pool.unpin_read(slot);
    }
}

#[test]
fn test_buffer_pool_eviction() {
    let mut pool = BufferPool::new();

    // Fill pool + trigger eviction
    for i in 0..BUFFER_POOL_SIZE + 10 {
        let page_addr = PageAddr::new(1, i as u64);
        let (slot, mut data) = pool.pin_write(page_addr).unwrap();
        data[0] = (i % 255) as u8;
        pool.unpin_write(slot, data);
    }

    assert!(pool.page_to_slot.len() <= BUFFER_POOL_SIZE);

    let page0 = PageAddr::new(1, 0);
    {
        let slot = pool.pin_read(page0).unwrap();
        assert_eq!(pool.page_data(slot)[0], 0);
        pool.unpin_read(slot);
    }
}

#[test]
fn evicted_pages_come_back_from_disk() {
    let mut pool = BufferPool::new();
    let count = BUFFER_POOL_SIZE + 10;
    for i in 0..count {
        let (slot, mut data) = pool.pin_write(PageAddr::new(3, i as u64)).unwrap();
        data[0] = (i + 1) as u8;
        data[PAGE_SIZE - 1] = (2 * i) as u8;
        pool.unpin_write(slot, data);
    }
    for i in 0..count {
        let slot = pool.pin_read(PageAddr::new(3, i as u64)).unwrap();
        assert_eq!(pool.page_data(slot)[0], (i + 1) as u8);
        assert_eq!(pool.page_data(slot)[PAGE_SIZE - 1], (2 * i) as u8);
        pool.unpin_read(slot);
    }
    // One page is in one slot at most.
    let mut seen = Vec::new();
    for i in 0..BUFFER_POOL_SIZE {
        let addr = pool.slots[i].page_address;
        if pool.page_to_slot.get(&(addr.file_id, addr.page_id)).map(|s| *s) == Some(i) {
            assert!(!seen.contains(&addr));
            seen.push(addr);
        }
    }
    assert_eq!(seen.len(), pool.page_to_slot.len());
}

#[test]
fn page_addresses() {
    let addr = PageAddr::new(7, 9);
    assert_eq!(addr.file_id, 7);
    assert_eq!(addr.page_id, 9);
    assert_eq!(addr.next_page(), PageAddr::new(7, 10));
    assert_eq!(addr.as_key(), (7, 9));
}

#[test]
fn reading_a_page_that_was_never_written_fails() {
    let mut pool = BufferPool::new();
    assert_eq!(pool.pin_read(PageAddr::new(1, 0)), Err(StoreError::Io));
}

#[test]
fn pins_are_counted() {
    let mut pool = BufferPool::new();
    let addr = PageAddr::new(1, 0);
    let (slot, data) = pool.pin_write(addr).unwrap();
    assert_eq!(data, vec![0u8; PAGE_SIZE]);
    assert_eq!(pool.pins[slot], PinState::Write);
    // A page that is held for writing cannot be pinned again.
    assert_eq!(pool.pin_read(addr), Err(StoreError::InvalidArgument));
    assert!(matches!(pool.pin_write(addr), Err(StoreError::InvalidArgument)));
    pool.unpin_write(slot, data);
    assert_eq!(pool.pins[slot], PinState::Unpinned);
    let first = pool.pin_read(addr).unwrap();
    let second = pool.pin_read(addr).unwrap();
    assert_eq!(first, second);
    assert_eq!(pool.pins[first], PinState::Read(2));
    assert!(matches!(pool.pin_write(addr), Err(StoreError::InvalidArgument)));
    pool.unpin_read(first);
    assert_eq!(pool.pins[first], PinState::Read(1));
    pool.unpin_read(first);
    assert_eq!(pool.pins[first], PinState::Unpinned);
    pool.unpin_read(first);
    assert_eq!(pool.pins[first], PinState::Unpinned);
    // An address beyond what a file can hold.
    assert_eq!(
        pool.pin_read(PageAddr::new(1, u64::MAX)),
        Err(StoreError::InvalidArgument)
    );
}

#[test]
fn a_pool_whose_slots_are_all_held_is_exhausted() {
    let mut pool = BufferPool::new();
    let mut held = Vec::new();
    for i in 0..BUFFER_POOL_SIZE {
        held.push(pool.pin_write(PageAddr::new(1, i as u64)).unwrap());
    }
    assert!(matches!(
        pool.pin_write(PageAddr::new(1, 1000)),
        Err(StoreError::Exhaustion)
    ));
    assert_eq!(pool.pin_read(PageAddr::new(1, 1000)), Err(StoreError::Exhaustion));
    let (slot, data) = held.pop().unwrap();
    pool.unpin_write(slot, data);
    assert!(pool.pin_write(PageAddr::new(1, 1000)).is_ok());
}

#[test]
fn flush_writes_dirty_pages_to_their_files() {
    let mut pool = BufferPool::new();
    let (slot, mut data) = pool.pin_write(PageAddr::new(4, 2)).unwrap();
    data[5] = 9;
    pool.unpin_write(slot, data);
    assert!(pool.page_files.file(4).is_none());
    pool.flush().unwrap();
    let file = pool.page_files.file(4).unwrap();
    assert_eq!(file.page_count(), 3);
    assert_eq!(file.pages[2][5], 9);
    assert_eq!(file.pages[0], vec![0u8; PAGE_SIZE]);
    assert_eq!(pool.page_files.ids(), &vec![4u64]);
    assert!(!pool.slots[slot].is_dirty);
}

#[test]
fn paged_files() {
    let mut file = PageFile::new();
    assert_eq!(file.page_count(), 0);
    let mut buffer = vec![7u8; PAGE_SIZE];
    assert_eq!(file.read_page(0, &mut buffer, false), Err(StoreError::Io));
    assert_eq!(buffer, vec![7u8; PAGE_SIZE]);
    assert_eq!(file.read_page(0, &mut buffer, true), Ok(()));
    assert_eq!(buffer, vec![0u8; PAGE_SIZE]);
    let page = vec![3u8; PAGE_SIZE];
    assert_eq!(file.write_page(1, &page), Ok(()));
    assert_eq!(file.page_count(), 2);
    assert_eq!(file.read_page(1, &mut buffer, false), Ok(()));
    assert_eq!(buffer, page);
    assert_eq!(file.read_page(0, &mut buffer, false), Ok(()));
    assert_eq!(buffer, vec![0u8; PAGE_SIZE]);

    let mut files = PageFiles::new();
    assert!(files.find(1).is_none());
    assert_eq!(files.insert(1, file), Ok(()));
    assert_eq!(files.insert(1, PageFile::new()), Err(StoreError::InvalidArgument));
    assert_eq!(files.find(1), Some(0));
    assert_eq!(files.read_page(PageAddr::new(1, 1), &mut buffer, false), Ok(()));
    assert_eq!(buffer, page);
    assert_eq!(
        files.read_page(PageAddr::new(2, 0), &mut buffer, false),
        Err(StoreError::Io)
    );
    assert_eq!(files.write_page(PageAddr::new(2, 0), &page), Ok(()));
    assert_eq!(files.ids(), &vec![1u64, 2]);
    let pool = BufferPool::with_files(files);
    assert_eq!(pool.page_files.file(2).unwrap().page_count(), 1);
}

#[test]
fn the_sweep_gives_a_second_chance() {
    let mut pool = BufferPool::new();
    for i in 0..BUFFER_POOL_SIZE {
        let (slot, data) = pool.pin_write(PageAddr::new(1, i as u64)).unwrap();
        assert_eq!(slot, i);
        pool.unpin_write(slot, data);
    }
    assert!(pool.slots_touched.iter().all(|t| *t));
    assert_eq!(pool.next_slot, 0);
    // Every flag is set: the first round clears them, the second takes
    // the slot at the cursor.
    let (slot, data) = pool.pin_write(PageAddr::new(1, 50)).unwrap();
    assert_eq!(slot, 0);
    pool.unpin_write(slot, data);
    assert_eq!(pool.next_slot, 1);
    assert!(pool.slots_touched[0]);
    assert!(pool.slots_touched[1..].iter().all(|t| !*t));
    let (slot, data) = pool.pin_write(PageAddr::new(1, 51)).unwrap();
    assert_eq!(slot, 1);
    pool.unpin_write(slot, data);
    // A page that was used since is passed over once.
    let hit = pool.pin_read(PageAddr::new(1, 2)).unwrap();
    assert_eq!(hit, 2);
    pool.unpin_read(hit);
    assert!(pool.slots_touched[2]);
    let held = pool.pin_read(PageAddr::new(1, 3)).unwrap();
    assert_eq!(held, 3);
    let (slot, data) = pool.pin_write(PageAddr::new(1, 52)).unwrap();
    // Slot 2 loses its flag, slot 3 loses its flag and is held: slot 4.
    assert_eq!(slot, 4);
    pool.unpin_write(slot, data);
    assert!(!pool.slots_touched[2]);
    assert!(!pool.slots_touched[3]);
    assert_eq!(pool.next_slot, 5);
    pool.unpin_read(held);
}

#[test]
fn files_are_found_by_their_ids() {
    let mut files = PageFiles::new();
    for id in [9u64, 3, 7] {
        let mut file = PageFile::new();
        file.write_page(0, &vec![id as u8; PAGE_SIZE]).unwrap();
        assert_eq!(files.insert(id, file), Ok(()));
    }
    assert_eq!(files.find(9), Some(0));
    assert_eq!(files.find(3), Some(1));
    assert_eq!(files.find(7), Some(2));
    assert_eq!(files.find(0), None);
    assert_eq!(files.find(1), None);
    assert_eq!(files.file(7).unwrap().pages[0][0], 7);
    let mut buffer = Vec::new();
    assert_eq!(files.read_page(PageAddr::new(3, 0), &mut buffer, false), Ok(()));
    assert_eq!(buffer, vec![3u8; PAGE_SIZE]);
    assert_eq!(files.ids(), &vec![9u64, 3, 7]);
}

#[test]
fn a_slot_is_taken_from_the_victim() {
    let mut pool = BufferPool::new();
    for i in 0..BUFFER_POOL_SIZE {
        let (slot, mut data) = pool.pin_write(PageAddr::new(1, i as u64)).unwrap();
        data[0] = i as u8 + 1;
        pool.unpin_write(slot, data);
    }
    // Every slot caches a dirty page: the sweep comes round to slot 0.
    let addr = PageAddr::new(1, 70);
    assert_eq!(pool.allocate_slot(&addr, true), Ok(0));
    assert_eq!(pool.slots[0].page_address, addr);
    assert!(pool.slots[0].is_dirty);
    assert_eq!(pool.slots[0].page_data, vec![0u8; PAGE_SIZE]);
    // The victim's page was written back and is cached no longer.
    assert_eq!(pool.page_files.file(1).unwrap().pages[0][0], 1);
    let slot = pool.pin_read(addr).unwrap();
    assert_eq!(slot, 0);
    pool.unpin_read(slot);
    let slot = pool.pin_read(PageAddr::new(1, 0)).unwrap();
    assert_ne!(slot, 0);
    assert_eq!(pool.page_data(slot)[0], 1);
    pool.unpin_read(slot);
    // A page that is not on disk is not loaded unless it may be made.
    assert_eq!(pool.allocate_slot(&PageAddr::new(8, 0), false), Err(StoreError::Io));
}
