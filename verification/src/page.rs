//! Slotted pages. A page starts with two 16-bit words, little-endian:
//! `free_start`, where the next cell pointer goes, and `free_end`, where the
//! last cell body starts. Cell pointers, four bytes each (body offset, body
//! length), follow the header in the order in which the cells were made;
//! cell bodies fill the page from its end downward.

use crate::bufferpool::{
    lemma_same_other_pages, lemma_same_pages, BufferPool, PageAddr, PinState,
};
use crate::bytes::copy_range;
use crate::constants::{BUFFER_POOL_SIZE, PAGE_SIZE};
use crate::error::StoreError;
use vstd::prelude::*;
use vstd::slice::{slice_subrange, slice_to_vec};

verus! {

/// Where `free_start` stands in a page.
pub const FREE_START_OFFSET_OFFSET: usize = 0;

/// Where `free_end` stands in a page.
pub const FREE_END_OFFSET_OFFSET: usize = 2;

/// Where the cell pointers start in a page.
pub const CELL_POINTERS_OFFSET: usize = 4;

/// Size of a cell pointer in bytes.
pub const CELL_POINTER_SIZE: usize = 4;

/// The 16-bit word at `offset`, little-endian.
pub open spec fn u16_at(data: Seq<u8>, offset: int) -> int {
    data[offset] as int + 256 * (data[offset + 1] as int)
}

/// `data` with the 16-bit word at `offset` set to `value`.
pub open spec fn with_u16(data: Seq<u8>, offset: int, value: u16) -> Seq<u8> {
    data.update(offset, (value % 256) as u8).update(offset + 1, (value / 256) as u8)
}

/// Where the next cell pointer goes.
pub open spec fn free_start(data: Seq<u8>) -> int {
    u16_at(data, 0)
}

/// Where the last cell body starts.
pub open spec fn free_end(data: Seq<u8>) -> int {
    u16_at(data, 2)
}

/// Whether the header words are in range: the pointer area and the bodies
/// do not cross and lie within the page.
pub open spec fn header_in_range(data: Seq<u8>) -> bool {
    data.len() >= 4 && 4 <= free_start(data) <= free_end(data) <= data.len()
}

/// Number of cells, as the header gives it.
pub open spec fn cell_count(data: Seq<u8>) -> int {
    (free_start(data) - 4) / 4
}

/// Where the body of cell `i` starts.
pub open spec fn cell_start(data: Seq<u8>, i: int) -> int {
    u16_at(data, 4 + 4 * i)
}

/// Length of the body of cell `i`.
pub open spec fn cell_len(data: Seq<u8>, i: int) -> int {
    u16_at(data, 4 + 4 * i + 2)
}

/// The body of cell `i`.
pub open spec fn cell(data: Seq<u8>, i: int) -> Seq<u8> {
    data.subrange(cell_start(data, i), cell_start(data, i) + cell_len(data, i))
}

/// Where the body of cell `i` must end: at the end of the page for the
/// first cell, and at the start of the cell before it for every other.
pub open spec fn cell_top(data: Seq<u8>, i: int) -> int {
    if i <= 0 {
        PAGE_SIZE as int
    } else {
        cell_start(data, i - 1)
    }
}

/// A well-formed page: it has the page size, its header is in range and
/// counts whole pointers, and the cell bodies lie one below the other from
/// the end of the page down to `free_end`.
pub open spec fn page_wf(data: Seq<u8>) -> bool {
    &&& data.len() == PAGE_SIZE
    &&& header_in_range(data)
    &&& (free_start(data) - 4) % 4 == 0
    &&& free_end(data) == cell_top(data, cell_count(data))
    &&& forall|i: int|
        0 <= i < cell_count(data) ==> free_end(data) <= #[trigger] cell_start(data, i)
            && cell_start(data, i) + cell_len(data, i) == cell_top(data, i)
}

/// An empty page: the header of a page without cells, and zeros after it.
pub open spec fn initialized(data: Seq<u8>) -> Seq<u8> {
    with_u16(with_u16(data, 0, 4), 2, PAGE_SIZE as u16)
}

/// `data` after a cell of `len` bytes is allocated: a pointer to the new
/// body is written at `free_start`, and both header words move.
pub open spec fn allocated(data: Seq<u8>, len: int) -> Seq<u8> {
    let fs = free_start(data);
    let fe = free_end(data);
    with_u16(
        with_u16(
            with_u16(with_u16(data, fs, (fe - len) as u16), fs + 2, len as u16),
            0,
            (fs + 4) as u16,
        ),
        2,
        (fe - len) as u16,
    )
}

/// `data` with `bytes` written from `offset` on.
pub open spec fn with_bytes(data: Seq<u8>, offset: int, bytes: Seq<u8>) -> Seq<u8> {
    Seq::new(
        data.len(),
        |i: int|
            if offset <= i < offset + bytes.len() {
                bytes[i - offset]
            } else {
                data[i]
            },
    )
}

/// Whether a page with this header has room for a cell of `len` bytes and
/// its pointer.
pub open spec fn has_space(data: Seq<u8>, len: int) -> bool {
    free_end(data) - free_start(data) >= len + 4
}

/// Setting a word changes the word, and no byte outside it.
pub proof fn lemma_with_u16(data: Seq<u8>, offset: int, value: u16)
    requires
        0 <= offset,
        offset + 2 <= data.len(),
    ensures
        with_u16(data, offset, value).len() == data.len(),
        u16_at(with_u16(data, offset, value), offset) == value,
        forall|o: int|
            0 <= o && o + 2 <= data.len() && (o + 2 <= offset || offset + 2 <= o) ==> #[trigger] u16_at(
                with_u16(data, offset, value),
                o,
            ) == u16_at(data, o),
        forall|i: int|
            0 <= i < data.len() && (i < offset || i >= offset + 2) ==> #[trigger] with_u16(
                data,
                offset,
                value,
            )[i] == data[i],
{
}

/// In a well-formed page the cells lie in the order of their numbers, the
/// later the lower, so no two of them overlap.
pub proof fn lemma_cells_disjoint(data: Seq<u8>, i: int, j: int)
    requires
        page_wf(data),
        0 <= i < j < cell_count(data),
    ensures
        cell_start(data, j) + cell_len(data, j) <= cell_start(data, i),
        free_end(data) <= cell_start(data, j),
        cell_start(data, i) + cell_len(data, i) <= PAGE_SIZE,
    decreases j - i,
{
    assert(cell_start(data, j) + cell_len(data, j) == cell_top(data, j));
    assert(cell_start(data, i) + cell_len(data, i) == cell_top(data, i));
    if j > i + 1 {
        lemma_cells_disjoint(data, i, j - 1);
        assert(cell_len(data, j - 1) >= 0);
    }
    if i > 0 {
        lemma_cell_tops(data, i);
    }
}

proof fn lemma_cell_tops(data: Seq<u8>, i: int)
    requires
        page_wf(data),
        0 <= i < cell_count(data),
    ensures
        cell_start(data, i) + cell_len(data, i) <= PAGE_SIZE,
        cell_top(data, i) <= PAGE_SIZE,
    decreases i,
{
    assert(cell_start(data, i) + cell_len(data, i) == cell_top(data, i));
    if i > 0 {
        lemma_cell_tops(data, i - 1);
        assert(cell_len(data, i - 1) >= 0);
    }
}

/// Reading a page laid out in slots.
pub trait PageRead {
    /// The page's bytes.
    spec fn bytes(&self) -> Seq<u8>;

    fn page_data(&self) -> (data: &[u8])
        ensures
            data@ == self.bytes(),
    ;

    /// The 16-bit word at `offset`.
    fn read_u16(&self, offset: usize) -> (res: Result<u16, StoreError>)
        ensures
            offset + 2 <= self.bytes().len() ==> res is Ok && res.unwrap() == u16_at(
                self.bytes(),
                offset as int,
            ),
            offset + 2 > self.bytes().len() ==> res == Err::<u16, StoreError>(
                StoreError::InvalidArgument,
            ),
    {
        let data = self.page_data();
        if offset > data.len() || data.len() - offset < 2 {
            return Err(StoreError::InvalidArgument);
        }
        let low: u16 = data[offset] as u16;
        let high: u16 = data[offset + 1] as u16;
        Ok(low + 256 * high)
    }

    /// Where the body of cell `entry_index` starts and ends, taken from its
    /// pointer. Fails where the pointer lies outside the page, or names a
    /// body that runs past the page. A body may be empty.
    fn read_cell_pointer(&self, entry_index: usize) -> (res: Result<(usize, usize), StoreError>)
        ensures
            match res {
                Ok((start, end)) => {
                    &&& 4 + 4 * entry_index + 4 <= self.bytes().len()
                    &&& start == cell_start(self.bytes(), entry_index as int)
                    &&& end == start + cell_len(self.bytes(), entry_index as int)
                    &&& start <= end <= self.bytes().len()
                    &&& end <= PAGE_SIZE
                },
                Err(e) => if 4 + 4 * entry_index + 4 > self.bytes().len() {
                    e == StoreError::InvalidArgument
                } else {
                    e == StoreError::Corruption && !(cell_start(self.bytes(), entry_index as int)
                        + cell_len(self.bytes(), entry_index as int) <= self.bytes().len()
                        && cell_start(self.bytes(), entry_index as int) + cell_len(
                        self.bytes(),
                        entry_index as int,
                    ) <= PAGE_SIZE)
                },
            },
    {
        let len = self.page_data().len();
        if len < 8 || entry_index > (len - 8) / 4 {
            return Err(StoreError::InvalidArgument);
        }
        let cell_pointer_offset: usize = CELL_POINTERS_OFFSET + entry_index * CELL_POINTER_SIZE;
        let cell_start_offset: usize = match self.read_u16(cell_pointer_offset) {
            Ok(v) => v as usize,
            Err(e) => {
                return Err(e);
            },
        };
        let cell_length: usize = match self.read_u16(cell_pointer_offset + 2) {
            Ok(v) => v as usize,
            Err(e) => {
                return Err(e);
            },
        };
        let cell_end_offset: usize = cell_start_offset + cell_length;
        if !(cell_start_offset <= cell_end_offset && cell_end_offset <= PAGE_SIZE
            && cell_end_offset <= len) {
            return Err(StoreError::Corruption);
        }
        Ok((cell_start_offset, cell_end_offset))
    }

    /// The body of cell `entry_index`: the bytes that its pointer names,
    /// none for an empty cell.
    fn read_cell(&self, entry_index: usize) -> (res: Result<&[u8], StoreError>)
        ensures
            match res {
                Ok(body) => {
                    &&& 4 + 4 * entry_index + 4 <= self.bytes().len()
                    &&& body@ == cell(self.bytes(), entry_index as int)
                    &&& cell_start(self.bytes(), entry_index as int) + cell_len(
                        self.bytes(),
                        entry_index as int,
                    ) <= PAGE_SIZE
                    &&& cell_start(self.bytes(), entry_index as int) + cell_len(
                        self.bytes(),
                        entry_index as int,
                    ) <= self.bytes().len()
                },
                Err(e) => if 4 + 4 * entry_index + 4 > self.bytes().len() {
                    e == StoreError::InvalidArgument
                } else {
                    e == StoreError::Corruption && !(cell_start(self.bytes(), entry_index as int)
                        + cell_len(self.bytes(), entry_index as int) <= self.bytes().len()
                        && cell_start(self.bytes(), entry_index as int) + cell_len(
                        self.bytes(),
                        entry_index as int,
                    ) <= PAGE_SIZE)
                },
            },
    {
        let (cell_start_offset, cell_end_offset) = match self.read_cell_pointer(entry_index) {
            Ok(pair) => pair,
            Err(e) => {
                return Err(e);
            },
        };
        Ok(slice_subrange(self.page_data(), cell_start_offset, cell_end_offset))
    }

    /// Number of cells on the page. Fails where the header is out of range.
    fn num_cells(&self) -> (res: Result<usize, StoreError>)
        ensures
            header_in_range(self.bytes()) ==> res is Ok && res.unwrap() == cell_count(self.bytes()),
            !header_in_range(self.bytes()) ==> res == Err::<usize, StoreError>(
                StoreError::Corruption,
            ),
    {
        let len = self.page_data().len();
        if len < 4 {
            return Err(StoreError::Corruption);
        }
        let free_start_offset: usize = match self.read_u16(FREE_START_OFFSET_OFFSET) {
            Ok(v) => v as usize,
            Err(e) => {
                return Err(StoreError::Corruption);
            },
        };
        let free_end_offset: usize = match self.read_u16(FREE_END_OFFSET_OFFSET) {
            Ok(v) => v as usize,
            Err(e) => {
                return Err(StoreError::Corruption);
            },
        };
        if free_start_offset < CELL_POINTERS_OFFSET || free_start_offset > free_end_offset
            || free_end_offset > len {
            return Err(StoreError::Corruption);
        }
        Ok((free_start_offset - CELL_POINTERS_OFFSET) / CELL_POINTER_SIZE)
    }
}

/// A page pinned for reading: the slot that holds the pin, and the page's
/// image as it stood when the pin was taken.
pub struct Page {
    pub slot: usize,
    pub addr: PageAddr,
    pub data: Vec<u8>,
}

/// A page pinned for writing: the slot that holds the pin, and the page's
/// image, which goes back into the slot when the page is closed.
pub struct PageMut {
    pub slot: usize,
    pub addr: PageAddr,
    pub data: Vec<u8>,
}

impl PageRead for Page {
    open spec fn bytes(&self) -> Seq<u8> {
        self.data@
    }

    fn page_data(&self) -> (data: &[u8]) {
        self.data.as_slice()
    }
}

impl PageRead for PageMut {
    open spec fn bytes(&self) -> Seq<u8> {
        self.data@
    }

    fn page_data(&self) -> (data: &[u8]) {
        self.data.as_slice()
    }
}

impl Page {
    /// Whether this is a read pin that `pool` knows of, with the page's
    /// image.
    pub open spec fn held_in(&self, pool: &BufferPool) -> bool {
        &&& self.slot < BUFFER_POOL_SIZE
        &&& pool.pins[self.slot as int] is Read
        &&& pool.slots[self.slot as int].page_address == self.addr
        &&& pool.slots[self.slot as int].page_data@ == self.data@
        &&& self.data.len() == PAGE_SIZE
    }

    /// Pins the page for reading.
    pub fn open(buffer_pool: &mut BufferPool, page_address: PageAddr) -> (res: Result<
        Self,
        StoreError,
    >)
        requires
            old(buffer_pool).wf(),
        ensures
            final(buffer_pool).wf(),
            final(buffer_pool).keeps_pages_of(old(buffer_pool)),
            final(buffer_pool).pages() == old(buffer_pool).pages(),
            match res {
                Ok(page) => {
                    &&& page.held_in(final(buffer_pool))
                    &&& page.addr == page_address
                    &&& page.data@ == old(buffer_pool).page(page_address)
                    &&& final(buffer_pool).keeps_pins_of(old(buffer_pool), page.slot as int)
                    &&& final(buffer_pool).pins[page.slot as int] == PinState::Read(
                        (old(buffer_pool).readers(page.slot as int) + 1) as usize,
                    )
                    &&& old(buffer_pool).pinned(page.slot as int) ==> final(buffer_pool).slots[page.slot as int] == old(buffer_pool).slots[page.slot as int]
                    &&& old(buffer_pool).pins[page.slot as int] != PinState::Read(0)
                    &&& !(old(buffer_pool).pins[page.slot as int] is Write)
                    &&& old(buffer_pool).readers(page.slot as int) < usize::MAX
                },
                Err(e) => final(buffer_pool).keeps_pins_of(old(buffer_pool), -1),
            },
            old(buffer_pool).read_refusal(page_address) matches Some(e) ==> res is Err
                && res->Err_0 == e,
            old(buffer_pool).read_refusal(page_address) is None ==> (res is Ok <==> old(buffer_pool).cached(page_address) || final(buffer_pool).on_disk(page_address)) && (res is Err
                ==> res->Err_0 == StoreError::Io),
    {
        let slot = match buffer_pool.pin_read(page_address) {
            Ok(slot) => slot,
            Err(e) => {
                proof {
                    lemma_same_pages(buffer_pool, old(buffer_pool));
                }
                return Err(e);
            },
        };
        let data = slice_to_vec(buffer_pool.page_data(slot));
        proof {
            lemma_same_pages(buffer_pool, old(buffer_pool));
        }
        Ok(Page { slot, addr: page_address, data })
    }

    /// Gives the pin back.
    pub fn close(self, buffer_pool: &mut BufferPool)
        requires
            old(buffer_pool).wf(),
        ensures
            final(buffer_pool).wf(),
            final(buffer_pool).keeps_pages_of(old(buffer_pool)),
            final(buffer_pool).pages() == old(buffer_pool).pages(),
            final(buffer_pool).slots == old(buffer_pool).slots,
            final(buffer_pool).keeps_pins_of(old(buffer_pool), self.slot as int),
            self.slot < BUFFER_POOL_SIZE ==> final(buffer_pool).pins[self.slot as int] == (
            match old(buffer_pool).pins[self.slot as int] {
                PinState::Read(n) => if n == 1 {
                    PinState::Unpinned
                } else {
                    PinState::Read((n - 1) as usize)
                },
                other => other,
            }),
    {
        buffer_pool.unpin_read(self.slot);
        proof {
            lemma_same_pages(buffer_pool, old(buffer_pool));
        }
    }
}

impl PageMut {
    /// Whether this is the write pin that `pool` knows of, with an image
    /// of the page size.
    pub open spec fn held_in(&self, pool: &BufferPool) -> bool {
        &&& self.slot < BUFFER_POOL_SIZE
        &&& pool.pins[self.slot as int] is Write
        &&& pool.slots[self.slot as int].page_address == self.addr
        &&& self.data.len() == PAGE_SIZE
    }

    /// Pins the page for writing. A page whose header words are both zero
    /// was never written: it is made an empty page.
    pub fn open(buffer_pool: &mut BufferPool, page_address: PageAddr) -> (res: Result<
        Self,
        StoreError,
    >)
        requires
            old(buffer_pool).wf(),
        ensures
            final(buffer_pool).wf(),
            final(buffer_pool).keeps_other_pages_of(old(buffer_pool), page_address),
            final(buffer_pool).pages() == old(buffer_pool).pages().insert(
                page_address,
                final(buffer_pool).page(page_address),
            ),
            match res {
                Ok(page) => {
                    let before = old(buffer_pool).page(page_address);
                    &&& page.held_in(final(buffer_pool))
                    &&& !old(buffer_pool).pinned(page.slot as int)
                    &&& page.addr == page_address
                    &&& page.data@ == (if free_start(before) == 0 && free_end(before) == 0 {
                        initialized(before)
                    } else {
                        before
                    })
                    &&& final(buffer_pool).keeps_pins_of(old(buffer_pool), page.slot as int)
                },
                Err(e) => final(buffer_pool).keeps_pins_of(old(buffer_pool), -1) && final(buffer_pool).page(page_address) == old(buffer_pool).page(page_address),
            },
            match old(buffer_pool).write_refusal(page_address) {
                Some(e) => res is Err && res->Err_0 == e,
                None => res is Ok,
            },
    {
        let pinned = buffer_pool.pin_write(page_address);
        proof {
            lemma_same_other_pages(buffer_pool, old(buffer_pool), page_address);
        }
        let (slot, data) = match pinned {
            Ok(pair) => pair,
            Err(e) => {
                return Err(e);
            },
        };
        let mut page = PageMut { slot, addr: page_address, data };
        let free_start_word = page.read_u16(FREE_START_OFFSET_OFFSET);
        let free_end_word = page.read_u16(FREE_END_OFFSET_OFFSET);
        match (free_start_word, free_end_word) {
            (Ok(a), Ok(b)) => {
                if a == 0 && b == 0 {
                    let _ = page.init();
                }
            },
            _ => {},
        }
        Ok(page)
    }

    /// Gives the pin back: the image becomes the page.
    pub fn close(self, buffer_pool: &mut BufferPool)
        requires
            old(buffer_pool).wf(),
            self.held_in(old(buffer_pool)),
        ensures
            final(buffer_pool).wf(),
            final(buffer_pool).keeps_pins_of(old(buffer_pool), self.slot as int),
            final(buffer_pool).pins[self.slot as int] == PinState::Unpinned,
            final(buffer_pool).page(self.addr) == self.data@,
            final(buffer_pool).cached(self.addr),
            final(buffer_pool).keeps_other_pages_of(old(buffer_pool), self.addr),
            final(buffer_pool).pages() == old(buffer_pool).pages().insert(self.addr, self.data@),
    {
        buffer_pool.unpin_write(self.slot, self.data);
        proof {
            lemma_same_other_pages(buffer_pool, old(buffer_pool), self.addr);
        }
    }

    /// Makes the page an empty page, whatever it held.
    pub fn init(&mut self) -> (res: Result<(), StoreError>)
        requires
            old(self).data.len() == PAGE_SIZE,
        ensures
            res is Ok,
            final(self).data@ == initialized(old(self).data@),
            final(self).slot == old(self).slot,
            final(self).addr == old(self).addr,
    {
        let _ = self.write_u16(FREE_START_OFFSET_OFFSET, CELL_POINTERS_OFFSET as u16);
        let _ = self.write_u16(FREE_END_OFFSET_OFFSET, PAGE_SIZE as u16);
        Ok(())
    }

    /// Sets the 16-bit word at `offset`.
    fn write_u16(&mut self, offset: usize, value: u16) -> (res: Result<(), StoreError>)
        requires
            offset + 2 <= old(self).data.len(),
        ensures
            res is Ok,
            final(self).data@ == with_u16(old(self).data@, offset as int, value),
            final(self).slot == old(self).slot,
            final(self).addr == old(self).addr,
    {
        self.data.set(offset, (value % 256) as u8);
        self.data.set(offset + 1, (value / 256) as u8);
        Ok(())
    }

    /// Whether the page has room for a cell of `len` bytes and its pointer.
    /// Fails where the header is out of range.
    pub fn has_space_for_cell(&self, len: usize) -> (res: Result<bool, StoreError>)
        ensures
            header_in_range(self.data@) ==> res is Ok && res.unwrap() == has_space(
                self.data@,
                len as int,
            ),
            !header_in_range(self.data@) ==> res == Err::<bool, StoreError>(StoreError::Corruption),
    {
        let size = self.data.len();
        if size < 4 {
            return Err(StoreError::Corruption);
        }
        let free_start_offset: usize = match self.read_u16(FREE_START_OFFSET_OFFSET) {
            Ok(v) => v as usize,
            Err(e) => {
                return Err(StoreError::Corruption);
            },
        };
        let free_end_offset: usize = match self.read_u16(FREE_END_OFFSET_OFFSET) {
            Ok(v) => v as usize,
            Err(e) => {
                return Err(StoreError::Corruption);
            },
        };
        if free_start_offset < CELL_POINTERS_OFFSET || free_start_offset > free_end_offset
            || free_end_offset > size {
            return Err(StoreError::Corruption);
        }
        let free: usize = free_end_offset - free_start_offset;
        Ok(free >= CELL_POINTER_SIZE && free - CELL_POINTER_SIZE >= len)
    }

    /// Makes a new cell with a body of `cell_len` bytes and returns where
    /// the body starts. The cells made before keep their numbers and their
    /// bodies. Fails where the header is out of range, or the page has no
    /// room for the cell.
    pub fn allocate_cell(&mut self, cell_len: usize) -> (res: Result<usize, StoreError>)
        requires
            old(self).data.len() == PAGE_SIZE,
        ensures
            final(self).slot == old(self).slot,
            final(self).addr == old(self).addr,
            match res {
                Ok(start) => {
                    &&& header_in_range(old(self).data@)
                    &&& has_space(old(self).data@, cell_len as int)
                    &&& start == free_end(old(self).data@) - cell_len
                    &&& final(self).data@ == allocated(old(self).data@, cell_len as int)
                },
                Err(e) => final(self).data@ == old(self).data@ && if header_in_range(
                    old(self).data@,
                ) {
                    e == StoreError::InvalidArgument && !has_space(old(self).data@, cell_len as int)
                } else {
                    e == StoreError::Corruption
                },
            },
    {
        match self.has_space_for_cell(cell_len) {
            Ok(true) => {},
            Ok(false) => {
                return Err(StoreError::InvalidArgument);
            },
            Err(e) => {
                return Err(e);
            },
        }
        let free_start_offset: usize = match self.read_u16(FREE_START_OFFSET_OFFSET) {
            Ok(v) => v as usize,
            Err(e) => {
                return Err(e);
            },
        };
        let free_end_offset: usize = match self.read_u16(FREE_END_OFFSET_OFFSET) {
            Ok(v) => v as usize,
            Err(e) => {
                return Err(e);
            },
        };
        let body_start: usize = free_end_offset - cell_len;
        let _ = self.write_u16(free_start_offset, body_start as u16);
        let _ = self.write_u16(free_start_offset + 2, cell_len as u16);
        let _ = self.write_u16(
            FREE_START_OFFSET_OFFSET,
            (free_start_offset + CELL_POINTER_SIZE) as u16,
        );
        let _ = self.write_u16(FREE_END_OFFSET_OFFSET, body_start as u16);
        Ok(body_start)
    }

    /// Makes a new cell that holds `payload`. Fails where the header is out
    /// of range, or the page has no room for the cell.
    pub fn append_cell(&mut self, payload: &[u8]) -> (res: Result<(), StoreError>)
        requires
            old(self).data.len() == PAGE_SIZE,
        ensures
            final(self).slot == old(self).slot,
            final(self).addr == old(self).addr,
            match res {
                Ok(()) => {
                    &&& header_in_range(old(self).data@)
                    &&& has_space(old(self).data@, payload.len() as int)
                    &&& final(self).data@ == with_bytes(
                        allocated(old(self).data@, payload.len() as int),
                        free_end(old(self).data@) - payload.len(),
                        payload@,
                    )
                },
                Err(e) => final(self).data@ == old(self).data@ && if header_in_range(
                    old(self).data@,
                ) {
                    e == StoreError::InvalidArgument && !has_space(
                        old(self).data@,
                        payload.len() as int,
                    )
                } else {
                    e == StoreError::Corruption
                },
            },
    {
        let start: usize = match self.allocate_cell(payload.len()) {
            Ok(start) => start,
            Err(e) => {
                return Err(e);
            },
        };
        let ghost base = self.data@;
        proof {
            lemma_allocated_len(old(self).data@, payload.len() as int);
        }
        let mut i: usize = 0;
        while i < payload.len()
            invariant
                i <= payload.len(),
                start + payload.len() <= PAGE_SIZE,
                self.data.len() == PAGE_SIZE,
                base.len() == PAGE_SIZE,
                self.slot == old(self).slot,
                self.addr == old(self).addr,
                self.data@ == with_bytes(base, start as int, payload@.take(i as int)),
            decreases payload.len() - i,
        {
            self.data.set(start + i, payload[i]);
            i += 1;
            assert(self.data@ =~= with_bytes(base, start as int, payload@.take(i as int)));
        }
        assert(payload@.take(i as int) =~= payload@);
        Ok(())
    }
}

/// Allocating keeps the page's size.
pub proof fn lemma_allocated_len(data: Seq<u8>, len: int)
    requires
        data.len() == PAGE_SIZE,
        header_in_range(data),
        has_space(data, len),
        len >= 0,
    ensures
        allocated(data, len).len() == PAGE_SIZE,
        free_end(data) - len + len <= PAGE_SIZE,
{
}

/// An initialized page is well formed and has no cells.
pub proof fn lemma_initialized(data: Seq<u8>)
    requires
        data.len() == PAGE_SIZE,
    ensures
        page_wf(initialized(data)),
        cell_count(initialized(data)) == 0,
        free_start(initialized(data)) == 4,
        free_end(initialized(data)) == PAGE_SIZE,
        forall|i: int| 4 <= i < PAGE_SIZE ==> #[trigger] initialized(data)[i] == data[i],
{
    lemma_with_u16(data, 0, 4);
    lemma_with_u16(with_u16(data, 0, 4), 2, PAGE_SIZE as u16);
}

/// The bytes of a page after a cell was allocated: the four words that
/// were written, and every other byte as before.
pub proof fn lemma_allocated(data: Seq<u8>, len: int)
    requires
        data.len() == PAGE_SIZE,
        header_in_range(data),
        has_space(data, len),
        len >= 0,
    ensures
        ({
            let after = allocated(data, len);
            let fs = free_start(data);
            let fe = free_end(data);
            &&& after.len() == PAGE_SIZE
            &&& u16_at(after, 0) == fs + 4
            &&& u16_at(after, 2) == fe - len
            &&& u16_at(after, fs) == fe - len
            &&& u16_at(after, fs + 2) == len
            &&& forall|i: int|
                4 <= i < PAGE_SIZE && !(fs <= i < fs + 4) ==> #[trigger] after[i] == data[i]
        }),
{
    let fs = free_start(data);
    let fe = free_end(data);
    let d1 = with_u16(data, fs, (fe - len) as u16);
    let d2 = with_u16(d1, fs + 2, len as u16);
    let d3 = with_u16(d2, 0, (fs + 4) as u16);
    let d4 = with_u16(d3, 2, (fe - len) as u16);
    lemma_with_u16(data, fs, (fe - len) as u16);
    lemma_with_u16(d1, fs + 2, len as u16);
    lemma_with_u16(d2, 0, (fs + 4) as u16);
    lemma_with_u16(d3, 2, (fe - len) as u16);
    assert(u16_at(d2, fs) == u16_at(d1, fs));
    assert(u16_at(d3, fs) == u16_at(d2, fs));
    assert(u16_at(d4, fs) == u16_at(d3, fs));
    assert(u16_at(d3, fs + 2) == u16_at(d2, fs + 2));
    assert(u16_at(d4, fs + 2) == u16_at(d3, fs + 2));
    assert(u16_at(d4, 0) == u16_at(d3, 0));
    assert forall|i: int| 4 <= i < PAGE_SIZE && !(fs <= i < fs + 4) implies #[trigger] d4[i]
        == data[i] by {
        assert(d4[i] == d3[i]);
        assert(d3[i] == d2[i]);
        assert(d2[i] == d1[i]);
        assert(d1[i] == data[i]);
    }
}

/// A word reads the same in two pages that agree on its two bytes.
proof fn lemma_same_word(a: Seq<u8>, b: Seq<u8>, offset: int)
    requires
        a[offset] == b[offset],
        a[offset + 1] == b[offset + 1],
    ensures
        u16_at(a, offset) == u16_at(b, offset),
{
}

/// What appending a cell does to a well-formed page: the page stays well
/// formed, the new cell is the last one and holds the payload, and every
/// cell made before is as it was.
#[verifier::rlimit(60)]
pub proof fn lemma_append_cell(data: Seq<u8>, payload: Seq<u8>)
    requires
        page_wf(data),
        has_space(data, payload.len() as int),
    ensures
        ({
            let after = with_bytes(
                allocated(data, payload.len() as int),
                free_end(data) - payload.len(),
                payload,
            );
            &&& page_wf(after)
            &&& cell_count(after) == cell_count(data) + 1
            &&& free_start(after) == free_start(data) + 4
            &&& free_end(after) == free_end(data) - payload.len()
            &&& cell(after, cell_count(data)) == payload
            &&& cell_start(after, cell_count(data)) == free_end(data) - payload.len()
            &&& cell_len(after, cell_count(data)) == payload.len()
            &&& forall|i: int|
                0 <= i < cell_count(data) ==> #[trigger] cell_start(after, i) == cell_start(data, i)
                    && cell_len(after, i) == cell_len(data, i) && cell(after, i) == cell(data, i)
        }),
{
    let len = payload.len() as int;
    let fs = free_start(data);
    let fe = free_end(data);
    let n = cell_count(data);
    let d4 = allocated(data, len);
    let start = fe - len;
    let after = with_bytes(d4, start, payload);
    assert(fs == 4 + 4 * n);
    lemma_allocated(data, len);
    assert(after.len() == PAGE_SIZE);
    assert forall|i: int| 0 <= i < fs + 4 implies #[trigger] after[i] == d4[i] by {}
    lemma_same_word(after, d4, 0);
    lemma_same_word(after, d4, 2);
    lemma_same_word(after, d4, fs);
    lemma_same_word(after, d4, fs + 2);
    assert(cell_count(after) == n + 1);
    assert(cell_start(after, n) == start);
    assert(cell_len(after, n) == len);
    assert(cell(after, n) =~= payload);
    assert forall|i: int| 0 <= i < n implies #[trigger] cell_start(after, i) == cell_start(data, i)
        && cell_len(after, i) == cell_len(data, i) && cell(after, i) == cell(data, i) by {
        let o = 4 + 4 * i;
        assert(after[o] == d4[o] && d4[o] == data[o]);
        assert(after[o + 1] == d4[o + 1] && d4[o + 1] == data[o + 1]);
        assert(after[o + 2] == d4[o + 2] && d4[o + 2] == data[o + 2]);
        assert(after[o + 3] == d4[o + 3] && d4[o + 3] == data[o + 3]);
        lemma_same_word(after, data, o);
        lemma_same_word(after, data, o + 2);
        assert(fe <= cell_start(data, i));
        lemma_cell_tops(data, i);
        let cs = cell_start(data, i);
        let cl = cell_len(data, i);
        assert forall|k: int| cs <= k < cs + cl implies after[k] == data[k] by {
            assert(after[k] == d4[k]);
            assert(d4[k] == data[k]);
        }
        assert(cell(after, i) =~= cell(data, i));
    }
    assert forall|i: int| 0 <= i < cell_count(after) implies free_end(after) <= #[trigger] cell_start(
        after,
        i,
    ) && cell_start(after, i) + cell_len(after, i) == cell_top(after, i) by {
        if i < n {
            assert(cell_start(after, i) == cell_start(data, i));
            if i > 0 {
                assert(cell_start(after, i - 1) == cell_start(data, i - 1));
            }
        } else {
            if n > 0 {
                assert(cell_start(after, n - 1) == cell_start(data, n - 1));
            }
        }
    }
}

/// Allocating a cell keeps a page well formed: the header words stay in
/// range, with `free_start` not above `free_end`, the new cell is the last
/// one and has the length asked for, and every cell made before keeps its
/// place and its body.
pub proof fn lemma_allocate_cell(data: Seq<u8>, len: int)
    requires
        page_wf(data),
        0 <= len,
        has_space(data, len),
    ensures
        page_wf(allocated(data, len)),
        free_start(allocated(data, len)) <= free_end(allocated(data, len)),
        cell_count(allocated(data, len)) == cell_count(data) + 1,
        cell_len(allocated(data, len), cell_count(data)) == len,
        forall|i: int|
            0 <= i < cell_count(data) ==> #[trigger] cell(allocated(data, len), i) == cell(data, i),
{
    let after = allocated(data, len);
    lemma_allocated(data, len);
    let start = free_end(data) - len;
    let body = after.subrange(start, start + len);
    assert(with_bytes(after, start, body) =~= after);
    lemma_append_cell(data, body);
}

/// Every cell of a well-formed page can be read: its pointer and its body
/// lie on the page. With `lemma_append_cell` this says that reading a cell
/// gives the bytes that were written to it, none for an empty cell,
/// whatever cells were made after it.
pub proof fn lemma_cells_readable(data: Seq<u8>, i: int)
    requires
        page_wf(data),
        0 <= i < cell_count(data),
    ensures
        4 + 4 * i + 4 <= data.len(),
        0 <= cell_len(data, i),
        cell_start(data, i) + cell_len(data, i) <= PAGE_SIZE,
        cell_start(data, i) + cell_len(data, i) <= data.len(),
{
    lemma_cell_tops(data, i);
}

} // verus!
