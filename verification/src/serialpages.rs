//! Tuples written to the pages of a file one after another, and read back
//! in that order.

use crate::bufferpool::{
    lemma_read_cycle, lemma_same_as, lemma_same_as_intro, BufferPool, PageAddr,
};
use crate::constants::{BUFFER_POOL_SIZE, PAGE_SIZE};
use crate::error::StoreError;
use crate::page::{
    allocated, cell, cell_len, cell_start, free_end, free_start, has_space, header_in_range,
    initialized, with_bytes, Page, PageMut, PageRead,
};
use crate::pagefile::{page_id_valid, zero_page};
use crate::tuple::tuple::{tuple_bytes, value_views, Tuple};
use vstd::prelude::*;
use vstd::slice::slice_to_vec;

verus! {

/// Writes tuples to a page, and to the pages that follow it once it is
/// full.
pub struct SerialWriter {
    pub page_writer: PageMut,
    pub page_address: PageAddr,
}

/// Reads the tuples of the pages from one address to another.
pub struct SerialReader {
    pub page_reader: Page,
    pub page_address: PageAddr,
    pub end_page_address: PageAddr,
    pub num_cells_in_page: usize,
    pub current_cell_index: usize,
}

/// What reading cell `i` of a page gives: the cell's body; or why it
/// cannot be read: the cell's pointer lies outside the page, or names a
/// body that runs past the page.
pub open spec fn cell_read(data: Seq<u8>, i: int) -> Result<Seq<u8>, StoreError> {
    if 4 + 4 * i + 4 > data.len() {
        Err(StoreError::InvalidArgument)
    } else if cell_start(data, i) + cell_len(data, i) <= data.len() && cell_start(data, i)
        + cell_len(data, i) <= PAGE_SIZE {
        Ok(cell(data, i))
    } else {
        Err(StoreError::Corruption)
    }
}

/// The bytes that were read, as plain data.
pub open spec fn bytes_read(res: Result<Vec<u8>, StoreError>) -> Result<Seq<u8>, StoreError> {
    match res {
        Ok(bytes) => Ok(bytes@),
        Err(e) => Err(e),
    }
}

impl SerialWriter {
    /// Whether the writer holds the page at its address.
    pub open spec fn wf(&self, pool: &BufferPool) -> bool {
        &&& pool.wf()
        &&& self.page_writer.held_in(pool)
        &&& self.page_writer.addr == self.page_address
    }

    /// A page as it is when it is opened for writing: made an empty page
    /// where it was never written.
    pub open spec fn opened(page: Seq<u8>) -> Seq<u8> {
        if free_start(page) == 0 && free_end(page) == 0 {
            initialized(page)
        } else {
            page
        }
    }

    /// A writer that starts on the page at `page_address`.
    pub fn new(buffer_pool: &mut BufferPool, page_address: PageAddr) -> (res: Result<
        Self,
        StoreError,
    >)
        requires
            old(buffer_pool).wf(),
        ensures
            final(buffer_pool).wf(),
            res matches Ok(writer) ==> writer.wf(final(buffer_pool)) && writer.page_address
                == page_address && writer.page_writer.data@ == Self::opened(
                old(buffer_pool).page(page_address),
            ),
            match old(buffer_pool).write_refusal(page_address) {
                Some(e) => res is Err && res->Err_0 == e,
                None => res is Ok,
            },
    {
        match PageMut::open(buffer_pool, page_address) {
            Ok(page_writer) => Ok(SerialWriter { page_writer, page_address }),
            Err(e) => Err(e),
        }
    }

    /// Goes on to the page at `new_page`: pins it, and gives back the page
    /// that was being filled.
    fn switch_page(&mut self, buffer_pool: &mut BufferPool, new_page: PageAddr) -> (res: Result<
        (),
        StoreError,
    >)
        requires
            old(self).wf(old(buffer_pool)),
        ensures
            final(buffer_pool).wf(),
            final(self).wf(final(buffer_pool)),
            match res {
                Ok(()) => final(self).page_address == new_page && final(buffer_pool).page(
                    old(self).page_address,
                ) == old(self).page_writer.data@ && final(self).page_writer.data@
                    == Self::opened(old(buffer_pool).page(new_page)),
                Err(e) => *final(self) == *old(self),
            },
            match old(buffer_pool).write_refusal(new_page) {
                Some(e) => res is Err && res->Err_0 == e,
                None => res is Ok,
            },
    {
        let ghost before = *buffer_pool;
        let ghost slot = self.page_writer.slot as int;
        let mut page = match PageMut::open(buffer_pool, new_page) {
            Ok(page) => page,
            Err(e) => {
                assert(buffer_pool.pins[slot] == before.pins[slot]);
                assert(buffer_pool.slots[slot] == before.slots[slot]);
                return Err(e);
            },
        };
        proof {
            assert(buffer_pool.pins[slot] == before.pins[slot]);
            assert(buffer_pool.slots[slot] == before.slots[slot]);
        }
        std::mem::swap(&mut self.page_writer, &mut page);
        let ghost mid = *buffer_pool;
        let ghost new_slot = self.page_writer.slot as int;
        page.close(buffer_pool);
        self.page_address = new_page;
        proof {
            assert(buffer_pool.pins[new_slot] == mid.pins[new_slot]);
            assert(buffer_pool.slots[new_slot] == mid.slots[new_slot]);
        }
        Ok(())
    }

    /// The page behind the page at `addr`.
    pub open spec fn page_after(addr: PageAddr) -> PageAddr {
        PageAddr { file_id: addr.file_id, page_id: (addr.page_id + 1) as u64 }
    }

    /// Whether a cell of `len` bytes does not go on the page that is being
    /// filled, so that the writer goes on to the page behind it: the page
    /// that is being filled has no room, and the page behind it can be
    /// pinned.
    pub open spec fn moves(&self, pool: &BufferPool, len: int) -> bool {
        &&& header_in_range(self.page_writer.data@)
        &&& !has_space(self.page_writer.data@, len)
        &&& self.page_address.page_id < u64::MAX
        &&& pool.write_refusal(Self::page_after(self.page_address)) is None
    }

    /// The page that a cell of `len` bytes goes on, as it is before the
    /// cell is made.
    pub open spec fn target(&self, pool: &BufferPool, len: int) -> Seq<u8> {
        if self.moves(pool, len) {
            Self::opened(pool.page(Self::page_after(self.page_address)))
        } else {
            self.page_writer.data@
        }
    }

    /// Why a cell of `len` bytes cannot be appended, if it cannot: the
    /// header of the page is out of range; the page is full and is the last
    /// that a file can have, or the page behind it cannot be pinned; or the
    /// page behind it, too, has no room. `None` where the cell is made.
    pub open spec fn append_refusal(&self, pool: &BufferPool, len: int) -> Option<StoreError> {
        let here = self.page_writer.data@;
        let base = self.target(pool, len);
        if !header_in_range(here) {
            Some(StoreError::Corruption)
        } else if has_space(here, len) {
            None
        } else if self.page_address.page_id == u64::MAX {
            Some(StoreError::InvalidArgument)
        } else if pool.write_refusal(Self::page_after(self.page_address)) is Some {
            pool.write_refusal(Self::page_after(self.page_address))
        } else if !header_in_range(base) {
            Some(StoreError::Corruption)
        } else if !has_space(base, len) {
            Some(StoreError::InvalidArgument)
        } else {
            None
        }
    }

    /// Writes a tuple into a new cell: of the page that is being filled if
    /// it has room, else of the page that follows it. Where the writer
    /// went on to the next page, it stays there, also where the cell could
    /// not be made; the page that it left holds what was written to it.
    pub fn append_tuple(&mut self, buffer_pool: &mut BufferPool, tuple: &Tuple) -> (res: Result<
        (),
        StoreError,
    >)
        requires
            old(self).wf(old(buffer_pool)),
            tuple_bytes(value_views(tuple.values@)).len() <= usize::MAX,
        ensures
            final(buffer_pool).wf(),
            final(self).wf(final(buffer_pool)),
            ({
                let payload = tuple_bytes(value_views(tuple.values@));
                let len = payload.len() as int;
                let base = old(self).target(old(buffer_pool), len);
                &&& match old(self).append_refusal(old(buffer_pool), len) {
                    Some(e) => res == Err::<(), StoreError>(e),
                    None => res is Ok,
                }
                &&& if old(self).moves(old(buffer_pool), len) {
                    &&& final(self).page_address == Self::page_after(old(self).page_address)
                    &&& final(buffer_pool).page(old(self).page_address) == old(self).page_writer.data@
                } else {
                    final(self).page_address == old(self).page_address
                }
                &&& final(self).page_writer.data@ == (if res is Ok {
                    with_bytes(allocated(base, len), free_end(base) - len, payload)
                } else {
                    base
                })
            }),
    {
        let tuple_len = tuple.len();
        let mut payload: Vec<u8> = Vec::new();
        let _ = tuple.write_to_stream(&mut payload);
        assert(payload@ =~= tuple_bytes(value_views(tuple.values@)));
        match self.page_writer.has_space_for_cell(tuple_len) {
            Ok(true) => {},
            Ok(false) => {
                if self.page_address.page_id == u64::MAX {
                    return Err(StoreError::InvalidArgument);
                }
                let next = self.page_address.next_page();
                match self.switch_page(buffer_pool, next) {
                    Ok(()) => {},
                    Err(e) => {
                        return Err(e);
                    },
                }
            },
            Err(e) => {
                return Err(e);
            },
        }
        match self.page_writer.append_cell(payload.as_slice()) {
            Ok(()) => {},
            Err(e) => {
                return Err(e);
            },
        }
        Ok(())
    }
}

impl SerialReader {
    /// Whether the reader holds the page at its address and knows the
    /// page's number of cells.
    pub open spec fn wf(&self, pool: &BufferPool) -> bool {
        &&& pool.wf()
        &&& self.page_reader.held_in(pool)
        &&& self.page_reader.addr == self.page_address
        &&& header_in_range(self.page_reader.data@)
        &&& self.num_cells_in_page == crate::page::cell_count(self.page_reader.data@)
    }

    /// A reader at the first cell of the page at `start_page_address`.
    pub fn new(
        buffer_pool: &mut BufferPool,
        start_page_address: PageAddr,
        end_page_address: PageAddr,
    ) -> (res: Result<Self, StoreError>)
        requires
            old(buffer_pool).wf(),
        ensures
            final(buffer_pool).wf(),
            final(buffer_pool).keeps_pages_of(old(buffer_pool)),
            res matches Ok(reader) ==> reader.wf(final(buffer_pool)) && reader.page_address
                == start_page_address && reader.end_page_address == end_page_address
                && reader.current_cell_index == 0 && reader.page_reader.data@ == old(buffer_pool).page(start_page_address),
            old(buffer_pool).read_refusal(start_page_address) is None && old(buffer_pool).present(
                start_page_address,
            ) ==> (res is Ok <==> header_in_range(old(buffer_pool).page(start_page_address))),
    {
        let page_reader = match Page::open(buffer_pool, start_page_address) {
            Ok(page) => page,
            Err(e) => {
                return Err(e);
            },
        };
        let num_cells_in_page = match page_reader.num_cells() {
            Ok(n) => n,
            Err(e) => {
                page_reader.close(buffer_pool);
                return Err(e);
            },
        };
        Ok(
            SerialReader {
                page_reader,
                page_address: start_page_address,
                end_page_address,
                num_cells_in_page,
                current_cell_index: 0,
            },
        )
    }

    /// Goes on to the page at `new_page`: pins it for reading, learns its
    /// number of cells and gives back the page that was being read. Where
    /// the new page cannot be pinned, or its header is out of range, the
    /// reader stays on its page and the pool is the same as before.
    fn switch_page(&mut self, buffer_pool: &mut BufferPool, new_page: PageAddr) -> (res: Result<
        (),
        StoreError,
    >)
        requires
            old(self).wf(old(buffer_pool)),
        ensures
            final(buffer_pool).wf(),
            final(buffer_pool).keeps_pages_of(old(buffer_pool)),
            final(self).wf(final(buffer_pool)),
            final(self).end_page_address == old(self).end_page_address,
            match res {
                Ok(()) => {
                    let was = old(self).page_reader.slot as int;
                    let now = final(self).page_reader.slot as int;
                    &&& final(self).page_address == new_page
                    &&& final(self).current_cell_index == 0
                    &&& final(self).page_reader.data@ == old(buffer_pool).page(new_page)
                    &&& final(self).num_cells_in_page == crate::page::cell_count(
                        old(buffer_pool).page(new_page),
                    )
                    &&& final(buffer_pool).caches(now)
                    &&& forall|i: int|
                        0 <= i < BUFFER_POOL_SIZE ==> #[trigger] final(buffer_pool).pins[i] == (
                        if i == now && i == was {
                            old(buffer_pool).pins[i]
                        } else if i == now {
                            old(buffer_pool).pins[i].with_reader()
                        } else if i == was {
                            old(buffer_pool).pins[i].without_reader()
                        } else {
                            old(buffer_pool).pins[i]
                        })
                    &&& forall|i: int|
                        0 <= i < BUFFER_POOL_SIZE && old(buffer_pool).pinned(i) ==> #[trigger] final(buffer_pool).slots[i] == old(buffer_pool).slots[i]
                },
                Err(e) => *final(self) == *old(self) && final(buffer_pool).same_as(
                    old(buffer_pool),
                ),
            },
            old(buffer_pool).read_refusal(new_page) matches Some(e) ==> res is Err && res->Err_0
                == e,
            old(buffer_pool).read_refusal(new_page) is None && old(buffer_pool).present(new_page)
                ==> (res is Ok <==> header_in_range(old(buffer_pool).page(new_page))) && (
            res is Err ==> res->Err_0 == StoreError::Corruption),
            old(buffer_pool).read_refusal(new_page) is None && !old(buffer_pool).present(new_page)
                ==> res is Err && (res->Err_0 == StoreError::Io || res->Err_0
                == StoreError::Corruption),
    {
        let ghost before = *buffer_pool;
        let ghost slot = self.page_reader.slot as int;
        proof {
            assert(before.slot_wf(slot));
        }
        let mut page = match Page::open(buffer_pool, new_page) {
            Ok(page) => page,
            Err(e) => {
                proof {
                    lemma_same_as_intro(buffer_pool, &before);
                    assert(buffer_pool.pins[slot] == before.pins[slot]);
                    assert(buffer_pool.slots[slot] == before.slots[slot]);
                }
                return Err(e);
            },
        };
        let ghost mid = *buffer_pool;
        let ghost other = page.slot as int;
        proof {
            if !before.present(new_page) {
                assert(page.data@ == zero_page());
                assert(free_start(zero_page()) == 0);
            }
            if other != slot {
                assert(mid.pins[slot] == before.pins[slot]);
            }
            assert(before.slots[slot] == mid.slots[slot]);
        }
        let counted = page.num_cells();
        let num_cells = match counted {
            Ok(n) => n,
            Err(e) => {
                page.close(buffer_pool);
                proof {
                    lemma_read_cycle(buffer_pool, &mid, &before, other);
                    lemma_same_as(buffer_pool, &before);
                    assert(buffer_pool.slots == mid.slots);
                    assert(buffer_pool.pins[slot] == before.pins[slot]) by {
                        reveal(BufferPool::same_as);
                    }
                    assert forall|a: PageAddr| #[trigger] before.on_disk(a) implies buffer_pool.on_disk(a) by {
                        assert(mid.on_disk(a));
                    }
                }
                return Err(e);
            },
        };
        std::mem::swap(&mut self.page_reader, &mut page);
        page.close(buffer_pool);
        self.page_address = new_page;
        self.num_cells_in_page = num_cells;
        self.current_cell_index = 0;
        proof {
            assert(buffer_pool.slots == mid.slots);
            assert forall|a: PageAddr| #[trigger] buffer_pool.page(a) == before.page(a) by {
                assert(mid.page(a) == before.page(a));
            }
            assert forall|a: PageAddr| #[trigger] before.on_disk(a) implies buffer_pool.on_disk(a) by {
                assert(mid.on_disk(a));
            }
            assert forall|a: PageAddr| #[trigger] before.present(a) implies buffer_pool.present(a) by {
                assert(mid.present(a));
            }
            assert forall|i: int| 0 <= i < BUFFER_POOL_SIZE implies #[trigger] buffer_pool.pins[i]
                == (if i == other && i == slot {
                before.pins[i]
            } else if i == other {
                before.pins[i].with_reader()
            } else if i == slot {
                before.pins[i].without_reader()
            } else {
                before.pins[i]
            }) by {
                if i != other {
                    assert(mid.pins[i] == before.pins[i]);
                }
                if i != slot {
                    assert(buffer_pool.pins[i] == mid.pins[i]);
                }
            }
            assert forall|i: int|
                0 <= i < BUFFER_POOL_SIZE && before.pinned(i) implies #[trigger] buffer_pool.slots[i]
                == before.slots[i] by {
                if i != other {
                    assert(mid.pins[i] == before.pins[i]);
                }
            }
            assert(buffer_pool.pins[other] is Read);
            assert(buffer_pool.slot_wf(other));
        }
        Ok(())
    }

    /// Whether the reader stands behind the last cell of its page.
    pub open spec fn page_done(&self) -> bool {
        self.current_cell_index >= self.num_cells_in_page
    }

    /// Whether the reader goes on to the page behind its page: it stands
    /// behind the last cell of a page that is not the last, the page behind
    /// can be pinned and is there, and its header is in range.
    pub open spec fn moves(&self, pool: &BufferPool) -> bool {
        let next = SerialWriter::page_after(self.page_address);
        &&& self.page_done()
        &&& self.page_address != self.end_page_address
        &&& self.page_address.page_id < u64::MAX
        &&& pool.read_refusal(next) is None
        &&& pool.present(next)
        &&& header_in_range(pool.page(next))
    }

    /// The bytes of the next tuple: the next cell of the page that is being
    /// read, or the first cell of the page that follows it. `None` behind
    /// the last cell of the last page. Where the page that follows cannot
    /// be had, the reader stays where it is.
    pub fn next(&mut self, buffer_pool: &mut BufferPool) -> (res: Option<Result<Vec<u8>, StoreError>>)
        requires
            old(self).wf(old(buffer_pool)),
        ensures
            final(buffer_pool).wf(),
            final(buffer_pool).keeps_pages_of(old(buffer_pool)),
            final(self).wf(final(buffer_pool)),
            final(self).end_page_address == old(self).end_page_address,
            !old(self).page_done() ==> *final(buffer_pool) == *old(buffer_pool) && final(self).page_reader == old(self).page_reader && res is Some && bytes_read(res.unwrap())
                == cell_read(old(self).page_reader.data@, old(self).current_cell_index as int)
                && final(self).current_cell_index == old(self).current_cell_index + (if res matches Some(Ok(_)) {
                1int
            } else {
                0int
            }),
            old(self).page_done() && old(self).page_address == old(self).end_page_address ==> res is None
                && *final(self) == *old(self) && *final(buffer_pool) == *old(buffer_pool),
            old(self).page_done() && old(self).page_address != old(self).end_page_address ==> ({
                let next = SerialWriter::page_after(old(self).page_address);
                let refusal = old(buffer_pool).read_refusal(next);
                if old(self).page_address.page_id == u64::MAX {
                    &&& res == Some(Err::<Vec<u8>, StoreError>(StoreError::InvalidArgument))
                    &&& *final(self) == *old(self)
                    &&& *final(buffer_pool) == *old(buffer_pool)
                } else if old(self).moves(old(buffer_pool)) {
                    &&& final(self).page_address == next
                    &&& final(self).page_reader.data@ == old(buffer_pool).page(next)
                    &&& res is Some
                    &&& bytes_read(res.unwrap()) == cell_read(old(buffer_pool).page(next), 0)
                    &&& final(self).current_cell_index == (if res matches Some(Ok(_)) {
                        1usize
                    } else {
                        0usize
                    })
                } else {
                    &&& res is Some
                    &&& res.unwrap() is Err
                    &&& *final(self) == *old(self)
                    &&& final(buffer_pool).same_as(old(buffer_pool))
                    &&& refusal matches Some(e) ==> res.unwrap()->Err_0 == e
                    &&& refusal is None ==> res.unwrap()->Err_0 == StoreError::Io
                        || res.unwrap()->Err_0 == StoreError::Corruption
                    &&& refusal is None && old(buffer_pool).present(next) ==> res.unwrap()->Err_0
                        == StoreError::Corruption
                }
            }),
    {
        if self.current_cell_index >= self.num_cells_in_page {
            if self.page_address.file_id == self.end_page_address.file_id
                && self.page_address.page_id == self.end_page_address.page_id {
                proof {
                    assert forall|a: PageAddr| #[trigger] old(buffer_pool).present(a) implies buffer_pool.present(a) by {}
                }
                return None;
            }
            if self.page_address.page_id == u64::MAX {
                proof {
                    assert forall|a: PageAddr| #[trigger] old(buffer_pool).present(a) implies buffer_pool.present(a) by {}
                }
                return Some(Err(StoreError::InvalidArgument));
            }
            let next = self.page_address.next_page();
            match self.switch_page(buffer_pool, next) {
                Ok(()) => {},
                Err(e) => {
                    return Some(Err(e));
                },
            }
        } else {
            proof {
                assert forall|a: PageAddr| #[trigger] old(buffer_pool).present(a) implies buffer_pool.present(a) by {}
            }
        }
        match self.page_reader.read_cell(self.current_cell_index) {
            Ok(cell_data) => {
                let bytes = slice_to_vec(cell_data);
                self.current_cell_index += 1;
                Some(Ok(bytes))
            },
            Err(e) => Some(Err(e)),
        }
    }

    /// Gives the pin back: the slot of the page that was being read has one
    /// reader less, and is free for the sweep once it has none. Every page
    /// holds what it held, and no slot changes what it holds.
    pub fn close(self, buffer_pool: &mut BufferPool)
        requires
            old(buffer_pool).wf(),
        ensures
            final(buffer_pool).wf(),
            final(buffer_pool).keeps_pages_of(old(buffer_pool)),
            final(buffer_pool).pages() == old(buffer_pool).pages(),
            final(buffer_pool).slots == old(buffer_pool).slots,
            final(buffer_pool).keeps_pins_of(old(buffer_pool), self.page_reader.slot as int),
            self.page_reader.slot < BUFFER_POOL_SIZE ==> final(buffer_pool).pins[self.page_reader.slot as int] == old(buffer_pool).pins[self.page_reader.slot as int].without_reader(),
    {
        self.page_reader.close(buffer_pool);
    }
}

impl SerialWriter {
    /// Gives the pin back: what was written becomes the page.
    pub fn close(self, buffer_pool: &mut BufferPool)
        requires
            self.wf(old(buffer_pool)),
        ensures
            final(buffer_pool).wf(),
            final(buffer_pool).page(self.page_address) == self.page_writer.data@,
    {
        self.page_writer.close(buffer_pool);
    }
}

} // verus!
