//! Sorted runs on disk. A run is one paged file: page 0 holds one cell with
//! the run's summary, the pages from `start_page` to `end_page` hold the
//! entries, one cell each, in the order in which they were written.

use crate::bufferpool::{
    lemma_read_cycle, lemma_same_as, lemma_same_as_intro, lemma_same_as_refl, lemma_same_as_trans,
    BufferPool, PageAddr,
};
use crate::bytes::{
    append_bytes, bytes_le, bytes_lt, lemma_bytes_le_lt_transitive, lemma_bytes_lt_asymmetric,
    lemma_bytes_lt_irreflexive, lemma_bytes_lt_le_transitive, lemma_bytes_lt_total,
    lemma_bytes_lt_transitive, ByteOrder,
};
use crate::lsm::types::{lemma_entry_lt_transitive, lemma_entry_views_push};
use crate::constants::{BUFFER_POOL_SIZE, PAGE_SIZE};
use crate::error::StoreError;
use crate::lsm::types::{
    entry_bytes, entry_lt, entry_views, lemma_entry_round_trip, parse_entry, Entry, EntryView, Key,
    SeqNum,
};
use crate::page::{
    cell, cell_count, cell_len, cell_start, free_end, free_start, has_space, header_in_range,
    initialized, lemma_append_cell, lemma_initialized, page_wf, Page, PageMut, PageRead,
};
use crate::pagefile::{page_id_valid, zero_page};
use crate::tuple::tuple::{
    lemma_var_bytes_tuple_round_trip, read_var_bytes_tuple, var_bytes_field, var_bytes_tuple,
    write_var_bytes_tuple,
};
use crate::tuple::varint::{lemma_varint_bytes_len, varint_bytes};
use vstd::bytes::{
    lemma_auto_spec_u32_to_from_le_bytes, lemma_auto_spec_u64_to_from_le_bytes,
    spec_u32_from_le_bytes, spec_u32_to_le_bytes, spec_u64_from_le_bytes, spec_u64_to_le_bytes,
    u32_from_le_bytes, u32_to_le_bytes, u64_from_le_bytes, u64_to_le_bytes,
};
use vstd::prelude::*;
use vstd::slice::slice_subrange;

verus! {

/// The summary of a run, kept in the one cell of page 0.
#[derive(Debug)]
pub struct SSTableMeta {
    /// The run's id, which is also the id of its file.
    pub id: u64,
    /// Number of entries in the run.
    pub entry_count: u64,
    /// First page of entries.
    pub start_page: u64,
    /// Last page of entries.
    pub end_page: u64,
    /// Key of the first entry.
    pub min_key: Key,
    /// Key of the last entry.
    pub max_key: Key,
    /// Smallest sequence number in the run.
    pub min_seq: SeqNum,
    /// Largest sequence number in the run.
    pub max_seq: SeqNum,
}

/// A summary as plain data.
pub struct MetaView {
    pub id: u64,
    pub entry_count: u64,
    pub start_page: u64,
    pub end_page: u64,
    pub min_key: Seq<u8>,
    pub max_key: Seq<u8>,
    pub min_seq: u64,
    pub max_seq: u64,
}

impl View for SSTableMeta {
    type V = MetaView;

    open spec fn view(&self) -> MetaView {
        MetaView {
            id: self.id,
            entry_count: self.entry_count,
            start_page: self.start_page,
            end_page: self.end_page,
            min_key: self.min_key@,
            max_key: self.max_key@,
            min_seq: self.min_seq,
            max_seq: self.max_seq,
        }
    }
}

impl Clone for SSTableMeta {
    fn clone(&self) -> (res: Self)
        ensures
            res@ == self@,
    {
        SSTableMeta {
            id: self.id,
            entry_count: self.entry_count,
            start_page: self.start_page,
            end_page: self.end_page,
            min_key: self.min_key.clone(),
            max_key: self.max_key.clone(),
            min_seq: self.min_seq,
            max_seq: self.max_seq,
        }
    }
}

/// The summary record: six 64-bit numbers, little-endian (id, entry count,
/// first page, last page, smallest and largest sequence number), then each
/// of the two keys behind its length in 32 bits, little-endian.
pub open spec fn meta_bytes(m: MetaView) -> Seq<u8> {
    spec_u64_to_le_bytes(m.id) + spec_u64_to_le_bytes(m.entry_count) + spec_u64_to_le_bytes(
        m.start_page,
    ) + spec_u64_to_le_bytes(m.end_page) + spec_u64_to_le_bytes(m.min_seq) + spec_u64_to_le_bytes(
        m.max_seq,
    ) + spec_u32_to_le_bytes(m.min_key.len() as u32) + m.min_key + spec_u32_to_le_bytes(
        m.max_key.len() as u32,
    ) + m.max_key
}

/// The 64-bit number at `pos`.
pub open spec fn u64_field(bytes: Seq<u8>, pos: int) -> u64 {
    spec_u64_from_le_bytes(bytes.subrange(pos, pos + 8))
}

/// The 32-bit number at `pos`.
pub open spec fn u32_field(bytes: Seq<u8>, pos: int) -> u32 {
    spec_u32_from_le_bytes(bytes.subrange(pos, pos + 4))
}

/// The summary that a record holds; `None` where the record ends before
/// the summary does.
pub open spec fn parse_meta(bytes: Seq<u8>) -> Option<MetaView> {
    if bytes.len() < 52 {
        None
    } else {
        let min_len = u32_field(bytes, 48) as int;
        if bytes.len() - 56 < min_len {
            None
        } else {
            let max_len = u32_field(bytes, 52 + min_len) as int;
            if bytes.len() - 56 - min_len < max_len {
                None
            } else {
                Some(
                    MetaView {
                        id: u64_field(bytes, 0),
                        entry_count: u64_field(bytes, 8),
                        start_page: u64_field(bytes, 16),
                        end_page: u64_field(bytes, 24),
                        min_seq: u64_field(bytes, 32),
                        max_seq: u64_field(bytes, 40),
                        min_key: bytes.subrange(52, 52 + min_len),
                        max_key: bytes.subrange(56 + min_len, 56 + min_len + max_len),
                    },
                )
            }
        }
    }
}

/// The summary that the cell of page 0 holds.
pub open spec fn parse_meta_cell(cell: Seq<u8>) -> Option<MetaView> {
    match var_bytes_field(cell) {
        Some((start, len)) => parse_meta(cell.subrange(start, start + len)),
        None => None,
    }
}

/// The entry that a cell holds.
pub open spec fn parse_cell(cell: Seq<u8>) -> Option<EntryView> {
    match var_bytes_field(cell) {
        Some((start, len)) => match parse_entry(cell.subrange(start, start + len)) {
            Some((entry, used)) => Some(entry),
            None => None,
        },
        None => None,
    }
}

/// The cell that holds an entry.
pub open spec fn entry_cell(e: EntryView) -> Seq<u8> {
    var_bytes_tuple(entry_bytes(e))
}

/// The summary record of `meta`.
fn encode_meta(meta: &SSTableMeta) -> (bytes: Vec<u8>)
    requires
        meta@.min_key.len() <= u32::MAX,
        meta@.max_key.len() <= u32::MAX,
    ensures
        bytes@ == meta_bytes(meta@),
{
    let mut meta_bytes: Vec<u8> = Vec::new();
    append_bytes(&mut meta_bytes, u64_to_le_bytes(meta.id).as_slice());
    append_bytes(&mut meta_bytes, u64_to_le_bytes(meta.entry_count).as_slice());
    append_bytes(&mut meta_bytes, u64_to_le_bytes(meta.start_page).as_slice());
    append_bytes(&mut meta_bytes, u64_to_le_bytes(meta.end_page).as_slice());
    append_bytes(&mut meta_bytes, u64_to_le_bytes(meta.min_seq).as_slice());
    append_bytes(&mut meta_bytes, u64_to_le_bytes(meta.max_seq).as_slice());
    append_bytes(&mut meta_bytes, u32_to_le_bytes(meta.min_key.len() as u32).as_slice());
    append_bytes(&mut meta_bytes, meta.min_key.as_bytes());
    append_bytes(&mut meta_bytes, u32_to_le_bytes(meta.max_key.len() as u32).as_slice());
    append_bytes(&mut meta_bytes, meta.max_key.as_bytes());
    meta_bytes
}

/// The summary that a record holds.
fn decode_meta(meta_bytes: &[u8]) -> (res: Result<SSTableMeta, StoreError>)
    ensures
        match res {
            Ok(meta) => parse_meta(meta_bytes@) == Some(meta@),
            Err(e) => e == StoreError::Corruption && parse_meta(meta_bytes@) is None,
        },
{
    if meta_bytes.len() < 52 {
        return Err(StoreError::Corruption);
    }
    let mut pos: usize = 0;
    let id = u64_from_le_bytes(slice_subrange(meta_bytes, pos, pos + 8));
    pos += 8;
    let entry_count = u64_from_le_bytes(slice_subrange(meta_bytes, pos, pos + 8));
    pos += 8;
    let start_page = u64_from_le_bytes(slice_subrange(meta_bytes, pos, pos + 8));
    pos += 8;
    let end_page = u64_from_le_bytes(slice_subrange(meta_bytes, pos, pos + 8));
    pos += 8;
    let min_seq = u64_from_le_bytes(slice_subrange(meta_bytes, pos, pos + 8));
    pos += 8;
    let max_seq = u64_from_le_bytes(slice_subrange(meta_bytes, pos, pos + 8));
    pos += 8;
    let min_key_len = u32_from_le_bytes(slice_subrange(meta_bytes, pos, pos + 4));
    pos += 4;
    if meta_bytes.len() < 56 || ((meta_bytes.len() - 56) as u64) < min_key_len as u64 {
        return Err(StoreError::Corruption);
    }
    let min_key_len: usize = min_key_len as usize;
    let min_key = Key::from_slice(slice_subrange(meta_bytes, pos, pos + min_key_len));
    pos += min_key_len;
    let max_key_len = u32_from_le_bytes(slice_subrange(meta_bytes, pos, pos + 4));
    pos += 4;
    if ((meta_bytes.len() - pos) as u64) < max_key_len as u64 {
        return Err(StoreError::Corruption);
    }
    let max_key_len: usize = max_key_len as usize;
    let max_key = Key::from_slice(slice_subrange(meta_bytes, pos, pos + max_key_len));
    Ok(SSTableMeta { id, entry_count, start_page, end_page, min_key, max_key, min_seq, max_seq })
}

/// Reading the record of a summary gives the summary back.
pub proof fn lemma_meta_round_trip(m: MetaView)
    requires
        m.min_key.len() <= u32::MAX,
        m.max_key.len() <= u32::MAX,
    ensures
        parse_meta(meta_bytes(m)) == Some(m),
        meta_bytes(m).len() == 56 + m.min_key.len() + m.max_key.len(),
{
    lemma_auto_spec_u64_to_from_le_bytes();
    lemma_auto_spec_u32_to_from_le_bytes();
    let bytes = meta_bytes(m);
    let min_len = m.min_key.len() as int;
    let max_len = m.max_key.len() as int;
    assert(bytes.subrange(0, 8) =~= spec_u64_to_le_bytes(m.id));
    assert(bytes.subrange(8, 16) =~= spec_u64_to_le_bytes(m.entry_count));
    assert(bytes.subrange(16, 24) =~= spec_u64_to_le_bytes(m.start_page));
    assert(bytes.subrange(24, 32) =~= spec_u64_to_le_bytes(m.end_page));
    assert(bytes.subrange(32, 40) =~= spec_u64_to_le_bytes(m.min_seq));
    assert(bytes.subrange(40, 48) =~= spec_u64_to_le_bytes(m.max_seq));
    assert(bytes.subrange(48, 52) =~= spec_u32_to_le_bytes(m.min_key.len() as u32));
    assert(bytes.subrange(52, 52 + min_len) =~= m.min_key);
    assert(bytes.subrange(52 + min_len, 56 + min_len) =~= spec_u32_to_le_bytes(
        m.max_key.len() as u32,
    ));
    assert(bytes.subrange(56 + min_len, 56 + min_len + max_len) =~= m.max_key);
}

/// The length of the wire form of an entry, and of its cell, against the
/// lengths of its key and of its value.
pub proof fn lemma_entry_bytes_len(e: EntryView)
    ensures
        entry_bytes(e).len() >= e.key.len() + 10,
        e.value matches Some(v) ==> entry_bytes(e).len() >= e.key.len() + v.len() + 11,
        entry_bytes(e).len() <= e.key.len() + 29 + (match e.value {
            Some(v) => v.len(),
            None => 0,
        }),
        entry_cell(e).len() > entry_bytes(e).len(),
{
    lemma_varint_bytes_len(e.key.len() as u64);
    lemma_auto_spec_u64_to_from_le_bytes();
    if let Some(v) = e.value {
        lemma_varint_bytes_len(v.len() as u64);
    }
    lemma_varint_bytes_len(entry_bytes(e).len() as u64);
}

/// Reading the cell of an entry gives the entry back.
pub proof fn lemma_entry_cell_round_trip(e: EntryView)
    requires
        entry_bytes(e).len() <= usize::MAX,
    ensures
        parse_cell(entry_cell(e)) == Some(e),
        entry_cell(e).len() == 1 + varint_bytes(entry_bytes(e).len() as u64).len() + entry_bytes(
            e,
        ).len(),
{
    let bytes = entry_bytes(e);
    lemma_var_bytes_tuple_round_trip(bytes);
    lemma_entry_round_trip(e, Seq::<u8>::empty());
    assert(bytes + Seq::<u8>::empty() =~= bytes);
    let cell = entry_cell(e);
    let start = 1 + varint_bytes(bytes.len() as u64).len() as int;
    assert(cell.subrange(start, start + bytes.len()) =~= bytes);
}

/// The entry in a cell.
pub fn read_entry_from_cell(cell: &[u8]) -> (res: Result<Entry, StoreError>)
    ensures
        match res {
            Ok(entry) => parse_cell(cell@) == Some(entry@),
            Err(e) => e == StoreError::Corruption && parse_cell(cell@) is None,
        },
{
    let entry_bytes = match read_var_bytes_tuple(cell) {
        Ok(bytes) => bytes,
        Err(e) => {
            return Err(e);
        },
    };
    match Entry::read_from(entry_bytes) {
        Ok((entry, _)) => Ok(entry),
        Err(e) => Err(e),
    }
}

/// The address of page `p` of run `id`.
pub open spec fn run_addr(id: u64, p: int) -> PageAddr {
    PageAddr { file_id: id, page_id: p as u64 }
}

/// Whether the pointer of cell `i` lies on the page and names a body that
/// is not empty and lies on the page.
pub open spec fn cell_readable(data: Seq<u8>, i: int) -> bool {
    &&& 0 <= i
    &&& 4 + 4 * i + 4 <= data.len()
    &&& 0 < cell_len(data, i)
    &&& cell_start(data, i) + cell_len(data, i) <= data.len()
    &&& cell_start(data, i) + cell_len(data, i) <= PAGE_SIZE
}

/// The entry in cell `i`, where the cell can be read and holds one.
#[verifier::opaque]
pub open spec fn cell_entry(data: Seq<u8>, i: int) -> Option<EntryView> {
    if cell_readable(data, i) {
        parse_cell(cell(data, i))
    } else {
        None
    }
}

/// The entries in the first `n` cells.
pub open spec fn page_entries(data: Seq<u8>, n: int) -> Seq<EntryView>
    decreases n,
{
    if n <= 0 {
        Seq::empty()
    } else {
        page_entries(data, n - 1).push(cell_entry(data, n - 1).unwrap())
    }
}

/// The entries on a page.
pub open spec fn all_entries(data: Seq<u8>) -> Seq<EntryView> {
    page_entries(data, cell_count(data))
}

/// A page of entries: its header is in range and every cell holds an entry.
pub open spec fn page_good(data: Seq<u8>) -> bool {
    &&& data.len() == PAGE_SIZE
    &&& header_in_range(data)
    &&& forall|i: int| 0 <= i < cell_count(data) ==> #[trigger] cell_entry(data, i) is Some
}

/// The entries on the pages `lo` to `hi` of run `id`, in order.
pub open spec fn run_entries(pages: Map<PageAddr, Seq<u8>>, id: u64, lo: int, hi: int) -> Seq<
    EntryView,
>
    decreases hi - lo + 1,
{
    if hi < lo {
        Seq::empty()
    } else {
        all_entries(pages[run_addr(id, lo)]) + run_entries(pages, id, lo + 1, hi)
    }
}

/// Whether page `p` of run `id` can be had and is a page of entries.
pub open spec fn run_page_ok(pool: &BufferPool, id: u64, p: int) -> bool {
    &&& 0 <= p <= u64::MAX
    &&& page_id_valid(p as u64)
    &&& pool.present(run_addr(id, p))
    &&& page_good(pool.page(run_addr(id, p)))
}

/// Whether the pages `lo` to `hi` of run `id` can be had and are pages of
/// entries.
pub open spec fn run_ok(pool: &BufferPool, id: u64, lo: int, hi: int) -> bool {
    forall|p: int| lo <= p <= hi ==> #[trigger] run_page_ok(pool, id, p)
}

/// The entries of the first `n` cells are `n`, one for each cell.
pub proof fn lemma_page_entries(data: Seq<u8>, n: int)
    requires
        0 <= n,
    ensures
        page_entries(data, n).len() == n,
        forall|i: int|
            0 <= i < n ==> #[trigger] page_entries(data, n)[i] == cell_entry(data, i).unwrap(),
    decreases n,
{
    if n > 0 {
        lemma_page_entries(data, n - 1);
    }
}

/// The summary on page 0 of a run, where its cell can be read and holds one.
pub open spec fn stored_meta(data: Seq<u8>) -> Option<MetaView> {
    if cell_readable(data, 0) {
        parse_meta_cell(cell(data, 0))
    } else {
        None
    }
}

/// Where nobody holds a slot, no pin of a page within a file's reach is
/// refused.
pub proof fn lemma_no_refusal(pool: &BufferPool, addr: PageAddr)
    requires
        pool.wf(),
        pool.none_pinned(),
        page_id_valid(addr.page_id),
    ensures
        pool.read_refusal(addr) is None,
        pool.write_refusal(addr) is None,
{
    assert(!pool.pinned(0));
    if pool.cached(addr) {
        assert(!pool.pinned(pool.slot_of(addr)));
    }
}

/// A run that could be read through a pool can be read through a pool that
/// is the same.
pub proof fn lemma_run_ok_stable(
    before: &BufferPool,
    after: &BufferPool,
    id: u64,
    lo: int,
    hi: int,
)
    requires
        before.wf(),
        after.wf(),
        after.same_as(before),
    ensures
        after.pages() == before.pages(),
        before.none_pinned() ==> after.none_pinned(),
        run_ok(before, id, lo, hi) ==> run_ok(after, id, lo, hi),
{
    lemma_same_as(after, before);
    if run_ok(before, id, lo, hi) {
        assert forall|p: int| lo <= p <= hi implies #[trigger] run_page_ok(after, id, p) by {
            assert(run_page_ok(before, id, p));
            assert(before.present(run_addr(id, p)));
            assert(after.page(run_addr(id, p)) == before.page(run_addr(id, p)));
        }
    }
}

/// What a read of the page at `addr` comes to, whatever is made of the
/// page: the error of a pin that is refused, and an error too where the
/// page cannot be had.
pub open spec fn read_outcome<T>(pool: &BufferPool, addr: PageAddr, res: Result<T, StoreError>) -> bool {
    &&& pool.read_refusal(addr) matches Some(e) ==> res is Err && res->Err_0 == e
    &&& pool.read_refusal(addr) is None && !pool.present(addr) ==> res is Err && res->Err_0
        != StoreError::Exhaustion
}

/// The number of cells of the page at `addr`.
fn count_cells(buffer_pool: &mut BufferPool, addr: PageAddr) -> (res: Result<usize, StoreError>)
    requires
        old(buffer_pool).wf(),
    ensures
        final(buffer_pool).wf(),
        final(buffer_pool).same_as(old(buffer_pool)),
        res matches Ok(n) ==> header_in_range(old(buffer_pool).page(addr)) && n == cell_count(
            old(buffer_pool).page(addr),
        ),
        read_outcome(old(buffer_pool), addr, res),
        old(buffer_pool).read_refusal(addr) is None && old(buffer_pool).present(addr) ==> (res is Ok
            <==> header_in_range(old(buffer_pool).page(addr))) && (res is Err ==> res->Err_0
            == StoreError::Corruption),
{
    let page = match Page::open(buffer_pool, addr) {
        Ok(page) => page,
        Err(e) => {
            proof {
                lemma_same_as_intro(buffer_pool, old(buffer_pool));
            }
            return Err(e);
        },
    };
    let ghost mid = *buffer_pool;
    let ghost slot = page.slot as int;
    proof {
        if !old(buffer_pool).present(addr) {
            assert(page.data@ == zero_page());
            assert(free_start(zero_page()) == 0);
        }
    }
    let counted = page.num_cells();
    page.close(buffer_pool);
    proof {
        lemma_read_cycle(buffer_pool, &mid, old(buffer_pool), slot);
    }
    counted
}

/// The entry in cell `cell_idx` of the page at `addr`.
fn fetch_entry(buffer_pool: &mut BufferPool, addr: PageAddr, cell_idx: usize) -> (res: Result<
    Entry,
    StoreError,
>)
    requires
        old(buffer_pool).wf(),
    ensures
        final(buffer_pool).wf(),
        final(buffer_pool).same_as(old(buffer_pool)),
        res matches Ok(entry) ==> cell_entry(old(buffer_pool).page(addr), cell_idx as int) == Some(
            entry@,
        ),
        read_outcome(old(buffer_pool), addr, res),
        old(buffer_pool).read_refusal(addr) is None && old(buffer_pool).present(addr) ==> (res is Ok
            <==> cell_entry(old(buffer_pool).page(addr), cell_idx as int) is Some) && (res is Err
            ==> res->Err_0 == (if 4 + 4 * cell_idx + 4 > PAGE_SIZE {
            StoreError::InvalidArgument
        } else {
            StoreError::Corruption
        })),
{
    let page = match Page::open(buffer_pool, addr) {
        Ok(page) => page,
        Err(e) => {
            proof {
                lemma_same_as_intro(buffer_pool, old(buffer_pool));
            }
            return Err(e);
        },
    };
    let ghost mid = *buffer_pool;
    let ghost slot = page.slot as int;
    proof {
        if !old(buffer_pool).present(addr) {
            reveal(cell_entry);
            assert(page.data@ == zero_page());
            if 4 + 4 * cell_idx + 4 <= PAGE_SIZE {
                assert(cell_len(zero_page(), cell_idx as int) == 0);
            }
        }
    }
    let read = read_entry_at(&page, cell_idx);
    page.close(buffer_pool);
    proof {
        lemma_read_cycle(buffer_pool, &mid, old(buffer_pool), slot);
    }
    read
}

/// The entry in cell `cell_idx` of `page`.
fn read_entry_at(page: &Page, cell_idx: usize) -> (res: Result<Entry, StoreError>)
    ensures
        match res {
            Ok(entry) => cell_entry(page.data@, cell_idx as int) == Some(entry@),
            Err(e) => cell_entry(page.data@, cell_idx as int) is None && e == (if 4 + 4 * cell_idx
                + 4 > page.data@.len() {
                StoreError::InvalidArgument
            } else {
                StoreError::Corruption
            }),
        },
{
    proof {
        reveal(cell_entry);
    }
    let cell = match page.read_cell(cell_idx) {
        Ok(cell) => cell,
        Err(e) => {
            return Err(e);
        },
    };
    read_entry_from_cell(cell)
}

/// Reads a run.
pub struct SSTableReader {
    pub meta: SSTableMeta,
}

/// A cursor over the entries of a run, in the order in which they are
/// stored.
pub struct SSTableIterator {
    pub meta: SSTableMeta,
    pub current_page: u64,
    pub current_cell: usize,
    pub cells_in_page: usize,
    pub initialized: bool,
    pub finished: bool,
}

impl Clone for SSTableReader {
    fn clone(&self) -> (res: Self)
        ensures
            res.meta@ == self.meta@,
    {
        SSTableReader { meta: self.meta.clone() }
    }
}

impl SSTableReader {
    /// Opens the run in file `file_id`: reads its summary from page 0.
    pub fn open(buffer_pool: &mut BufferPool, file_id: u64) -> (res: Result<Self, StoreError>)
        requires
            old(buffer_pool).wf(),
        ensures
            final(buffer_pool).wf(),
            final(buffer_pool).same_as(old(buffer_pool)),
            res matches Ok(reader) ==> stored_meta(old(buffer_pool).page(run_addr(file_id, 0)))
                == Some(reader.meta@),
            read_outcome(old(buffer_pool), run_addr(file_id, 0), res),
            old(buffer_pool).read_refusal(run_addr(file_id, 0)) is None && old(buffer_pool).present(run_addr(file_id, 0)) ==> (res is Ok <==> stored_meta(
                old(buffer_pool).page(run_addr(file_id, 0)),
            ) is Some) && (res is Err ==> res->Err_0 == StoreError::Corruption),
    {
        match Self::read_metadata(buffer_pool, file_id) {
            Ok(meta) => Ok(SSTableReader { meta }),
            Err(e) => Err(e),
        }
    }

    fn read_metadata(buffer_pool: &mut BufferPool, file_id: u64) -> (res: Result<
        SSTableMeta,
        StoreError,
    >)
        requires
            old(buffer_pool).wf(),
        ensures
            final(buffer_pool).wf(),
            final(buffer_pool).same_as(old(buffer_pool)),
            res matches Ok(meta) ==> stored_meta(old(buffer_pool).page(run_addr(file_id, 0)))
                == Some(meta@),
            read_outcome(old(buffer_pool), run_addr(file_id, 0), res),
            old(buffer_pool).read_refusal(run_addr(file_id, 0)) is None && old(buffer_pool).present(run_addr(file_id, 0)) ==> (res is Ok <==> stored_meta(
                old(buffer_pool).page(run_addr(file_id, 0)),
            ) is Some) && (res is Err ==> res->Err_0 == StoreError::Corruption),
    {
        let page_addr = PageAddr::new(file_id, 0);
        let page = match Page::open(buffer_pool, page_addr) {
            Ok(page) => page,
            Err(e) => {
                proof {
                    lemma_same_as_intro(buffer_pool, old(buffer_pool));
                }
                return Err(e);
            },
        };
        let ghost mid = *buffer_pool;
        let ghost slot = page.slot as int;
        proof {
            if !old(buffer_pool).present(page_addr) {
                assert(page.data@ == zero_page());
                assert(cell_len(zero_page(), 0) == 0);
            }
        }
        let res = match page.read_cell(0) {
            Ok(cell) => {
                match read_var_bytes_tuple(cell) {
                    Ok(meta_bytes) => decode_meta(meta_bytes),
                    Err(e) => Err(e),
                }
            },
            Err(e) => Err(StoreError::Corruption),
        };
        page.close(buffer_pool);
        proof {
            lemma_read_cycle(buffer_pool, &mid, old(buffer_pool), slot);
        }
        res
    }

    /// Whether the key lies between the run's first and last key.
    pub fn might_contain(&self, key: &Key) -> (maybe: bool)
        ensures
            maybe == (bytes_le(self.meta@.min_key, key@) && bytes_le(key@, self.meta@.max_key)),
    {
        let low = self.meta.min_key.compare(key);
        let high = key.compare(&self.meta.max_key);
        (low == ByteOrder::Less || low == ByteOrder::Equal) && (high == ByteOrder::Less || high
            == ByteOrder::Equal)
    }

    /// A cursor at the start of the run.
    pub fn iter(&self) -> (cursor: SSTableIterator)
        ensures
            cursor.meta@ == self.meta@,
            cursor.current_page == self.meta.start_page,
            cursor.current_cell == 0,
            cursor.cells_in_page == 0,
            !cursor.initialized,
            !cursor.finished,
    {
        SSTableIterator::new(self.meta.clone())
    }

    /// The entry in cell `cell_idx` of `page`.
    fn read_entry_from_page(&self, page: &Page, cell_idx: usize) -> (res: Result<
        Entry,
        StoreError,
    >)
        ensures
            match res {
                Ok(entry) => cell_entry(page.data@, cell_idx as int) == Some(entry@),
                Err(e) => cell_entry(page.data@, cell_idx as int) is None && e == (if 4 + 4
                    * cell_idx + 4 > page.data@.len() {
                    StoreError::InvalidArgument
                } else {
                    StoreError::Corruption
                }),
            },
    {
        read_entry_at(page, cell_idx)
    }
}

impl SSTableIterator {
    /// Whether the cursor's fields fit the pages: once it has started and
    /// until it is done, it stands on a page of the run, knows that page's
    /// number of cells and stands on or right behind one of them.
    pub open spec fn wf(&self, pages: Map<PageAddr, Seq<u8>>) -> bool {
        &&& !self.initialized && !self.finished ==> self.current_page == self.meta.start_page
        &&& self.initialized && !self.finished ==> {
            &&& self.meta.start_page <= self.current_page <= self.meta.end_page
            &&& self.cells_in_page == cell_count(
                pages[run_addr(self.meta.id, self.current_page as int)],
            )
            &&& self.current_cell <= self.cells_in_page
        }
    }

    /// What the cursor has still to give.
    pub open spec fn remaining(&self, pages: Map<PageAddr, Seq<u8>>) -> Seq<EntryView> {
        if self.finished {
            Seq::empty()
        } else if !self.initialized {
            run_entries(pages, self.meta.id, self.meta.start_page as int, self.meta.end_page as int)
        } else {
            all_entries(pages[run_addr(self.meta.id, self.current_page as int)]).skip(
                self.current_cell as int,
            ) + run_entries(
                pages,
                self.meta.id,
                self.current_page + 1,
                self.meta.end_page as int,
            )
        }
    }

    /// Whether the run can be read through `pool`: nobody holds a slot, and
    /// every page of the run can be had and is a page of entries.
    pub open spec fn table_ok(&self, pool: &BufferPool) -> bool {
        &&& pool.none_pinned()
        &&& run_ok(pool, self.meta.id, self.meta.start_page as int, self.meta.end_page as int)
    }

    fn new(meta: SSTableMeta) -> (cursor: Self)
        ensures
            cursor.meta == meta,
            cursor.current_page == meta.start_page,
            cursor.current_cell == 0,
            cursor.cells_in_page == 0,
            !cursor.initialized,
            !cursor.finished,
    {
        let current_page = meta.start_page;
        SSTableIterator {
            meta,
            current_page,
            current_cell: 0,
            cells_in_page: 0,
            initialized: false,
            finished: false,
        }
    }

    /// Makes the cursor stand at the start of its current page: learns the
    /// page's number of cells. Past the last page the cursor is done.
    fn load_current_page(&mut self, buffer_pool: &mut BufferPool) -> (res: Result<bool, StoreError>)
        requires
            old(buffer_pool).wf(),
        ensures
            final(buffer_pool).wf(),
            final(buffer_pool).same_as(old(buffer_pool)),
            final(self).meta == old(self).meta,
            final(self).current_page == old(self).current_page,
            final(self).initialized == old(self).initialized,
            old(self).current_page > old(self).meta.end_page ==> res == Ok::<bool, StoreError>(
                false,
            ) && final(self).finished && final(self).current_cell == old(self).current_cell
                && final(self).cells_in_page == old(self).cells_in_page,
            old(self).current_page <= old(self).meta.end_page ==> final(self).finished == old(self).finished && match res {
                Ok(more) => {
                    let data = old(buffer_pool).page(
                        run_addr(old(self).meta.id, old(self).current_page as int),
                    );
                    &&& more
                    &&& header_in_range(data)
                    &&& final(self).cells_in_page == cell_count(data)
                    &&& final(self).current_cell == 0
                },
                Err(e) => final(self).current_cell == old(self).current_cell && final(self).cells_in_page == old(self).cells_in_page,
            },
            old(self).current_page <= old(self).meta.end_page && old(buffer_pool).none_pinned()
                && page_id_valid(old(self).current_page) && old(buffer_pool).present(
                run_addr(old(self).meta.id, old(self).current_page as int),
            ) && header_in_range(
                old(buffer_pool).page(run_addr(old(self).meta.id, old(self).current_page as int)),
            ) ==> res is Ok,
    {
        if self.current_page > self.meta.end_page {
            self.finished = true;
            proof {
                lemma_same_as_refl(buffer_pool);
            }
            return Ok(false);
        }
        let page_addr = PageAddr::new(self.meta.id, self.current_page);
        proof {
            if buffer_pool.none_pinned() && page_id_valid(self.current_page) {
                lemma_no_refusal(buffer_pool, page_addr);
            }
        }
        match count_cells(buffer_pool, page_addr) {
            Ok(n) => {
                self.cells_in_page = n;
                self.current_cell = 0;
                Ok(true)
            },
            Err(e) => Err(e),
        }
    }

    /// The next entry of the run, `None` once the run is through. A page
    /// that cannot be had, or a cell that holds no entry, gives an error.
    pub fn next(&mut self, buffer_pool: &mut BufferPool) -> (res: Option<Result<Entry, StoreError>>)
        requires
            old(buffer_pool).wf(),
        ensures
            final(buffer_pool).wf(),
            final(buffer_pool).same_as(old(buffer_pool)),
            final(self).meta == old(self).meta,
            old(self).finished ==> res is None && *final(self) == *old(self),
            old(self).table_ok(old(buffer_pool)) && old(self).wf(old(buffer_pool).pages()) ==> {
                let pending = old(self).remaining(old(buffer_pool).pages());
                &&& final(self).wf(old(buffer_pool).pages())
                &&& final(self).table_ok(final(buffer_pool))
                &&& match res {
                    None => pending.len() == 0 && final(self).finished,
                    Some(Ok(entry)) => pending.len() > 0 && entry@ == pending[0] && final(self).remaining(old(buffer_pool).pages()) == pending.skip(1),
                    Some(Err(e)) => false,
                }
            },
    {
        if self.finished {
            proof {
                lemma_same_as_refl(buffer_pool);
            }
            return None;
        }
        let ghost pages = buffer_pool.pages();
        let ghost good = self.table_ok(buffer_pool) && self.wf(pages);
        let ghost pending = self.remaining(pages);
        let ghost id = self.meta.id;
        let ghost lo = self.meta.start_page as int;
        let ghost hi = self.meta.end_page as int;
        proof {
            lemma_same_as_refl(buffer_pool);
        }
        if !self.initialized {
            self.initialized = true;
            proof {
                if good && lo <= hi {
                    assert(run_page_ok(buffer_pool, id, lo));
                }
            }
            match self.load_current_page(buffer_pool) {
                Ok(true) => {},
                Ok(false) => {
                    proof {
                        lemma_run_ok_stable(old(buffer_pool), buffer_pool, id, lo, hi);
                    }
                    return None;
                },
                Err(e) => {
                    return Some(Err(e));
                },
            }
            proof {
                lemma_run_ok_stable(old(buffer_pool), buffer_pool, id, lo, hi);
                if good {
                    assert(all_entries(pages[run_addr(id, lo)]).skip(0) =~= all_entries(
                        pages[run_addr(id, lo)],
                    ));
                }
            }
        }
        loop
            invariant
                old(buffer_pool).wf(),
                buffer_pool.wf(),
                buffer_pool.same_as(old(buffer_pool)),
                buffer_pool.pages() == pages,
                pages == old(buffer_pool).pages(),
                self.meta == old(self).meta,
                id == self.meta.id,
                lo == self.meta.start_page,
                hi == self.meta.end_page,
                !self.finished,
                !old(self).finished,
                self.initialized,
                good == (old(self).table_ok(old(buffer_pool)) && old(self).wf(pages)),
                pending == old(self).remaining(pages),
                good ==> self.wf(pages) && self.table_ok(buffer_pool) && self.remaining(pages)
                    == pending,
            decreases
                    (if self.current_page <= self.meta.end_page {
                        self.meta.end_page - self.current_page + 1
                    } else {
                        0
                    }),
        {
            let ghost cur = self.current_page as int;
            let ghost data = pages[run_addr(id, cur)];
            let ghost before = *buffer_pool;
            if self.current_cell < self.cells_in_page {
                let page_addr = PageAddr::new(self.meta.id, self.current_page);
                proof {
                    if good {
                        assert(run_page_ok(&before, id, cur));
                        lemma_no_refusal(buffer_pool, page_addr);
                    }
                }
                let cell_idx = self.current_cell;
                let read = fetch_entry(buffer_pool, page_addr, cell_idx);
                proof {
                    lemma_same_as_trans(buffer_pool, &before, old(buffer_pool));
                    lemma_run_ok_stable(&before, buffer_pool, id, lo, hi);
                }
                match read {
                    Ok(entry) => {
                        self.current_cell += 1;
                        proof {
                            if good {
                                lemma_page_entries(data, cell_count(data));
                                let rest = run_entries(pages, id, cur + 1, hi);
                                let here = all_entries(data);
                                assert(pending == here.skip(cell_idx as int) + rest);
                                assert(pending[0] == here[cell_idx as int]);
                                assert(pending.skip(1) =~= here.skip(cell_idx as int + 1) + rest);
                            }
                        }
                        return Some(Ok(entry));
                    },
                    Err(e) => {
                        proof {
                            if good {
                                assert(run_page_ok(&before, id, cur));
                                assert(cell_entry(data, cell_idx as int) is Some);
                            }
                        }
                        return Some(Err(e));
                    },
                }
            }
            if self.current_page == u64::MAX {
                self.finished = true;
                proof {
                    if good {
                        lemma_page_entries(data, cell_count(data));
                    }
                }
                return None;
            }
            self.current_page += 1;
            proof {
                if good {
                    lemma_page_entries(data, cell_count(data));
                    assert(all_entries(data).skip(self.cells_in_page as int) =~= Seq::<
                        EntryView,
                    >::empty());
                    assert(pending =~= run_entries(pages, id, cur + 1, hi));
                    if cur + 1 <= hi {
                        assert(run_page_ok(&before, id, cur + 1));
                    }
                }
            }
            let loaded = self.load_current_page(buffer_pool);
            proof {
                lemma_same_as_trans(buffer_pool, &before, old(buffer_pool));
                lemma_run_ok_stable(&before, buffer_pool, id, lo, hi);
            }
            match loaded {
                Ok(true) => {
                    proof {
                        if good {
                            let next = pages[run_addr(id, cur + 1)];
                            assert(all_entries(next).skip(0) =~= all_entries(next));
                        }
                    }
                    continue ;
                },
                Ok(false) => {
                    return None;
                },
                Err(e) => {
                    return Some(Err(e));
                },
            }
        }
    }
}

/// The entries on the pages `lo` to `hi + 1` are those on the pages `lo` to
/// `hi` and then those on page `hi + 1`.
pub proof fn lemma_run_entries_append(pages: Map<PageAddr, Seq<u8>>, id: u64, lo: int, hi: int)
    requires
        lo <= hi + 1,
    ensures
        run_entries(pages, id, lo, hi + 1) == run_entries(pages, id, lo, hi) + all_entries(
            pages[run_addr(id, hi + 1)],
        ),
    decreases hi - lo + 1,
{
    if lo > hi {
        assert(run_entries(pages, id, lo + 1, hi + 1) =~= Seq::<EntryView>::empty());
        assert(run_entries(pages, id, lo, hi + 1) =~= all_entries(pages[run_addr(id, lo)]));
        assert(run_entries(pages, id, lo, hi) + all_entries(pages[run_addr(id, hi + 1)])
            =~= all_entries(pages[run_addr(id, lo)]));
    } else {
        lemma_run_entries_append(pages, id, lo + 1, hi);
        let first = all_entries(pages[run_addr(id, lo)]);
        let mid = run_entries(pages, id, lo + 1, hi);
        let last = all_entries(pages[run_addr(id, hi + 1)]);
        assert(first + (mid + last) =~= (first + mid) + last);
    }
}

/// The entries of a run depend on the run's pages only.
pub proof fn lemma_run_entries_frame(
    before: Map<PageAddr, Seq<u8>>,
    after: Map<PageAddr, Seq<u8>>,
    id: u64,
    lo: int,
    hi: int,
)
    requires
        forall|p: int| lo <= p <= hi ==> after[#[trigger] run_addr(id, p)] == before[run_addr(id, p)],
    ensures
        run_entries(after, id, lo, hi) == run_entries(before, id, lo, hi),
    decreases hi - lo + 1,
{
    if lo <= hi {
        assert(after[run_addr(id, lo)] == before[run_addr(id, lo)]);
        lemma_run_entries_frame(before, after, id, lo + 1, hi);
    }
}

/// A cell reads the same in two pages that agree on its pointer and body.
proof fn lemma_same_cell_entry(before: Seq<u8>, after: Seq<u8>, i: int)
    requires
        before.len() == after.len(),
        cell_start(after, i) == cell_start(before, i),
        cell_len(after, i) == cell_len(before, i),
        cell(after, i) == cell(before, i),
    ensures
        cell_entry(after, i) == cell_entry(before, i),
{
    reveal(cell_entry);
}

/// A cell that holds the cell of an entry reads as that entry.
proof fn lemma_new_cell_entry(after: Seq<u8>, n: int, e: EntryView)
    requires
        entry_bytes(e).len() <= usize::MAX,
        after.len() == PAGE_SIZE,
        0 <= n,
        4 + 4 * n + 4 <= PAGE_SIZE,
        cell(after, n) == entry_cell(e),
        cell_len(after, n) == entry_cell(e).len(),
        cell_start(after, n) + cell_len(after, n) <= PAGE_SIZE,
    ensures
        cell_entry(after, n) == Some(e),
{
    reveal(cell_entry);
    lemma_entry_cell_round_trip(e);
    lemma_varint_bytes_len(entry_bytes(e).len() as u64);
}

/// The entries of a page whose cells are those of another page and one
/// more.
proof fn lemma_page_entries_push(before: Seq<u8>, after: Seq<u8>, n: int, e: EntryView)
    requires
        0 <= n,
        forall|i: int| 0 <= i < n ==> #[trigger] cell_entry(after, i) == cell_entry(before, i),
        cell_entry(after, n) == Some(e),
    ensures
        page_entries(after, n + 1) == page_entries(before, n).push(e),
{
    lemma_page_entries_same(before, after, n);
}

/// The cells of a page after the cell of an entry was appended.
proof fn lemma_append_entry_cells(data: Seq<u8>, e: EntryView)
    requires
        page_wf(data),
        entry_bytes(e).len() <= usize::MAX,
        has_space(data, entry_cell(e).len() as int),
    ensures
        ({
            let after = crate::page::with_bytes(
                crate::page::allocated(data, entry_cell(e).len() as int),
                free_end(data) - entry_cell(e).len(),
                entry_cell(e),
            );
            &&& page_wf(after)
            &&& cell_count(after) == cell_count(data) + 1
            &&& cell_entry(after, cell_count(data)) == Some(e)
            &&& forall|i: int|
                0 <= i < cell_count(data) ==> #[trigger] cell_entry(after, i) == cell_entry(data, i)
        }),
{
    let payload = entry_cell(e);
    let after = crate::page::with_bytes(
        crate::page::allocated(data, payload.len() as int),
        free_end(data) - payload.len(),
        payload,
    );
    let n = cell_count(data);
    lemma_append_cell(data, payload);
    assert(cell_start(after, n) + cell_len(after, n) <= PAGE_SIZE);
    assert(4 + 4 * n + 4 <= PAGE_SIZE);
    lemma_new_cell_entry(after, n, e);
    assert forall|i: int| 0 <= i < n implies #[trigger] cell_entry(after, i) == cell_entry(
        data,
        i,
    ) by {
        assert(cell_start(after, i) == cell_start(data, i));
        lemma_same_cell_entry(data, after, i);
    }
}

/// A page whose cells are those of a page of entries and one more that
/// holds an entry is a page of entries.
proof fn lemma_good_after(data: Seq<u8>, after: Seq<u8>, e: EntryView)
    requires
        page_good(data),
        page_wf(after),
        cell_count(after) == cell_count(data) + 1,
        cell_entry(after, cell_count(data)) == Some(e),
        forall|i: int|
            0 <= i < cell_count(data) ==> #[trigger] cell_entry(after, i) == cell_entry(data, i),
    ensures
        page_good(after),
        all_entries(after) == all_entries(data).push(e),
{
    let n = cell_count(data);
    lemma_page_entries_push(data, after, n, e);
    assert forall|i: int| 0 <= i < cell_count(after) implies #[trigger] cell_entry(after, i) is Some by {
        if i < n {
            assert(cell_entry(after, i) == cell_entry(data, i));
            assert(cell_entry(data, i) is Some);
        }
    }
}

/// What appending the cell of an entry does to a page of entries.
pub proof fn lemma_append_entry(data: Seq<u8>, e: EntryView)
    requires
        page_wf(data),
        page_good(data),
        entry_bytes(e).len() <= usize::MAX,
        has_space(data, entry_cell(e).len() as int),
    ensures
        ({
            let after = crate::page::with_bytes(
                crate::page::allocated(data, entry_cell(e).len() as int),
                free_end(data) - entry_cell(e).len(),
                entry_cell(e),
            );
            &&& page_wf(after)
            &&& page_good(after)
            &&& cell_count(after) == cell_count(data) + 1
            &&& all_entries(after) == all_entries(data).push(e)
        }),
{
    let after = crate::page::with_bytes(
        crate::page::allocated(data, entry_cell(e).len() as int),
        free_end(data) - entry_cell(e).len(),
        entry_cell(e),
    );
    lemma_append_entry_cells(data, e);
    lemma_good_after(data, after, e);
}

proof fn lemma_page_entries_same(before: Seq<u8>, after: Seq<u8>, n: int)
    requires
        forall|i: int| 0 <= i < n ==> #[trigger] cell_entry(after, i) == cell_entry(before, i),
    ensures
        page_entries(after, n) == page_entries(before, n),
    decreases n,
{
    if n > 0 {
        lemma_page_entries_same(before, after, n - 1);
        assert(cell_entry(after, n - 1) == cell_entry(before, n - 1));
    }
}

/// The smallest sequence number among the entries, the largest number
/// there is where there are none.
pub open spec fn seq_low(entries: Seq<EntryView>) -> u64
    decreases entries.len(),
{
    if entries.len() == 0 {
        u64::MAX
    } else {
        let rest = seq_low(entries.drop_last());
        if entries.last().seq_num < rest {
            entries.last().seq_num
        } else {
            rest
        }
    }
}

/// The largest sequence number among the entries, zero where there are
/// none.
pub open spec fn seq_high(entries: Seq<EntryView>) -> u64
    decreases entries.len(),
{
    if entries.len() == 0 {
        0
    } else {
        let rest = seq_high(entries.drop_last());
        if entries.last().seq_num > rest {
            entries.last().seq_num
        } else {
            rest
        }
    }
}

/// The summary of a run with id `id` that holds `entries` on the pages 1 to
/// `end_page`: the keys of the first and of the last entry, empty keys for
/// an empty run; the smallest and the largest sequence number, where the
/// smallest reads as zero if it is the largest number there is.
pub open spec fn summary(id: u64, entries: Seq<EntryView>, end_page: u64) -> MetaView {
    MetaView {
        id,
        entry_count: entries.len() as u64,
        start_page: 1,
        end_page,
        min_key: if entries.len() == 0 {
            Seq::empty()
        } else {
            entries[0].key
        },
        max_key: if entries.len() == 0 {
            Seq::empty()
        } else {
            entries.last().key
        },
        min_seq: if seq_low(entries) == u64::MAX {
            0
        } else {
            seq_low(entries)
        },
        max_seq: seq_high(entries),
    }
}

/// Whether every page of file `id` holds in `after` what it holds in
/// `before` but for those of file `id`.
pub open spec fn other_files_kept(after: &BufferPool, before: &BufferPool, id: u64) -> bool {
    &&& forall|a: PageAddr| a.file_id != id ==> #[trigger] after.page(a) == before.page(a)
    &&& forall|a: PageAddr| #[trigger] before.present(a) ==> after.present(a)
}

/// Writes a run.
pub struct SSTableWriter {
    pub file_id: u64,
    pub current_page: u64,
    pub current_page_mut: PageMut,
    pub entry_count: u64,
    pub min_key: Option<Key>,
    pub max_key: Option<Key>,
    pub min_seq: SeqNum,
    pub max_seq: SeqNum,
}

impl SSTableWriter {
    /// The entries written so far: those on the pages that are full, and
    /// those on the page that is being filled.
    pub open spec fn written(&self, pool: &BufferPool) -> Seq<EntryView> {
        run_entries(pool.pages(), self.file_id, 1, self.current_page - 1) + all_entries(
            self.current_page_mut.data@,
        )
    }

    /// The writer's invariant. The writer holds the page that is being
    /// filled, and nobody holds another; that page is a well-formed page of
    /// entries; the pages before it can be had and are pages of entries;
    /// the counters and the keys fit what was written.
    #[verifier::opaque]
    pub open spec fn wf(&self, pool: &BufferPool) -> bool {
        let data = self.current_page_mut.data@;
        let entries = self.written(pool);
        &&& pool.wf()
        &&& self.current_page_mut.held_in(pool)
        &&& self.current_page_mut.addr == run_addr(self.file_id, self.current_page as int)
        &&& forall|i: int|
            0 <= i < BUFFER_POOL_SIZE && i != self.current_page_mut.slot ==> !#[trigger] pool.pinned(i)
        &&& 1 <= self.current_page
        &&& page_id_valid(self.current_page)
        &&& page_wf(data)
        &&& page_good(data)
        &&& run_ok(pool, self.file_id, 1, self.current_page - 1)
        &&& self.entry_count == entries.len()
        &&& entries.len() <= 1023 * self.current_page
        &&& run_entries(pool.pages(), self.file_id, 1, self.current_page - 1).len() <= 1023 * (
        self.current_page - 1)
        &&& self.current_page - 1 <= run_entries(
            pool.pages(),
            self.file_id,
            1,
            self.current_page - 1,
        ).len()
        &&& self.min_seq == seq_low(entries)
        &&& self.max_seq == seq_high(entries)
        &&& match self.min_key {
            Some(k) => entries.len() > 0 && k@ == entries[0].key && k@.len() <= PAGE_SIZE,
            None => entries.len() == 0,
        }
        &&& match self.max_key {
            Some(k) => entries.len() > 0 && k@ == entries.last().key && k@.len() <= PAGE_SIZE,
            None => entries.len() == 0,
        }
    }

    /// The room that is left on the page that is being filled, in bytes:
    /// between the cell pointers and the cell bodies.
    pub open spec fn room(&self) -> int {
        free_end(self.current_page_mut.data@) - free_start(self.current_page_mut.data@)
    }

    /// Starts a run in file `file_id`: page 0 is kept for the summary, the
    /// entries start on page 1, which is made an empty page whatever the
    /// file held.
    pub fn new(buffer_pool: &mut BufferPool, file_id: u64) -> (res: Result<Self, StoreError>)
        requires
            old(buffer_pool).wf(),
        ensures
            final(buffer_pool).wf(),
            other_files_kept(final(buffer_pool), old(buffer_pool), file_id),
            match old(buffer_pool).write_refusal(run_addr(file_id, 1)) {
                Some(e) => res is Err && res->Err_0 == e,
                None => res is Ok,
            },
            res matches Ok(writer) ==> writer.file_id == file_id && writer.current_page == 1,
            res matches Ok(writer) ==> (old(buffer_pool).none_pinned() ==> writer.wf(
                final(buffer_pool),
            ) && writer.written(final(buffer_pool)).len() == 0 && writer.room() == PAGE_SIZE - 4),
            res is Err ==> final(buffer_pool).same_as(old(buffer_pool)),
    {
        proof {
            reveal(SSTableWriter::wf);
        }
        let page_addr = PageAddr::new(file_id, 1);
        let mut current_page_mut = match PageMut::open(buffer_pool, page_addr) {
            Ok(page) => page,
            Err(e) => {
                proof {
                    assert forall|a: PageAddr| #[trigger] buffer_pool.page(a) == old(buffer_pool).page(a) by {}
                    lemma_same_as_intro(buffer_pool, old(buffer_pool));
                }
                return Err(e);
            },
        };
        let ghost opened = current_page_mut.data@;
        let _ = current_page_mut.init();
        let writer = SSTableWriter {
            file_id,
            current_page: 1,
            current_page_mut,
            entry_count: 0,
            min_key: None,
            max_key: None,
            min_seq: u64::MAX,
            max_seq: 0,
        };
        proof {
            if old(buffer_pool).none_pinned() {
                let data = writer.current_page_mut.data@;
                lemma_initialized(opened);
                assert(all_entries(data) =~= Seq::<EntryView>::empty());
                assert(run_entries(buffer_pool.pages(), file_id, 1, 0) =~= Seq::<
                    EntryView,
                >::empty());
                assert(writer.written(buffer_pool) =~= Seq::<EntryView>::empty());
                assert forall|i: int|
                    0 <= i < BUFFER_POOL_SIZE && i != writer.current_page_mut.slot implies !#[trigger] buffer_pool.pinned(i) by {
                    assert(!old(buffer_pool).pinned(i));
                }
            }
        }
        Ok(writer)
    }

    /// Whether the cell of an entry fits on an empty page.
    pub open spec fn fits_on_page(cell_len: int) -> bool {
        cell_len + 4 <= PAGE_SIZE - 4
    }

    /// Goes on to the next page: pins it, and gives back the page that was
    /// being filled.
    #[verifier::rlimit(100)]
    #[verifier::spinoff_prover]
    fn advance(&mut self, buffer_pool: &mut BufferPool) -> (res: Result<(), StoreError>)
        requires
            old(self).wf(old(buffer_pool)),
            cell_count(old(self).current_page_mut.data@) > 0,
        ensures
            final(self).wf(final(buffer_pool)),
            other_files_kept(final(buffer_pool), old(buffer_pool), old(self).file_id),
            final(self).file_id == old(self).file_id,
            final(self).written(final(buffer_pool)) == old(self).written(old(buffer_pool)),
            res is Ok <==> page_id_valid((old(self).current_page + 1) as u64),
            old(self).current_page <= final(self).current_page <= old(self).current_page + 1,
            res matches Ok(()) ==> final(self).current_page == old(self).current_page + 1
                && cell_count(final(self).current_page_mut.data@) == 0 && free_start(
                final(self).current_page_mut.data@,
            ) == 4 && free_end(final(self).current_page_mut.data@) == PAGE_SIZE,
            res matches Err(e) ==> e == StoreError::InvalidArgument && *final(self) == *old(self),
    {
        proof {
            reveal(SSTableWriter::wf);
        }
        let ghost id = self.file_id;
        let ghost cp = self.current_page as int;
        let ghost before = *buffer_pool;
        let ghost entries = self.written(buffer_pool);
        let ghost data = self.current_page_mut.data@;
        let ghost slot = self.current_page_mut.slot as int;
        if self.current_page == u64::MAX {
            assert forall|a: PageAddr| #[trigger] before.present(a) implies buffer_pool.present(a) by {}
            return Err(StoreError::InvalidArgument);
        }
        let next: u64 = self.current_page + 1;
        let next_addr = PageAddr::new(self.file_id, next);
        proof {
            assert(before.slot_wf(slot));
            assert(before.caches(slot));
            if page_id_valid(next) {
                let other = if slot == 0 {
                    1int
                } else {
                    0int
                };
                assert(!before.pinned(other));
                if before.cached(next_addr) {
                    let j = before.slot_of(next_addr);
                    assert(before.slots[j].page_address == next_addr);
                    assert(j != slot);
                    assert(!before.pinned(j));
                }
                assert(before.write_refusal(next_addr) is None);
            }
        }
        let mut page = match PageMut::open(buffer_pool, next_addr) {
            Ok(page) => page,
            Err(e) => {
                proof {
                    assert(buffer_pool.pages() =~= before.pages());
                    assert forall|i: int|
                        0 <= i < BUFFER_POOL_SIZE && i != slot implies !#[trigger] buffer_pool.pinned(i) by {
                        assert(!before.pinned(i));
                    }
                    assert forall|p: int| 1 <= p <= cp - 1 implies #[trigger] run_page_ok(
                        buffer_pool,
                        id,
                        p,
                    ) by {
                        assert(run_page_ok(&before, id, p));
                        assert(before.present(run_addr(id, p)));
                    }
                }
                return Err(e);
            },
        };
        let ghost mid = *buffer_pool;
        let ghost new_slot = page.slot as int;
        let ghost opened = page.data@;
        let _ = page.init();
        proof {
            lemma_initialized(opened);
            assert(new_slot != slot);
            assert(mid.pins[slot] == before.pins[slot]);
            assert(mid.slots[slot] == before.slots[slot]);
        }
        std::mem::swap(&mut self.current_page_mut, &mut page);
        page.close(buffer_pool);
        self.current_page = next;
        proof {
            let pages = buffer_pool.pages();
            assert(pages == mid.pages().insert(run_addr(id, cp), data));
            assert forall|p: int| 1 <= p <= cp - 1 implies pages[#[trigger] run_addr(id, p)]
                == before.pages()[run_addr(id, p)] by {
                assert(run_addr(id, p) != run_addr(id, cp));
                assert(run_addr(id, p) != run_addr(id, cp + 1));
            }
            lemma_run_entries_frame(before.pages(), pages, id, 1, cp - 1);
            lemma_run_entries_append(pages, id, 1, cp - 1);
            assert(all_entries(self.current_page_mut.data@) =~= Seq::<EntryView>::empty());
            assert(self.written(buffer_pool) =~= entries);
            lemma_page_entries(data, cell_count(data));
            assert forall|i: int|
                0 <= i < BUFFER_POOL_SIZE && i != new_slot implies !#[trigger] buffer_pool.pinned(i) by {
                if i != slot {
                    assert(mid.pins[i] == before.pins[i]);
                    assert(!before.pinned(i));
                }
            }
            assert forall|p: int| 1 <= p <= cp implies #[trigger] run_page_ok(
                buffer_pool,
                id,
                p,
            ) by {
                if p < cp {
                    assert(run_page_ok(&before, id, p));
                    assert(before.present(run_addr(id, p)));
                    assert(mid.present(run_addr(id, p)));
                    assert(buffer_pool.present(run_addr(id, p)));
                    assert(buffer_pool.page(run_addr(id, p)) == pages[run_addr(id, p)]);
                    assert(before.page(run_addr(id, p)) == before.pages()[run_addr(id, p)]);
                }
            }
            assert forall|a: PageAddr| a.file_id != id implies #[trigger] buffer_pool.page(a)
                == before.page(a) by {
                assert(a != run_addr(id, cp));
                assert(a != run_addr(id, cp + 1));
                assert(mid.page(a) == before.page(a));
            }
            assert forall|a: PageAddr| #[trigger] before.present(a) implies buffer_pool.present(a) by {
                assert(mid.present(a));
            }
        }
        Ok(())
    }

    /// Sees to it that the page that is being filled has room for a cell of
    /// `cell_len` bytes: goes on to the next page where it has not. A cell
    /// that does not fit on an empty page gets no room.
    fn make_room(&mut self, buffer_pool: &mut BufferPool, cell_len: usize) -> (res: Result<
        (),
        StoreError,
    >)
        requires
            old(self).wf(old(buffer_pool)),
        ensures
            final(self).wf(final(buffer_pool)),
            other_files_kept(final(buffer_pool), old(buffer_pool), old(self).file_id),
            final(self).file_id == old(self).file_id,
            final(self).written(final(buffer_pool)) == old(self).written(old(buffer_pool)),
            old(self).current_page <= final(self).current_page <= 1 + old(self).written(
                old(buffer_pool),
            ).len(),
            res matches Ok(()) ==> has_space(final(self).current_page_mut.data@, cell_len as int),
            res matches Err(e) ==> e == StoreError::InvalidArgument && *final(self) == *old(self),
            res is Ok <==> has_space(old(self).current_page_mut.data@, cell_len as int) || (
            Self::fits_on_page(cell_len as int) && page_id_valid(
                (old(self).current_page + 1) as u64,
            )),
            has_space(old(self).current_page_mut.data@, cell_len as int) ==> *final(self) == *old(self),
            !has_space(old(self).current_page_mut.data@, cell_len as int) && res is Ok ==> final(self).current_page == old(self).current_page + 1 && final(self).room() == PAGE_SIZE - 4,
    {
        proof {
            reveal(SSTableWriter::wf);
            lemma_page_entries(
                self.current_page_mut.data@,
                cell_count(self.current_page_mut.data@),
            );
            assert forall|a: PageAddr| #[trigger] old(buffer_pool).present(a) implies buffer_pool.present(a) by {}
        }
        match self.current_page_mut.has_space_for_cell(cell_len) {
            Ok(true) => Ok(()),
            Ok(false) => {
                if cell_len > PAGE_SIZE - 8 {
                    return Err(StoreError::InvalidArgument);
                }
                self.advance(buffer_pool)
            },
            Err(e) => Err(StoreError::InvalidArgument),
        }
    }

    /// Writes an entry behind those written so far: on the page that is
    /// being filled if its cell fits there, else on the next page. The
    /// entries must come in their order, by key and then from the newest
    /// version to the oldest; the writer does not check it. An entry whose
    /// cell does not fit on an empty page cannot be written.
    pub fn write_entry(&mut self, buffer_pool: &mut BufferPool, entry: &Entry) -> (res: Result<
        (),
        StoreError,
    >)
        requires
            old(self).wf(old(buffer_pool)),
        ensures
            final(self).wf(final(buffer_pool)),
            other_files_kept(final(buffer_pool), old(buffer_pool), old(self).file_id),
            final(self).file_id == old(self).file_id,
            old(self).current_page <= final(self).current_page <= 1 + old(self).written(
                old(buffer_pool),
            ).len(),
            match res {
                Ok(()) => final(self).written(final(buffer_pool)) == old(self).written(
                    old(buffer_pool),
                ).push(entry@),
                Err(e) => e == StoreError::InvalidArgument && final(self).written(
                    final(buffer_pool),
                ) == old(self).written(old(buffer_pool)),
            },
            res is Ok <==> has_space(
                old(self).current_page_mut.data@,
                entry_cell(entry@).len() as int,
            ) || (Self::fits_on_page(entry_cell(entry@).len() as int) && page_id_valid(
                (old(self).current_page + 1) as u64,
            )),
            res is Err ==> final(self).current_page == old(self).current_page && final(self).room()
                == old(self).room(),
            res is Ok ==> (if has_space(
                old(self).current_page_mut.data@,
                entry_cell(entry@).len() as int,
            ) {
                final(self).current_page == old(self).current_page && final(self).room() == old(self).room() - entry_cell(entry@).len() - 4
            } else {
                final(self).current_page == old(self).current_page + 1 && final(self).room()
                    == PAGE_SIZE - 8 - entry_cell(entry@).len()
            }),
    {
        proof {
            self.lemma_wf_facts(buffer_pool);
        }
        let too_long: bool = entry.key.len() > PAGE_SIZE || match &entry.value {
            Some(value) => value.len() > PAGE_SIZE,
            None => false,
        };
        if too_long {
            proof {
                lemma_entry_bytes_len(entry@);
                assert forall|a: PageAddr| #[trigger] old(buffer_pool).present(a) implies buffer_pool.present(a) by {}
            }
            return Err(StoreError::InvalidArgument);
        }
        proof {
            lemma_entry_bytes_len(entry@);
        }
        let mut entry_bytes: Vec<u8> = Vec::new();
        let _ = entry.write_to(&mut entry_bytes);
        assert(entry_bytes@ =~= crate::lsm::types::entry_bytes(entry@));
        let cell = write_var_bytes_tuple(entry_bytes.as_slice());
        let ghost e = entry@;
        proof {
            lemma_entry_cell_round_trip(e);
            assert forall|a: PageAddr| #[trigger] old(buffer_pool).present(a) implies buffer_pool.present(a) by {}
        }
        match self.make_room(buffer_pool, cell.len()) {
            Ok(()) => {},
            Err(e) => {
                return Err(e);
            },
        }
        let ghost pool = *buffer_pool;
        let ghost mid = *self;
        let ghost data = self.current_page_mut.data@;
        let ghost entries = self.written(buffer_pool);
        assert(entries == old(self).written(old(buffer_pool)));
        proof {
            mid.lemma_wf_facts(&pool);
        }
        match self.current_page_mut.append_cell(cell.as_slice()) {
            Ok(()) => {},
            Err(e) => {
                assert(self.current_page_mut.data@ == data);
                assert(self.written(buffer_pool) == entries);
                return Err(e);
            },
        }
        self.entry_count += 1;
        if self.min_key.is_none() {
            self.min_key = Some(entry.key.clone());
        }
        self.max_key = Some(entry.key.clone());
        if entry.seq_num < self.min_seq {
            self.min_seq = entry.seq_num;
        }
        if entry.seq_num > self.max_seq {
            self.max_seq = entry.seq_num;
        }
        proof {
            lemma_append_entry(data, e);
            lemma_append_cell(data, entry_cell(e));
            assert(e.key.len() <= crate::lsm::types::entry_bytes(e).len());
            Self::lemma_write_keeps_wf(mid, *self, pool, e);
        }
        Ok(())
    }

    /// What the writer's invariant says of the page that is being filled
    /// and of the count of entries.
    proof fn lemma_wf_facts(&self, pool: &BufferPool)
        requires
            self.wf(pool),
        ensures
            self.current_page_mut.data@.len() == PAGE_SIZE,
            page_wf(self.current_page_mut.data@),
            page_good(self.current_page_mut.data@),
            self.entry_count < u64::MAX,
            self.current_page <= 1 + self.written(pool).len(),
            page_id_valid(self.current_page),
    {
        reveal(SSTableWriter::wf);
    }

    /// The writer after an entry was put on the page that is being filled.
    proof fn lemma_write_keeps_wf(before: Self, after: Self, pool: BufferPool, e: EntryView)
        requires
            before.wf(&pool),
            after.file_id == before.file_id,
            after.current_page == before.current_page,
            after.current_page_mut.slot == before.current_page_mut.slot,
            after.current_page_mut.addr == before.current_page_mut.addr,
            after.current_page_mut.data@.len() == PAGE_SIZE,
            page_wf(after.current_page_mut.data@),
            page_good(after.current_page_mut.data@),
            all_entries(after.current_page_mut.data@) == all_entries(
                before.current_page_mut.data@,
            ).push(e),
            after.entry_count == before.entry_count + 1,
            e.key.len() <= PAGE_SIZE,
            match after.min_key {
                Some(k) => match before.min_key {
                    Some(k0) => k == k0,
                    None => k@ == e.key,
                },
                None => false,
            },
            after.max_key matches Some(k) && k@ == e.key,
            after.min_seq == (if e.seq_num < before.min_seq {
                e.seq_num
            } else {
                before.min_seq
            }),
            after.max_seq == (if e.seq_num > before.max_seq {
                e.seq_num
            } else {
                before.max_seq
            }),
        ensures
            after.wf(&pool),
            after.written(&pool) == before.written(&pool).push(e),
    {
        reveal(SSTableWriter::wf);
        let entries = before.written(&pool);
        let data = after.current_page_mut.data@;
        let closed = run_entries(pool.pages(), before.file_id, 1, before.current_page - 1);
        assert(after.written(&pool) =~= entries.push(e));
        lemma_page_entries(data, cell_count(data));
        assert(cell_count(data) <= 1023);
        assert(entries.push(e).drop_last() =~= entries);
        if entries.len() > 0 {
            assert(entries.push(e)[0] == entries[0]);
        }
    }

    /// Writes the summary into the one cell of page 0, which is made an
    /// empty page first.
    fn write_metadata(&self, buffer_pool: &mut BufferPool, meta: &SSTableMeta) -> (res: Result<
        (),
        StoreError,
    >)
        requires
            self.wf(old(buffer_pool)),
            meta@.min_key.len() <= u32::MAX,
            meta@.max_key.len() <= u32::MAX,
        ensures
            final(buffer_pool).wf(),
            self.current_page_mut.held_in(final(buffer_pool)),
            forall|i: int|
                0 <= i < BUFFER_POOL_SIZE && i != self.current_page_mut.slot ==> !#[trigger] final(buffer_pool).pinned(i),
            final(buffer_pool).pages() == old(buffer_pool).pages().insert(
                run_addr(self.file_id, 0),
                final(buffer_pool).page(run_addr(self.file_id, 0)),
            ),
            forall|a: PageAddr| #[trigger] old(buffer_pool).present(a) ==> final(buffer_pool).present(a),
            final(buffer_pool).present(run_addr(self.file_id, 0)),
            res matches Ok(()) ==> stored_meta(final(buffer_pool).page(run_addr(self.file_id, 0)))
                == Some(meta@),
            res matches Err(e) ==> e == StoreError::InvalidArgument,
            res is Ok <==> Self::fits_on_page(var_bytes_tuple(meta_bytes(meta@)).len() as int),
    {
        proof {
            reveal(SSTableWriter::wf);
        }
        let ghost before = *buffer_pool;
        let ghost id = self.file_id;
        let ghost slot = self.current_page_mut.slot as int;
        let page_addr = PageAddr::new(self.file_id, 0);
        proof {
            assert(before.slot_wf(slot));
            assert(before.caches(slot));
            let other = if slot == 0 {
                1int
            } else {
                0int
            };
            assert(!before.pinned(other));
            if before.cached(page_addr) {
                let j = before.slot_of(page_addr);
                assert(before.slots[j].page_address == page_addr);
                assert(j != slot);
                assert(!before.pinned(j));
            }
            assert(before.write_refusal(page_addr) is None);
        }
        let mut meta_page = match PageMut::open(buffer_pool, page_addr) {
            Ok(page) => page,
            Err(e) => {
                assert(false);
                return Err(e);
            },
        };
        let ghost mid = *buffer_pool;
        let ghost opened = meta_page.data@;
        let _ = meta_page.init();
        let ghost empty = meta_page.data@;
        proof {
            lemma_initialized(opened);
            assert(mid.pins[slot] == before.pins[slot]);
            assert(mid.slots[slot] == before.slots[slot]);
        }
        let meta_bytes = encode_meta(meta);
        let cell = write_var_bytes_tuple(meta_bytes.as_slice());
        let res = meta_page.append_cell(cell.as_slice());
        proof {
            if res is Ok {
                lemma_append_cell(empty, cell@);
                lemma_meta_round_trip(meta@);
                lemma_var_bytes_tuple_round_trip(meta_bytes@);
                lemma_varint_bytes_len(meta_bytes@.len() as u64);
                let page = meta_page.data@;
                assert(crate::page::cell(page, 0) == cell@);
                let start = 1 + varint_bytes(meta_bytes@.len() as u64).len() as int;
                assert(cell@.subrange(start, start + meta_bytes@.len()) =~= meta_bytes@);
                assert(cell_readable(page, 0));
            }
        }
        meta_page.close(buffer_pool);
        proof {
            let pages = buffer_pool.pages();
            assert(pages =~= before.pages().insert(page_addr, buffer_pool.page(page_addr)));
            assert forall|i: int|
                0 <= i < BUFFER_POOL_SIZE && i != slot implies !#[trigger] buffer_pool.pinned(i) by {
                if i != meta_page.slot {
                    assert(mid.pins[i] == before.pins[i]);
                    assert(!before.pinned(i));
                }
            }
            assert forall|a: PageAddr| #[trigger] before.present(a) implies buffer_pool.present(a) by {
                assert(mid.present(a));
            }
        }
        res
    }

    /// Ends the run: writes its summary to page 0, gives back the page that
    /// was being filled and returns the summary.
    pub fn finish(self, buffer_pool: &mut BufferPool) -> (res: Result<SSTableMeta, StoreError>)
        requires
            self.wf(old(buffer_pool)),
        ensures
            final(buffer_pool).wf(),
            final(buffer_pool).none_pinned(),
            other_files_kept(final(buffer_pool), old(buffer_pool), self.file_id),
            run_ok(final(buffer_pool), self.file_id, 1, self.current_page as int),
            run_entries(final(buffer_pool).pages(), self.file_id, 1, self.current_page as int)
                == self.written(old(buffer_pool)),
            final(buffer_pool).present(run_addr(self.file_id, 0)),
            match res {
                Ok(meta) => meta@ == summary(
                    self.file_id,
                    self.written(old(buffer_pool)),
                    self.current_page,
                ) && stored_meta(final(buffer_pool).page(run_addr(self.file_id, 0))) == Some(
                    meta@,
                ),
                Err(e) => e == StoreError::InvalidArgument,
            },
            res is Ok <==> Self::fits_on_page(
                var_bytes_tuple(
                    meta_bytes(
                        summary(self.file_id, self.written(old(buffer_pool)), self.current_page),
                    ),
                ).len() as int,
            ),
    {
        let ghost before = *buffer_pool;
        let ghost id = self.file_id;
        let ghost entries = self.written(buffer_pool);
        proof {
            self.lemma_summary(buffer_pool);
        }
        let min_key = match &self.min_key {
            Some(k) => k.clone(),
            None => Key::new(Vec::new()),
        };
        let max_key = match &self.max_key {
            Some(k) => k.clone(),
            None => Key::new(Vec::new()),
        };
        let meta = SSTableMeta {
            id: self.file_id,
            entry_count: self.entry_count,
            start_page: 1,
            end_page: self.current_page,
            min_key,
            max_key,
            min_seq: if self.min_seq == u64::MAX {
                0
            } else {
                self.min_seq
            },
            max_seq: self.max_seq,
        };
        assert(meta@.min_key =~= summary(id, entries, self.current_page).min_key);
        assert(meta@.max_key =~= summary(id, entries, self.current_page).max_key);
        assert(meta@ == summary(id, entries, self.current_page));
        let res = self.write_metadata(buffer_pool, &meta);
        let ghost mid = *buffer_pool;
        self.current_page_mut.close(buffer_pool);
        proof {
            self.lemma_finished(&before, &mid, buffer_pool);
        }
        match res {
            Ok(()) => Ok(meta),
            Err(e) => Err(e),
        }
    }

    /// What the writer's invariant says of the counters and the keys: they
    /// are those of the summary of what was written.
    proof fn lemma_summary(&self, pool: &BufferPool)
        requires
            self.wf(pool),
        ensures
            self.entry_count == self.written(pool).len(),
            self.min_seq == seq_low(self.written(pool)),
            self.max_seq == seq_high(self.written(pool)),
            match self.min_key {
                Some(k) => self.written(pool).len() > 0 && k@ == self.written(pool)[0].key
                    && k@.len() <= PAGE_SIZE,
                None => self.written(pool).len() == 0,
            },
            match self.max_key {
                Some(k) => self.written(pool).len() > 0 && k@ == self.written(pool).last().key
                    && k@.len() <= PAGE_SIZE,
                None => self.written(pool).len() == 0,
            },
    {
        reveal(SSTableWriter::wf);
    }

    /// The pool once the summary is written and the page that was being
    /// filled is given back: nobody holds a slot, the run's pages can be
    /// had and hold what was written, and the other files are as before.
    proof fn lemma_finished(&self, before: &BufferPool, mid: &BufferPool, after: &BufferPool)
        requires
            self.wf(before),
            mid.wf(),
            self.current_page_mut.held_in(mid),
            forall|i: int|
                0 <= i < BUFFER_POOL_SIZE && i != self.current_page_mut.slot ==> !#[trigger] mid.pinned(
                    i,
                ),
            mid.pages() == before.pages().insert(
                run_addr(self.file_id, 0),
                mid.page(run_addr(self.file_id, 0)),
            ),
            forall|a: PageAddr| #[trigger] before.present(a) ==> mid.present(a),
            mid.present(run_addr(self.file_id, 0)),
            after.wf(),
            after.keeps_pins_of(mid, self.current_page_mut.slot as int),
            after.pins[self.current_page_mut.slot as int] == crate::bufferpool::PinState::Unpinned,
            after.cached(self.current_page_mut.addr),
            after.keeps_other_pages_of(mid, self.current_page_mut.addr),
            after.pages() == mid.pages().insert(
                self.current_page_mut.addr,
                self.current_page_mut.data@,
            ),
        ensures
            after.none_pinned(),
            other_files_kept(after, before, self.file_id),
            run_ok(after, self.file_id, 1, self.current_page as int),
            run_entries(after.pages(), self.file_id, 1, self.current_page as int) == self.written(
                before,
            ),
            after.present(run_addr(self.file_id, 0)),
            after.page(run_addr(self.file_id, 0)) == mid.page(run_addr(self.file_id, 0)),
    {
        reveal(SSTableWriter::wf);
        let id = self.file_id;
        let cp = self.current_page as int;
        let pages = after.pages();
        let addr0 = run_addr(id, 0);
        let here = run_addr(id, cp);
        assert(self.current_page_mut.addr == here);
        assert(addr0 != here);
        assert forall|p: int| 1 <= p <= cp - 1 implies pages[#[trigger] run_addr(id, p)]
            == before.pages()[run_addr(id, p)] by {
            assert(run_addr(id, p) != here);
            assert(run_addr(id, p) != addr0);
        }
        lemma_run_entries_frame(before.pages(), pages, id, 1, cp - 1);
        lemma_run_entries_append(pages, id, 1, cp - 1);
        assert forall|i: int| 0 <= i < BUFFER_POOL_SIZE implies !#[trigger] after.pinned(i) by {
            if i != self.current_page_mut.slot {
                assert(!mid.pinned(i));
            }
        }
        assert forall|p: int| 1 <= p <= cp implies #[trigger] run_page_ok(after, id, p) by {
            if p < cp {
                assert(run_page_ok(before, id, p));
                assert(before.present(run_addr(id, p)));
                assert(mid.present(run_addr(id, p)));
                assert(after.present(run_addr(id, p)));
                assert(after.page(run_addr(id, p)) == pages[run_addr(id, p)]);
                assert(before.page(run_addr(id, p)) == before.pages()[run_addr(id, p)]);
            } else {
                assert(after.page(here) == pages[here]);
            }
        }
        assert forall|a: PageAddr| a.file_id != id implies #[trigger] after.page(a) == before.page(
            a,
        ) by {
            assert(a != here);
            assert(a != addr0);
            assert(after.page(a) == pages[a]);
            assert(before.page(a) == before.pages()[a]);
        }
        assert forall|a: PageAddr| #[trigger] before.present(a) implies after.present(a) by {
            assert(mid.present(a));
        }
        assert(after.present(addr0));
        assert(after.page(addr0) == pages[addr0]);
        assert(mid.page(addr0) == mid.pages()[addr0]);
    }
}

/// The entries with key `key`, in the order in which they stand.
pub open spec fn matching(entries: Seq<EntryView>, key: Seq<u8>) -> Seq<EntryView>
    decreases entries.len(),
{
    if entries.len() == 0 {
        Seq::empty()
    } else if entries.last().key == key {
        matching(entries.drop_last(), key).push(entries.last())
    } else {
        matching(entries.drop_last(), key)
    }
}

/// Whether the entries stand in their order: by key, and within one key
/// from the newest version to the oldest.
pub open spec fn entries_sorted(entries: Seq<EntryView>) -> bool {
    forall|i: int, j: int|
        0 <= i < j < entries.len() ==> entry_lt(#[trigger] entries[i], #[trigger] entries[j])
}

/// The entries with a key in two lists, one behind the other, are those
/// of the first and then those of the second.
pub proof fn lemma_matching_add(a: Seq<EntryView>, b: Seq<EntryView>, key: Seq<u8>)
    ensures
        matching(a + b, key) == matching(a, key) + matching(b, key),
    decreases b.len(),
{
    if b.len() == 0 {
        assert(a + b =~= a);
        assert(matching(a, key) + matching(b, key) =~= matching(a, key));
    } else {
        lemma_matching_add(a, b.drop_last(), key);
        assert((a + b).drop_last() =~= a + b.drop_last());
        assert((a + b).last() == b.last());
        if b.last().key == key {
            assert(matching(a, key) + matching(b.drop_last(), key).push(b.last()) =~= (matching(
                a,
                key,
            ) + matching(b.drop_last(), key)).push(b.last()));
        }
    }
}

/// Where no entry has the key, none is found.
pub proof fn lemma_matching_none(entries: Seq<EntryView>, key: Seq<u8>)
    requires
        forall|i: int| 0 <= i < entries.len() ==> (#[trigger] entries[i]).key != key,
    ensures
        matching(entries, key) == Seq::<EntryView>::empty(),
    decreases entries.len(),
{
    if entries.len() > 0 {
        assert(entries.last() == entries[entries.len() - 1]);
        lemma_matching_none(entries.drop_last(), key);
    }
}

/// Where every entry has the key, all are found.
pub proof fn lemma_matching_all(entries: Seq<EntryView>, key: Seq<u8>)
    requires
        forall|i: int| 0 <= i < entries.len() ==> (#[trigger] entries[i]).key == key,
    ensures
        matching(entries, key) == entries,
    decreases entries.len(),
{
    if entries.len() > 0 {
        assert(entries.last() == entries[entries.len() - 1]);
        lemma_matching_all(entries.drop_last(), key);
        assert(entries.drop_last().push(entries.last()) =~= entries);
    }
}

/// Where the entries with key `key` are those from `a` up to `b`, they are
/// what `matching` gives.
pub proof fn lemma_matching_range(entries: Seq<EntryView>, key: Seq<u8>, a: int, b: int)
    requires
        0 <= a <= b <= entries.len(),
        forall|i: int| 0 <= i < a ==> (#[trigger] entries[i]).key != key,
        forall|i: int| a <= i < b ==> (#[trigger] entries[i]).key == key,
        forall|i: int| b <= i < entries.len() ==> (#[trigger] entries[i]).key != key,
    ensures
        matching(entries, key) == entries.subrange(a, b),
{
    let x = entries.subrange(0, a);
    let y = entries.subrange(a, b);
    let z = entries.subrange(b, entries.len() as int);
    assert(entries =~= x + y + z);
    lemma_matching_add(x + y, z, key);
    lemma_matching_add(x, y, key);
    lemma_matching_none(x, key);
    lemma_matching_all(y, key);
    lemma_matching_none(z, key);
    assert(Seq::<EntryView>::empty() + y + Seq::<EntryView>::empty() =~= y);
}

/// The entries on the pages `lo` to `hi` are those on the pages up to `m`
/// and then those on the pages behind `m`.
pub proof fn lemma_run_entries_split(
    pages: Map<PageAddr, Seq<u8>>,
    id: u64,
    lo: int,
    m: int,
    hi: int,
)
    requires
        lo - 1 <= m <= hi,
    ensures
        run_entries(pages, id, lo, hi) == run_entries(pages, id, lo, m) + run_entries(
            pages,
            id,
            m + 1,
            hi,
        ),
    decreases m - lo + 1,
{
    if m < lo {
        assert(run_entries(pages, id, lo, m) =~= Seq::<EntryView>::empty());
        assert(Seq::<EntryView>::empty() + run_entries(pages, id, lo, hi) =~= run_entries(
            pages,
            id,
            lo,
            hi,
        ));
    } else {
        lemma_run_entries_split(pages, id, lo + 1, m, hi);
        let first = all_entries(pages[run_addr(id, lo)]);
        let x = run_entries(pages, id, lo + 1, m);
        let y = run_entries(pages, id, m + 1, hi);
        assert(first + (x + y) =~= (first + x) + y);
    }
}

/// The key of the entry in cell `i`.
pub open spec fn cell_key(data: Seq<u8>, i: int) -> Seq<u8> {
    cell_entry(data, i).unwrap().key
}

/// Whether the keys never go down along the first `n` cells.
pub open spec fn cells_sorted(data: Seq<u8>, n: int) -> bool {
    forall|i: int, j: int|
        0 <= i < j < n ==> bytes_le(#[trigger] cell_key(data, i), #[trigger] cell_key(data, j))
}

/// Whether to go on to the next page of a run.
#[derive(Clone, Copy, PartialEq, Eq, Structural)]
pub enum PageVerdict {
    /// The key may have entries on the next page.
    Continue,
    /// The key has no entries behind this page.
    Stop,
}

/// Whether the first `n` cells hold entries whose keys never go down.
#[verifier::opaque]
pub open spec fn cells_in_order(data: Seq<u8>, n: int) -> bool {
    &&& cells_sorted(data, n)
    &&& forall|j: int| 0 <= j < n ==> #[trigger] cell_entry(data, j) is Some
}

/// Whether the keys of the cells before `left` are smaller than `key`.
#[verifier::opaque]
pub open spec fn keys_below(data: Seq<u8>, left: int, key: Seq<u8>) -> bool {
    forall|j: int| 0 <= j < left ==> bytes_lt(#[trigger] cell_key(data, j), key)
}

/// Whether the keys of the cells from `right` up to `n` are `key` or
/// greater, and greater where `strict` is set.
#[verifier::opaque]
pub open spec fn keys_above(data: Seq<u8>, right: int, n: int, key: Seq<u8>, strict: bool) -> bool {
    forall|j: int|
        right <= j < n ==> if strict {
            bytes_lt(key, #[trigger] cell_key(data, j))
        } else {
            bytes_le(key, cell_key(data, j))
        }
}

proof fn lemma_search_start(data: Seq<u8>, n: int, key: Seq<u8>)
    ensures
        keys_below(data, 0, key),
        keys_above(data, n, n, key, true),
        keys_above(data, n, n, key, false),
{
    reveal(keys_below);
    reveal(keys_above);
}

proof fn lemma_search_less(data: Seq<u8>, n: int, mid: int, key: Seq<u8>)
    requires
        cells_in_order(data, n),
        0 <= mid < n,
        bytes_lt(cell_key(data, mid), key),
    ensures
        keys_below(data, mid + 1, key),
{
    reveal(cells_in_order);
    reveal(keys_below);
    assert forall|j: int| 0 <= j < mid + 1 implies bytes_lt(#[trigger] cell_key(data, j), key) by {
        if j < mid {
            assert(bytes_le(cell_key(data, j), cell_key(data, mid)));
            lemma_bytes_le_lt_transitive(cell_key(data, j), cell_key(data, mid), key);
        }
    }
}

proof fn lemma_search_not_less(data: Seq<u8>, n: int, mid: int, key: Seq<u8>, strict: bool)
    requires
        cells_in_order(data, n),
        0 <= mid < n,
        if strict {
            bytes_lt(key, cell_key(data, mid))
        } else {
            key == cell_key(data, mid)
        },
    ensures
        keys_above(data, mid, n, key, strict),
        keys_above(data, mid, n, key, false),
{
    reveal(cells_in_order);
    reveal(keys_above);
    assert forall|j: int| mid <= j < n implies (if strict {
        bytes_lt(key, #[trigger] cell_key(data, j))
    } else {
        bytes_le(key, cell_key(data, j))
    }) && bytes_le(key, cell_key(data, j)) by {
        if j > mid {
            assert(bytes_le(cell_key(data, mid), cell_key(data, j)));
            if strict {
                lemma_bytes_lt_le_transitive(key, cell_key(data, mid), cell_key(data, j));
            }
        }
    }
}

proof fn lemma_search_end(data: Seq<u8>, n: int, at: int, key: Seq<u8>, found: bool)
    requires
        0 <= at <= n,
        keys_below(data, at, key),
        !found ==> keys_above(data, at, n, key, true),
    ensures
        forall|j: int| 0 <= j < at ==> cell_key(data, j) != key,
        !found ==> forall|j: int| 0 <= j < n ==> cell_key(data, j) != key,
{
    reveal(keys_below);
    reveal(keys_above);
    lemma_bytes_lt_irreflexive(key);
}

proof fn lemma_search_found_stays(data: Seq<u8>, n: int, mid: int, r: int, key: Seq<u8>)
    requires
        keys_above(data, mid, n, key, true),
        mid <= r < n,
    ensures
        cell_key(data, r) != key,
{
    reveal(keys_above);
    assert(bytes_lt(key, cell_key(data, r)));
    lemma_bytes_lt_irreflexive(key);
}

impl SSTableReader {
    /// Searches the first `num_cells` cells of `page`, whose keys never go
    /// down, for the first cell with key `key`.
    fn binary_search_first(&self, page: &Page, key: &Key, num_cells: usize) -> (res: Result<
        Option<usize>,
        StoreError,
    >)
        ensures
            match res {
                Ok(Some(i)) => i < num_cells && cell_entry(page.data@, i as int) is Some
                    && cell_key(page.data@, i as int) == key@,
                Ok(None) => true,
                Err(e) => e != StoreError::Exhaustion && e != StoreError::Io && exists|j: int|
                    0 <= j < num_cells && cell_entry(page.data@, j) is None,
            },
            cells_in_order(page.data@, num_cells as int) ==> match res {
                Ok(Some(i)) => forall|j: int| 0 <= j < i ==> cell_key(page.data@, j) != key@,
                Ok(None) => forall|j: int| 0 <= j < num_cells ==> cell_key(page.data@, j) != key@,
                Err(e) => !cells_in_order(page.data@, num_cells as int),
            },
    {
        if num_cells == 0 {
            return Ok(None);
        }
        let ghost data = page.data@;
        let ghost n = num_cells as int;
        let ghost sorted = cells_in_order(data, n);
        let mut left: usize = 0;
        let mut right: usize = num_cells;
        let mut result: Option<usize> = None;
        proof {
            lemma_search_start(data, n, key@);
        }
        while left < right
            invariant
                data == page.data@,
                n == num_cells,
                left <= right <= num_cells,
                sorted == cells_in_order(data, n),
                result matches Some(r) ==> r < num_cells && cell_entry(data, r as int) is Some
                    && cell_key(data, r as int) == key@,
                sorted ==> keys_below(data, left as int, key@),
                sorted ==> (result matches Some(r) ==> r == right),
                sorted ==> (result is None ==> keys_above(data, right as int, n, key@, true)),
            decreases right - left,
        {
            let mid: usize = left + (right - left) / 2;
            let entry = match self.read_entry_from_page(page, mid) {
                Ok(entry) => entry,
                Err(e) => {
                    proof {
                        assert(cell_entry(data, mid as int) is None);
                        if sorted {
                            reveal(cells_in_order);
                        }
                    }
                    return Err(e);
                },
            };
            match entry.key.compare(key) {
                ByteOrder::Less => {
                    proof {
                        if sorted {
                            lemma_search_less(data, n, mid as int, key@);
                        }
                    }
                    left = mid + 1;
                },
                ByteOrder::Equal => {
                    result = Some(mid);
                    right = mid;
                },
                ByteOrder::Greater => {
                    proof {
                        if sorted {
                            lemma_search_not_less(data, n, mid as int, key@, true);
                            if result is Some {
                                lemma_search_found_stays(
                                    data,
                                    n,
                                    mid as int,
                                    result.unwrap() as int,
                                    key@,
                                );
                            }
                        }
                    }
                    right = mid;
                },
            }
        }
        proof {
            if sorted {
                lemma_search_end(data, n, left as int, key@, result is Some);
            }
        }
        Ok(result)
    }
}

/// The entries of a page whose cells are in order: none has the key where
/// the key is smaller than the first cell's.
proof fn lemma_page_key_low(data: Seq<u8>, n: int, key: Seq<u8>)
    requires
        cells_in_order(data, n),
        0 < n,
        bytes_lt(key, cell_key(data, 0)),
    ensures
        matching(page_entries(data, n), key) == Seq::<EntryView>::empty(),
{
    reveal(cells_in_order);
    lemma_page_entries(data, n);
    let entries = page_entries(data, n);
    assert forall|i: int| 0 <= i < entries.len() implies (#[trigger] entries[i]).key != key by {
        assert(entries[i].key == cell_key(data, i));
        if i > 0 {
            assert(bytes_le(cell_key(data, 0), cell_key(data, i)));
            lemma_bytes_lt_le_transitive(key, cell_key(data, 0), cell_key(data, i));
        }
        lemma_bytes_lt_irreflexive(key);
    }
    lemma_matching_none(entries, key);
}

/// The entries of a page whose cells are in order: none has the key where
/// the key is greater than the last cell's.
proof fn lemma_page_key_high(data: Seq<u8>, n: int, key: Seq<u8>)
    requires
        cells_in_order(data, n),
        0 < n,
        bytes_lt(cell_key(data, n - 1), key),
    ensures
        matching(page_entries(data, n), key) == Seq::<EntryView>::empty(),
{
    reveal(cells_in_order);
    lemma_page_entries(data, n);
    let entries = page_entries(data, n);
    assert forall|i: int| 0 <= i < entries.len() implies (#[trigger] entries[i]).key != key by {
        assert(entries[i].key == cell_key(data, i));
        if i < n - 1 {
            assert(bytes_le(cell_key(data, i), cell_key(data, n - 1)));
            lemma_bytes_le_lt_transitive(cell_key(data, i), cell_key(data, n - 1), key);
        }
        lemma_bytes_lt_irreflexive(key);
    }
    lemma_matching_none(entries, key);
}

/// The entries of a page none of whose cells has the key.
proof fn lemma_page_key_absent(data: Seq<u8>, n: int, key: Seq<u8>)
    requires
        0 <= n,
        forall|j: int| 0 <= j < n ==> cell_key(data, j) != key,
    ensures
        matching(page_entries(data, n), key) == Seq::<EntryView>::empty(),
{
    lemma_page_entries(data, n);
    let entries = page_entries(data, n);
    assert forall|i: int| 0 <= i < entries.len() implies (#[trigger] entries[i]).key != key by {
        assert(entries[i].key == cell_key(data, i));
    }
    lemma_matching_none(entries, key);
}

/// The entries of a page whose cells are in order, where the cells from
/// `idx` up to `j` have the key, none before `idx` has it, and cell `j`, if
/// there is one, does not have it.
proof fn lemma_page_key_range(data: Seq<u8>, n: int, key: Seq<u8>, idx: int, j: int)
    requires
        cells_in_order(data, n),
        0 <= idx < j <= n,
        forall|i: int| 0 <= i < idx ==> cell_key(data, i) != key,
        forall|i: int| idx <= i < j ==> cell_key(data, i) == key,
        j < n ==> cell_key(data, j) != key,
    ensures
        matching(page_entries(data, n), key) == page_entries(data, n).subrange(idx, j),
        j < n ==> bytes_lt(key, cell_key(data, j)),
{
    reveal(cells_in_order);
    lemma_page_entries(data, n);
    let entries = page_entries(data, n);
    assert forall|i: int| j <= i < entries.len() implies (#[trigger] entries[i]).key != key by {
        assert(entries[i].key == cell_key(data, i));
        assert(bytes_le(cell_key(data, idx), cell_key(data, j)));
        lemma_bytes_lt_total(key, cell_key(data, j));
        assert(bytes_lt(key, cell_key(data, j)));
        if i > j {
            assert(bytes_le(cell_key(data, j), cell_key(data, i)));
            lemma_bytes_lt_le_transitive(key, cell_key(data, j), cell_key(data, i));
        }
        lemma_bytes_lt_irreflexive(key);
    }
    assert forall|i: int| 0 <= i < idx implies (#[trigger] entries[i]).key != key by {
        assert(entries[i].key == cell_key(data, i));
    }
    assert forall|i: int| idx <= i < j implies (#[trigger] entries[i]).key == key by {
        assert(entries[i].key == cell_key(data, i));
    }
    lemma_matching_range(entries, key, idx, j);
    if j < n {
        assert(entries[j].key == cell_key(data, j));
        assert(bytes_le(cell_key(data, idx), cell_key(data, j)));
        lemma_bytes_lt_total(key, cell_key(data, j));
    }
}

/// Where the key lies between the keys of the first and of the last cell
/// and no cell has it, the last cell's key is greater.
proof fn lemma_page_key_between(data: Seq<u8>, n: int, key: Seq<u8>)
    requires
        0 < n,
        !bytes_lt(cell_key(data, n - 1), key),
        cell_key(data, n - 1) != key,
    ensures
        bytes_lt(key, cell_key(data, n - 1)),
{
    lemma_bytes_lt_total(key, cell_key(data, n - 1));
}

impl SSTableReader {
    /// Gathers the entries of the cells from `idx` on as long as they have
    /// key `key`, and returns the number of the first cell that was not
    /// gathered.
    fn gather(
        &self,
        page: &Page,
        key: &Key,
        idx: usize,
        num_cells: usize,
        results: &mut Vec<Entry>,
    ) -> (res: Result<usize, StoreError>)
        requires
            idx <= num_cells,
            4 + 4 * num_cells <= page.data@.len(),
        ensures
            final(results)@.len() >= old(results)@.len(),
            final(results)@.subrange(0, old(results)@.len() as int) == old(results)@,
            match res {
                Ok(j) => {
                    &&& idx <= j <= num_cells
                    &&& forall|i: int|
                        idx <= i < j ==> #[trigger] cell_entry(page.data@, i) is Some && cell_key(
                            page.data@,
                            i,
                        ) == key@
                    &&& j < num_cells ==> cell_entry(page.data@, j as int) is Some && cell_key(
                        page.data@,
                        j as int,
                    ) != key@
                    &&& entry_views(final(results)@) == entry_views(old(results)@) + page_entries(
                        page.data@,
                        num_cells as int,
                    ).subrange(idx as int, j as int)
                },
                Err(e) => e == StoreError::Corruption && exists|i: int|
                    0 <= i < num_cells && #[trigger] cell_entry(page.data@, i) is None,
            },
    {
        let ghost data = page.data@;
        let ghost before = entry_views(results@);
        let ghost on_page = page_entries(data, num_cells as int);
        let mut cell_idx: usize = idx;
        proof {
            lemma_page_entries(data, num_cells as int);
            assert(on_page.subrange(idx as int, idx as int) =~= Seq::<EntryView>::empty());
            assert(before + Seq::<EntryView>::empty() =~= before);
            assert(results@.subrange(0, results@.len() as int) =~= results@);
        }
        while cell_idx < num_cells
            invariant
                data == page.data@,
                4 + 4 * num_cells <= data.len(),
                on_page == page_entries(data, num_cells as int),
                on_page.len() == num_cells,
                idx <= cell_idx <= num_cells,
                before == entry_views(old(results)@),
                results@.len() >= old(results)@.len(),
                results@.subrange(0, old(results)@.len() as int) == old(results)@,
                forall|i: int|
                    idx <= i < cell_idx ==> #[trigger] cell_entry(data, i) is Some && cell_key(
                        data,
                        i,
                    ) == key@,
                entry_views(results@) == before + on_page.subrange(idx as int, cell_idx as int),
            decreases num_cells - cell_idx,
        {
            let entry = match self.read_entry_from_page(page, cell_idx) {
                Ok(entry) => entry,
                Err(e) => {
                    assert(cell_entry(data, cell_idx as int) is None);
                    return Err(StoreError::Corruption);
                },
            };
            if entry.key.same_as(key) {
                proof {
                    lemma_entry_views_push(results@, entry);
                    lemma_page_entries(data, num_cells as int);
                    assert(on_page[cell_idx as int] == entry@);
                    assert(on_page.subrange(idx as int, cell_idx as int + 1) =~= on_page.subrange(
                        idx as int,
                        cell_idx as int,
                    ).push(entry@));
                    assert((before + on_page.subrange(idx as int, cell_idx as int)).push(entry@)
                        =~= before + on_page.subrange(idx as int, cell_idx as int).push(entry@));
                }
                let ghost prev = results@;
                results.push(entry);
                assert(results@.subrange(0, old(results)@.len() as int) =~= prev.subrange(
                    0,
                    old(results)@.len() as int,
                ));
                cell_idx += 1;
            } else {
                return Ok(cell_idx);
            }
        }
        Ok(cell_idx)
    }

    /// Gathers from `page` the entries with key `key` and says whether the
    /// key may have entries on the next page. The keys on the page must
    /// never go down.
    #[verifier::rlimit(100)]
    #[verifier::spinoff_prover]
    fn search_page(&self, page: &Page, key: &Key, results: &mut Vec<Entry>) -> (res: Result<
        PageVerdict,
        StoreError,
    >)
        ensures
            final(results)@.len() >= old(results)@.len(),
            final(results)@.subrange(0, old(results)@.len() as int) == old(results)@,
            res matches Err(e) ==> e == StoreError::Corruption && !page_good(page.data@),
            page_good(page.data@) && cells_in_order(page.data@, cell_count(page.data@)) ==> {
                &&& res is Ok
                &&& entry_views(final(results)@) == entry_views(old(results)@) + matching(
                    all_entries(page.data@),
                    key@,
                )
                &&& res matches Ok(PageVerdict::Stop) ==> exists|i: int|
                    0 <= i < cell_count(page.data@) && bytes_lt(key@, #[trigger] cell_key(page.data@, i))
            },
    {
        let ghost data = page.data@;
        let ghost n = cell_count(data);
        let ghost good = page_good(data) && cells_in_order(data, n);
        let ghost before = entry_views(results@);
        assert(results@.subrange(0, results@.len() as int) =~= results@);
        assert(before + Seq::<EntryView>::empty() =~= before);
        let num_cells = match page.num_cells() {
            Ok(n) => n,
            Err(e) => {
                return Err(e);
            },
        };
        if num_cells == 0 {
            return Ok(PageVerdict::Continue);
        }
        let first_entry = match self.read_entry_from_page(page, 0) {
            Ok(entry) => entry,
            Err(e) => {
                return Err(StoreError::Corruption);
            },
        };
        let last_entry = match self.read_entry_from_page(page, num_cells - 1) {
            Ok(entry) => entry,
            Err(e) => {
                return Err(StoreError::Corruption);
            },
        };
        match key.compare(&first_entry.key) {
            ByteOrder::Less => {
                proof {
                    if good {
                        lemma_page_key_low(data, n, key@);
                        assert(bytes_lt(key@, cell_key(data, 0)));
                    }
                }
                return Ok(PageVerdict::Stop);
            },
            _ => {},
        }
        match key.compare(&last_entry.key) {
            ByteOrder::Greater => {
                proof {
                    if good {
                        lemma_page_key_high(data, n, key@);
                    }
                }
                return Ok(PageVerdict::Continue);
            },
            _ => {},
        }
        let first_idx = match self.binary_search_first(page, key, num_cells) {
            Ok(found) => found,
            Err(e) => {
                return Err(StoreError::Corruption);
            },
        };
        let idx: usize = match first_idx {
            Some(idx) => idx,
            None => {
                proof {
                    if good {
                        lemma_page_key_absent(data, n, key@);
                        lemma_page_key_between(data, n, key@);
                        assert(bytes_lt(key@, cell_key(data, n - 1)));
                    }
                }
                return Ok(PageVerdict::Stop);
            },
        };
        let stopped = match self.gather(page, key, idx, num_cells, results) {
            Ok(j) => j,
            Err(e) => {
                return Err(e);
            },
        };
        proof {
            if good {
                lemma_page_key_range(data, n, key@, idx as int, stopped as int);
                if stopped < num_cells {
                    assert(bytes_lt(key@, cell_key(data, stopped as int)));
                }
            }
        }
        if stopped < num_cells {
            Ok(PageVerdict::Stop)
        } else {
            Ok(PageVerdict::Continue)
        }
    }
}

/// In a run whose entries stand in their order, the cells of each page are
/// in order.
pub proof fn lemma_page_in_order(pool: &BufferPool, id: u64, lo: int, p: int, hi: int)
    requires
        lo <= p <= hi,
        run_ok(pool, id, lo, hi),
        entries_sorted(run_entries(pool.pages(), id, lo, hi)),
    ensures
        cells_in_order(pool.page(run_addr(id, p)), cell_count(pool.page(run_addr(id, p)))),
        page_good(pool.page(run_addr(id, p))),
{
    reveal(cells_in_order);
    let pages = pool.pages();
    let data = pool.page(run_addr(id, p));
    let n = cell_count(data);
    let run = run_entries(pages, id, lo, hi);
    let head = run_entries(pages, id, lo, p - 1);
    let tail = run_entries(pages, id, p + 1, hi);
    let here = all_entries(data);
    assert(run_page_ok(pool, id, p));
    lemma_run_entries_split(pages, id, lo, p - 1, hi);
    assert(run_entries(pages, id, p, hi) == here + tail);
    assert(run == head + (here + tail));
    lemma_page_entries(data, n);
    assert forall|i: int, j: int| 0 <= i < j < n implies bytes_le(
        #[trigger] cell_key(data, i),
        #[trigger] cell_key(data, j),
    ) by {
        assert(run[head.len() + i] == here[i]);
        assert(run[head.len() + j] == here[j]);
        assert(entry_lt(run[head.len() + i], run[head.len() + j]));
    }
}

/// In a run whose entries stand in their order, no entry behind page `p`
/// has a key that is smaller than the key of an entry on page `p`.
pub proof fn lemma_later_pages_no_match(
    pool: &BufferPool,
    id: u64,
    lo: int,
    p: int,
    hi: int,
    key: Seq<u8>,
    i: int,
)
    requires
        lo <= p <= hi,
        run_ok(pool, id, lo, hi),
        entries_sorted(run_entries(pool.pages(), id, lo, hi)),
        0 <= i < cell_count(pool.page(run_addr(id, p))),
        bytes_lt(key, cell_key(pool.page(run_addr(id, p)), i)),
    ensures
        matching(run_entries(pool.pages(), id, p + 1, hi), key) == Seq::<EntryView>::empty(),
{
    let pages = pool.pages();
    let data = pool.page(run_addr(id, p));
    let n = cell_count(data);
    let run = run_entries(pages, id, lo, hi);
    let head = run_entries(pages, id, lo, p - 1);
    let tail = run_entries(pages, id, p + 1, hi);
    let here = all_entries(data);
    lemma_run_entries_split(pages, id, lo, p - 1, hi);
    assert(run_entries(pages, id, p, hi) == here + tail);
    assert(run == head + (here + tail));
    lemma_page_entries(data, n);
    assert forall|k: int| 0 <= k < tail.len() implies (#[trigger] tail[k]).key != key by {
        assert(run[head.len() + i] == here[i]);
        assert(run[head.len() + n + k] == tail[k]);
        assert(entry_lt(run[head.len() + i], run[head.len() + n + k]));
        assert(bytes_le(here[i].key, tail[k].key));
        lemma_bytes_lt_le_transitive(key, here[i].key, tail[k].key);
        lemma_bytes_lt_irreflexive(key);
    }
    lemma_matching_none(tail, key);
}

/// In a run whose entries stand in their order, no entry has a key below
/// the first entry's or above the last entry's.
pub proof fn lemma_outside_bounds(entries: Seq<EntryView>, key: Seq<u8>)
    requires
        entries_sorted(entries),
        entries.len() == 0 || bytes_lt(key, entries[0].key) || bytes_lt(entries.last().key, key),
    ensures
        matching(entries, key) == Seq::<EntryView>::empty(),
{
    assert forall|k: int| 0 <= k < entries.len() implies (#[trigger] entries[k]).key != key by {
        lemma_bytes_lt_irreflexive(key);
        if bytes_lt(key, entries[0].key) {
            if k > 0 {
                assert(entry_lt(entries[0], entries[k]));
                lemma_bytes_lt_le_transitive(key, entries[0].key, entries[k].key);
            }
        } else {
            let last = entries.len() - 1;
            if k < last {
                assert(entry_lt(entries[k], entries[last]));
                lemma_bytes_le_lt_transitive(entries[k].key, entries[last].key, key);
            }
        }
    }
    lemma_matching_none(entries, key);
}

impl SSTableReader {
    /// The entries of the run.
    pub open spec fn entries(&self, pool: &BufferPool) -> Seq<EntryView> {
        run_entries(
            pool.pages(),
            self.meta.id,
            self.meta.start_page as int,
            self.meta.end_page as int,
        )
    }

    /// Whether the reader's summary is that of a run that `pool` holds, as
    /// the writer leaves it: every page of the run can be had and is a page
    /// of entries, the entries stand in their order, and the summary is
    /// theirs.
    pub open spec fn holds(&self, pool: &BufferPool) -> bool {
        &&& self.meta.start_page == 1
        &&& run_ok(pool, self.meta.id, 1, self.meta.end_page as int)
        &&& entries_sorted(self.entries(pool))
        &&& self.meta@ == summary(self.meta.id, self.entries(pool), self.meta.end_page)
        &&& pool.present(run_addr(self.meta.id, 0))
        &&& stored_meta(pool.page(run_addr(self.meta.id, 0))) == Some(self.meta@)
    }

    /// A run that a pool holds is held by a pool that is the same.
    pub proof fn lemma_holds_stable(&self, before: &BufferPool, after: &BufferPool)
        requires
            before.wf(),
            after.wf(),
            after.same_as(before),
            self.holds(before),
        ensures
            self.holds(after),
            self.entries(after) == self.entries(before),
    {
        lemma_run_ok_stable(before, after, self.meta.id, 1, self.meta.end_page as int);
        lemma_same_as(after, before);
        assert(before.present(run_addr(self.meta.id, 0)));
        assert(after.page(run_addr(self.meta.id, 0)) == before.page(run_addr(self.meta.id, 0)));
    }

    /// The entries of the run with key `key`, in the order in which they
    /// are stored: from the newest to the oldest. The pages are gone
    /// through in order; the search ends with the first page that shows
    /// that the key has no further entries.
    pub fn get(&self, buffer_pool: &mut BufferPool, key: &Key) -> (res: Result<
        Vec<Entry>,
        StoreError,
    >)
        requires
            old(buffer_pool).wf(),
        ensures
            final(buffer_pool).wf(),
            final(buffer_pool).same_as(old(buffer_pool)),
            !(bytes_le(self.meta@.min_key, key@) && bytes_le(key@, self.meta@.max_key)) ==> res is Ok
                && res.unwrap()@.len() == 0,
            old(buffer_pool).none_pinned() && self.holds(old(buffer_pool)) ==> res is Ok
                && entry_views(res.unwrap()@) == matching(self.entries(old(buffer_pool)), key@),
    {
        let ghost id = self.meta.id;
        let ghost lo = self.meta.start_page as int;
        let ghost hi = self.meta.end_page as int;
        let ghost pages = buffer_pool.pages();
        let ghost run = run_entries(pages, id, lo, hi);
        let ghost good = buffer_pool.none_pinned() && self.holds(buffer_pool);
        proof {
            lemma_same_as_refl(buffer_pool);
        }
        let mut results: Vec<Entry> = Vec::new();
        if !self.might_contain(key) {
            proof {
                if good {
                    lemma_bytes_lt_total(self.meta@.min_key, key@);
                    lemma_bytes_lt_total(key@, self.meta@.max_key);
                    lemma_outside_bounds(run, key@);
                    assert(entry_views(results@) =~= Seq::<EntryView>::empty());
                }
            }
            return Ok(results);
        }
        let mut page_id: u64 = self.meta.start_page;
        proof {
            assert(entry_views(results@) =~= Seq::<EntryView>::empty());
            assert(run_entries(pages, id, lo, lo - 1) =~= Seq::<EntryView>::empty());
        }
        while page_id <= self.meta.end_page
            invariant
                old(buffer_pool).wf(),
                buffer_pool.wf(),
                buffer_pool.same_as(old(buffer_pool)),
                id == self.meta.id,
                lo == self.meta.start_page,
                hi == self.meta.end_page,
                lo <= page_id,
                page_id == lo || page_id <= hi,
                bytes_le(self.meta@.min_key, key@) && bytes_le(key@, self.meta@.max_key),
                pages == old(buffer_pool).pages(),
                run == run_entries(pages, id, lo, hi),
                good == (old(buffer_pool).none_pinned() && self.holds(old(buffer_pool))),
                good ==> buffer_pool.none_pinned() && self.holds(buffer_pool) && buffer_pool.pages()
                    == pages,
                good ==> entry_views(results@) == matching(
                    run_entries(pages, id, lo, page_id - 1),
                    key@,
                ),
            decreases self.meta.end_page - page_id + 1,
        {
            let ghost p = page_id as int;
            let ghost before = *buffer_pool;
            let page_addr = PageAddr::new(self.meta.id, page_id);
            proof {
                if good {
                    assert(run_page_ok(&before, id, p));
                    lemma_no_refusal(&before, page_addr);
                    lemma_page_in_order(&before, id, lo, p, hi);
                }
            }
            let page = match Page::open(buffer_pool, page_addr) {
                Ok(page) => page,
                Err(e) => {
                    proof {
                        lemma_same_as_intro(buffer_pool, &before);
                        lemma_same_as_trans(buffer_pool, &before, old(buffer_pool));
                    }
                    return Err(e);
                },
            };
            let ghost mid = *buffer_pool;
            let ghost slot = page.slot as int;
            let ghost found = entry_views(results@);
            let verdict = self.search_page(&page, key, &mut results);
            page.close(buffer_pool);
            proof {
                lemma_read_cycle(buffer_pool, &mid, &before, slot);
                lemma_same_as_trans(buffer_pool, &before, old(buffer_pool));
                if good {
                    self.lemma_holds_stable(&before, buffer_pool);
                    lemma_same_as(buffer_pool, &before);
                    lemma_run_entries_append(pages, id, lo, p - 1);
                    lemma_matching_add(
                        run_entries(pages, id, lo, p - 1),
                        all_entries(pages[run_addr(id, p)]),
                        key@,
                    );
                }
            }
            match verdict {
                Ok(PageVerdict::Continue) => {},
                Ok(PageVerdict::Stop) => {
                    proof {
                        if good {
                            let data = before.page(run_addr(id, p));
                            let i = choose|i: int|
                                0 <= i < cell_count(data) && bytes_lt(
                                    key@,
                                    #[trigger] cell_key(data, i),
                                );
                            lemma_later_pages_no_match(&before, id, lo, p, hi, key@, i);
                            lemma_run_entries_split(pages, id, lo, p, hi);
                            lemma_matching_add(
                                run_entries(pages, id, lo, p),
                                run_entries(pages, id, p + 1, hi),
                                key@,
                            );
                            assert(entry_views(results@) + Seq::<EntryView>::empty()
                                =~= entry_views(results@));
                        }
                    }
                    return Ok(results);
                },
                Err(e) => {
                    return Err(e);
                },
            }
            if page_id == self.meta.end_page {
                return Ok(results);
            }
            page_id += 1;
        }
        proof {
            if good {
                assert(run =~= Seq::<EntryView>::empty());
            }
        }
        Ok(results)
    }
}

impl SSTableWriter {
    /// Gives up the run: gives back the page that was being filled. What
    /// was written stays in the file.
    pub fn abandon(self, buffer_pool: &mut BufferPool)
        requires
            self.wf(old(buffer_pool)),
        ensures
            final(buffer_pool).wf(),
            final(buffer_pool).none_pinned(),
            other_files_kept(final(buffer_pool), old(buffer_pool), self.file_id),
    {
        proof {
            reveal(SSTableWriter::wf);
        }
        let ghost before = *buffer_pool;
        let ghost id = self.file_id;
        let ghost cp = self.current_page as int;
        self.current_page_mut.close(buffer_pool);
        proof {
            assert forall|i: int| 0 <= i < BUFFER_POOL_SIZE implies !#[trigger] buffer_pool.pinned(
                i,
            ) by {
                if i != self.current_page_mut.slot {
                    assert(!before.pinned(i));
                }
            }
            assert forall|a: PageAddr| a.file_id != id implies #[trigger] buffer_pool.page(a)
                == before.page(a) by {
                assert(a != run_addr(id, cp));
            }
        }
    }
}

impl SSTableIterator {
    /// Every entry that the cursor has still to give. Fails with the first
    /// error that the cursor meets.
    pub fn collect(self, buffer_pool: &mut BufferPool) -> (res: Result<Vec<Entry>, StoreError>)
        requires
            old(buffer_pool).wf(),
        ensures
            final(buffer_pool).wf(),
            final(buffer_pool).same_as(old(buffer_pool)),
            self.table_ok(old(buffer_pool)) && self.wf(old(buffer_pool).pages()) ==> res is Ok
                && entry_views(res.unwrap()@) == self.remaining(old(buffer_pool).pages()),
    {
        let mut cursor = self;
        let mut all: Vec<Entry> = Vec::new();
        let ghost pages = buffer_pool.pages();
        let ghost whole = cursor.remaining(pages);
        let ghost good = cursor.table_ok(buffer_pool) && cursor.wf(pages);
        proof {
            lemma_same_as_refl(buffer_pool);
            assert(entry_views(all@) + whole =~= whole);
        }
        let mut steps: usize = 0;
        loop
            invariant
                old(buffer_pool).wf(),
                buffer_pool.wf(),
                buffer_pool.same_as(old(buffer_pool)),
                pages == old(buffer_pool).pages(),
                all@.len() == steps,
                good == (self.table_ok(old(buffer_pool)) && self.wf(pages)),
                whole == self.remaining(pages),
                good ==> buffer_pool.pages() == pages && cursor.table_ok(buffer_pool) && cursor.wf(
                    pages,
                ) && entry_views(all@) + cursor.remaining(pages) == whole,
            ensures
                buffer_pool.wf(),
                buffer_pool.same_as(old(buffer_pool)),
                good ==> entry_views(all@) == whole,
            decreases usize::MAX - steps,
        {
            let ghost before = *buffer_pool;
            let ghost found = entry_views(all@);
            let ghost left = cursor.remaining(pages);
            let item = cursor.next(buffer_pool);
            proof {
                lemma_same_as_trans(buffer_pool, &before, old(buffer_pool));
                lemma_same_as(buffer_pool, &before);
            }
            match item {
                None => {
                    proof {
                        if good {
                            assert(found + left =~= found);
                        }
                    }
                    break ;
                },
                Some(Ok(entry)) => {
                    proof {
                        lemma_entry_views_push(all@, entry);
                        if good {
                            assert(found.push(entry@) + left.skip(1) =~= found + left);
                        }
                    }
                    all.push(entry);
                },
                Some(Err(e)) => {
                    return Err(e);
                },
            }
            let count = all.len();
            if steps == usize::MAX {
                return Err(StoreError::Exhaustion);
            }
            steps += 1;
        }
        Ok(all)
    }
}

/// A cursor at the start of a run that the pool holds has the entries of
/// the run to give, in the order in which they were written.
pub proof fn lemma_cursor_reads_run(
    reader: &SSTableReader,
    cursor: &SSTableIterator,
    pool: &BufferPool,
)
    requires
        pool.none_pinned(),
        reader.holds(pool),
        cursor.meta@ == reader.meta@,
        !cursor.initialized,
        !cursor.finished,
        cursor.current_page == cursor.meta.start_page,
    ensures
        cursor.table_ok(pool),
        cursor.wf(pool.pages()),
        cursor.remaining(pool.pages()) == reader.entries(pool),
{
}

} // verus!
