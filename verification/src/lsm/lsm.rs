//! The engine: the in-memory table, the write-ahead log, the runs on disk
//! and the manifest, wired into one store.

use crate::bufferpool::{
    lemma_same_as, lemma_same_as_intro, lemma_same_as_refl, lemma_same_as_trans, BufferPool,
    PageAddr,
};
use crate::constants::PAGE_SIZE;
use crate::error::StoreError;
use crate::lsm::iterator::{
    in_order, in_streams, latest_of, lemma_latest_covers, lemma_latest_keys, lemma_latest_members,
    lemma_latest_newest, lemma_live_of, lemma_merge_in_order, lemma_merge_members, live_of,
    merge_all, LatestVersionIterator, LiveEntriesIterator, MergeIterator,
};
use crate::lsm::manifest::{
    lemma_manifest_round_trip, manifest_bytes, parse_manifest, read_manifest, render_manifest,
};
use crate::lsm::memtable::{lemma_with_newest, newest, seqs_below, with_entry, MemTable};
use crate::lsm::sstable::{
    entry_cell, meta_bytes, entries_sorted, seq_high, MetaView, lemma_run_entries_frame, matching, other_files_kept, run_addr, run_entries,
    run_ok, run_page_ok, stored_meta, summary, SSTableReader, SSTableWriter,
};
use crate::lsm::versions::{
    layered, lemma_flush_keeps_layers, lemma_versions_descend, lemma_write_keeps_layers,
    seqs_descend,
};
use crate::lsm::types::{
    entry_lt, entry_views, lemma_entry_lt_asymmetric, lemma_entry_views_push, Entry, EntryView,
    Key, SeqNum, Value,
};
use crate::lsm::wal::{
    lemma_wal_prefix, lemma_wal_round_trip, lemma_wal_torn_tail, log_bytes, loggable, record_bytes,
    wal_entries, Wal, WalReader,
};
use crate::pagefile::{page_id_valid, zero_page, PageFiles};
use crate::tuple::tuple::var_bytes_tuple;
use vstd::prelude::*;
use vstd::string::StringExecFns;

verus! {

/// How the engine is set up.
pub struct LsmConfig {
    /// The size of the in-memory table, in bytes, from which on it is
    /// flushed to a run.
    pub memtable_size_threshold: usize,
    /// The directory of the store's files.
    pub data_dir: String,
}

impl Clone for LsmConfig {
    fn clone(&self) -> (res: Self)
        ensures
            res.memtable_size_threshold == self.memtable_size_threshold,
            res.data_dir@ == self.data_dir@,
    {
        LsmConfig {
            memtable_size_threshold: self.memtable_size_threshold,
            data_dir: self.data_dir.clone(),
        }
    }
}

impl Default for LsmConfig {
    fn default() -> (config: Self)
        ensures
            config.memtable_size_threshold == 4 * 1024 * 1024,
            config.data_dir@ == "./data"@,
    {
        LsmConfig {
            memtable_size_threshold: 4 * 1024 * 1024,
            data_dir: String::from_str("./data"),
        }
    }
}

/// Counts of what the store holds.
#[derive(Debug, Clone, Copy)]
pub struct LsmStats {
    pub memtable_entries: usize,
    pub memtable_size_bytes: usize,
    pub sstable_count: usize,
    pub total_entries: usize,
}

/// The in-memory table that the writes of a log make up: each entry put
/// in, in the order of the log.
pub open spec fn replay(entries: Seq<EntryView>) -> Seq<EntryView>
    decreases entries.len(),
{
    if entries.len() == 0 {
        Seq::empty()
    } else {
        with_entry(replay(entries.drop_last()), entries.last())
    }
}

/// What a key reads as in a list of runs, the newest first: the value of
/// the first entry with the key in the first run that has one, `None` for
/// a tombstone and where no run has the key.
pub open spec fn runs_lookup(runs: Seq<Seq<EntryView>>, key: Seq<u8>) -> Option<Seq<u8>>
    decreases runs.len(),
{
    if runs.len() == 0 {
        None
    } else if matching(runs[0], key).len() > 0 {
        matching(runs[0], key)[0].value
    } else {
        runs_lookup(runs.drop_first(), key)
    }
}

/// Every entry with the key in a list of runs, run after run.
pub open spec fn runs_matching(runs: Seq<Seq<EntryView>>, key: Seq<u8>) -> Seq<EntryView>
    decreases runs.len(),
{
    if runs.len() == 0 {
        Seq::empty()
    } else {
        runs_matching(runs.drop_last(), key) + matching(runs.last(), key)
    }
}

/// Number of entries in front of `order` whose key is `k` or greater.
pub open spec fn leading_ge(order: Seq<int>, keys: Seq<u64>, k: u64) -> int
    decreases order.len(),
{
    if order.len() > 0 && keys[order[0]] >= k {
        1 + leading_ge(order.drop_first(), keys, k)
    } else {
        0
    }
}

/// The order that sorts `keys` from the greatest to the smallest and keeps
/// equal keys as they stand: the indices into `keys`, each put behind the
/// indices whose key is as great as its own.
pub open spec fn order_desc(keys: Seq<u64>) -> Seq<int>
    decreases keys.len(),
{
    if keys.len() == 0 {
        Seq::empty()
    } else {
        let order = order_desc(keys.drop_last());
        order.insert(leading_ge(order, keys, keys.last()), keys.len() - 1)
    }
}

/// The order that sorts `keys` from the greatest to the smallest and keeps
/// equal keys as they stand.
pub fn sort_order(keys: &Vec<u64>) -> (order: Vec<usize>)
    ensures
        order@.len() == keys@.len(),
        forall|i: int| 0 <= i < order@.len() ==> #[trigger] order@[i] == order_desc(keys@)[i],
        forall|i: int| 0 <= i < order@.len() ==> (#[trigger] order@[i]) < keys@.len(),
{
    let mut order: Vec<usize> = Vec::new();
    let mut n: usize = 0;
    assert(keys@.take(0) =~= Seq::<u64>::empty());
    while n < keys.len()
        invariant
            n <= keys.len(),
            order@.len() == n,
            forall|i: int| 0 <= i < n ==> #[trigger] order@[i] == order_desc(keys@.take(n as int))[i],
            forall|i: int| 0 <= i < n ==> (#[trigger] order@[i]) < n,
        decreases keys.len() - n,
    {
        let key: u64 = keys[n];
        let ghost prefix = keys@.take(n as int);
        let ghost next = keys@.take(n as int + 1);
        let ghost spec_order = order_desc(prefix);
        proof {
            lemma_order_desc_sorts(prefix);
            assert(next.drop_last() =~= prefix);
            assert(next.last() == key);
        }
        let mut pos: usize = 0;
        assert(spec_order.skip(0) =~= spec_order);
        while pos < order.len() && keys[order[pos]] >= key
            invariant
                pos <= order.len(),
                order@.len() == n,
                n < keys.len(),
                next == keys@.take(n as int + 1),
                spec_order.len() == n,
                forall|i: int| 0 <= i < n ==> #[trigger] order@[i] == spec_order[i],
                forall|i: int| 0 <= i < n ==> (#[trigger] order@[i]) < n,
                leading_ge(spec_order, next, key) == pos + leading_ge(
                    spec_order.skip(pos as int),
                    next,
                    key,
                ),
            decreases order.len() - pos,
        {
            proof {
                let rest = spec_order.skip(pos as int);
                assert(spec_order[pos as int] == order@[pos as int]);
                assert(rest[0] == spec_order[pos as int]);
                assert(0 <= rest[0] < n);
                assert(next[rest[0]] == keys@[rest[0]]);
                assert(rest.drop_first() =~= spec_order.skip(pos as int + 1));
            }
            pos += 1;
        }
        proof {
            let rest = spec_order.skip(pos as int);
            if pos < order.len() {
                assert(spec_order[pos as int] == order@[pos as int]);
                assert(rest[0] == spec_order[pos as int]);
                assert(0 <= rest[0] < n);
                assert(next[rest[0]] == keys@[rest[0]]);
            }
            assert(leading_ge(spec_order, next, key) == pos);
            assert(order_desc(next) == spec_order.insert(pos as int, n as int));
        }
        order.insert(pos, n);
        n += 1;
    }
    proof {
        assert(keys@.take(n as int) =~= keys@);
    }
    order
}

/// The engine.
pub struct LsmTree {
    pub config: LsmConfig,
    pub buffer_pool: BufferPool,
    /// The in-memory table that takes the writes.
    pub memtable: MemTable,
    /// The log of the writes in the in-memory table.
    pub wal: Wal,
    /// The runs, the newest first.
    pub sstables: Vec<SSTableReader>,
    /// The id of the next run.
    pub next_sstable_id: u64,
    /// The manifest as it was written last.
    pub manifest: Vec<u8>,
}

impl LsmTree {
    /// The entries of each run, the newest run first.
    pub open spec fn runs(&self) -> Seq<Seq<EntryView>> {
        Seq::new(self.sstables.len() as nat, |i: int| self.sstables[i].entries(&self.buffer_pool))
    }

    /// What a key reads as: its newest version in the in-memory table;
    /// where the table has none, its first entry in the newest run that has
    /// one. `None` for a tombstone and where the key has no entry.
    pub open spec fn lookup(&self, key: Seq<u8>) -> Option<Seq<u8>> {
        match newest(self.memtable@, key) {
            Some(v) => v,
            None => runs_lookup(self.runs(), key),
        }
    }

    /// The ids of the runs, the newest first.
    pub open spec fn run_ids(&self) -> Seq<u64> {
        Seq::new(self.sstables.len() as nat, |i: int| self.sstables[i].meta.id)
    }

    /// Whether `pool` holds each of the runs, and each run's id is below
    /// `next_id`.
    pub open spec fn tables_held(tables: Seq<SSTableReader>, pool: &BufferPool, next_id: u64) -> bool {
        forall|i: int|
            0 <= i < tables.len() ==> (#[trigger] tables[i]).holds(pool) && tables[i].meta.id
                < next_id
    }

    /// The engine's invariant: the pool is in order and nobody holds a
    /// slot; the in-memory table is in order; the pool holds every run, each
    /// under an id below the id of the next run; every run is newer than
    /// the runs behind it.
    pub open spec fn wf(&self) -> bool {
        &&& self.buffer_pool.wf()
        &&& self.buffer_pool.none_pinned()
        &&& self.memtable.wf()
        &&& Self::tables_held(self.sstables@, &self.buffer_pool, self.next_sstable_id)
        &&& self.ids_descending()
    }

    /// Whether the ids of the runs go down along the list of runs: every
    /// run is newer than the runs behind it.
    pub open spec fn ids_descending(&self) -> bool {
        forall|i: int, j: int|
            0 <= i < j < self.sstables@.len() ==> (#[trigger] self.sstables@[i]).meta.id > (
            #[trigger] self.sstables@[j]).meta.id
    }

    /// Whether the sequence numbers in the in-memory table are below the
    /// one that the next write gets.
    pub open spec fn seqs_ok(&self) -> bool {
        seqs_below(self.memtable@, self.memtable.next_seq_num)
    }

    /// Whether the log holds the records of the writes that make up the
    /// in-memory table, and nothing else.
    pub open spec fn logged(&self) -> bool {
        match wal_entries(self.wal.data@) {
            Some(entries) => {
                &&& log_bytes(entries) == self.wal.data@
                &&& forall|i: int| 0 <= i < entries.len() ==> loggable(#[trigger] entries[i])
                &&& replay(entries) == self.memtable@
            },
            None => false,
        }
    }
}

/// A store as plain data: what its table, its log, its list of runs and
/// its manifest hold. The entries of the runs stand on the pages of the
/// pool and are had by `LsmTree::runs`.
pub struct StoreView {
    /// The size of the table, in bytes, from which on it is flushed.
    pub threshold: usize,
    /// The entries of the in-memory table, in their order.
    pub table: Seq<EntryView>,
    /// The table's rough count of bytes.
    pub size_bytes: usize,
    /// The sequence number that the next write gets.
    pub next_seq_num: u64,
    /// The bytes of the log.
    pub log: Seq<u8>,
    /// The summaries of the runs, the newest run first.
    pub metas: Seq<MetaView>,
    /// The id of the next run.
    pub next_sstable_id: u64,
    /// The manifest as it was written last.
    pub manifest: Seq<u8>,
}

impl View for LsmTree {
    type V = StoreView;

    open spec fn view(&self) -> StoreView {
        StoreView {
            threshold: self.config.memtable_size_threshold,
            table: self.memtable@,
            size_bytes: self.memtable.size_bytes,
            next_seq_num: self.memtable.next_seq_num,
            log: self.wal.data@,
            metas: reader_metas(self.sstables@),
            next_sstable_id: self.next_sstable_id,
            manifest: self.manifest@,
        }
    }
}

/// The bytes of key and value that an entry counts for in the size of the
/// in-memory table.
pub open spec fn payload(e: EntryView) -> int {
    e.key.len() + (match e.value {
        Some(v) => v.len() as int,
        None => 0,
    })
}

/// Why a flush of the store fails: the ids of the runs are used up, or the
/// entries of the table cannot be written to a run. `None` where it does
/// not fail.
pub open spec fn flush_refusal(v: StoreView) -> Option<StoreError> {
    if v.table.len() == 0 {
        None
    } else if v.next_sstable_id == u64::MAX {
        Some(StoreError::Exhaustion)
    } else if !writable(v.next_sstable_id, v.table) {
        Some(StoreError::InvalidArgument)
    } else {
        None
    }
}

/// Whether a flush of the store writes a run.
pub open spec fn flushes(v: StoreView) -> bool {
    v.table.len() > 0 && flush_refusal(v) is None
}

/// The store once its table was written to a run: the run's summary stands
/// before those of the older runs, the manifest lists the runs, the table
/// and the log are empty, and the counter of sequence numbers is kept.
pub open spec fn flushed(v: StoreView) -> StoreView {
    let id = v.next_sstable_id;
    let end_page = layout(v.table, v.table.len() as int).unwrap().0;
    StoreView {
        table: Seq::empty(),
        size_bytes: 0,
        log: Seq::empty(),
        metas: seq![summary(id, v.table, end_page as u64)] + v.metas,
        next_sstable_id: (id + 1) as u64,
        manifest: manifest_bytes(seq![id] + meta_ids(v.metas)),
        ..v
    }
}

/// The store after a flush. A flush that fails for the entries has used up
/// the id of its run and kept the rest.
pub open spec fn after_flush(v: StoreView) -> StoreView {
    if flushes(v) {
        flushed(v)
    } else if flush_refusal(v) == Some(StoreError::InvalidArgument) {
        StoreView { next_sstable_id: (v.next_sstable_id + 1) as u64, ..v }
    } else {
        v
    }
}

/// What a flush returns.
pub open spec fn flush_result(v: StoreView) -> Result<(), StoreError> {
    match flush_refusal(v) {
        Some(e) => Err(e),
        None => Ok(()),
    }
}

/// Whether the table has reached the size from which on it is flushed.
pub open spec fn full(v: StoreView) -> bool {
    v.size_bytes >= v.threshold
}

/// The store once entry `e` was put into its table: the table holds the
/// entry, its size has grown by the entry, and the counter of sequence
/// numbers has moved on by one.
pub open spec fn with_write(v: StoreView, e: EntryView) -> StoreView {
    StoreView {
        table: with_entry(v.table, e),
        size_bytes: MemTable::grown(v.size_bytes, payload(e)),
        next_seq_num: (v.next_seq_num + 1) as u64,
        ..v
    }
}

/// The store once the record of entry `e` was appended to its log.
pub open spec fn with_record(v: StoreView, e: EntryView) -> StoreView {
    StoreView { log: v.log + record_bytes(e), ..v }
}

/// The store after the write of entry `e`. Where the counter of sequence
/// numbers stands at the largest number, nothing is written. Else the
/// entry goes into the table; its record goes into the log, unless a
/// length in it does not fit in 32 bits; and where the table has then
/// reached its size, the store is flushed.
pub open spec fn after_write(v: StoreView, e: EntryView) -> StoreView {
    if v.next_seq_num == u64::MAX {
        v
    } else if !loggable(e) {
        with_write(v, e)
    } else {
        let w = with_record(with_write(v, e), e);
        if full(w) {
            after_flush(w)
        } else {
            w
        }
    }
}

/// What the write of entry `e` returns: the entry's sequence number, or
/// the reason for which the write, the record or the flush was refused.
pub open spec fn write_result(v: StoreView, e: EntryView) -> Result<u64, StoreError> {
    if v.next_seq_num == u64::MAX {
        Err(StoreError::Exhaustion)
    } else if !loggable(e) {
        Err(StoreError::InvalidArgument)
    } else {
        let w = with_record(with_write(v, e), e);
        if full(w) && flush_refusal(w) is Some {
            Err(flush_refusal(w).unwrap())
        } else {
            Ok(e.seq_num)
        }
    }
}

/// Whether the write of entry `e` ends in a flush that writes a run.
pub open spec fn write_flushes(v: StoreView, e: EntryView) -> bool {
    let w = with_record(with_write(v, e), e);
    v.next_seq_num < u64::MAX && loggable(e) && full(w) && flushes(w)
}

impl LsmTree {
    /// What every call needs and keeps: the pool is in order and nobody
    /// holds a slot, and the in-memory table is in order.
    pub open spec fn sound(&self) -> bool {
        &&& self.buffer_pool.wf()
        &&& self.buffer_pool.none_pinned()
        &&& self.memtable.wf()
    }

    /// Whether the versions of the store lie in layers: every sequence
    /// number is below the one that the next write gets, every entry of the
    /// table is newer than every entry of the runs, and every entry of a
    /// run is newer than every entry of the runs behind it. So it is in a
    /// store that was opened over nothing, and after every write and flush.
    pub open spec fn layered(&self) -> bool {
        layered(self.memtable@, self.runs(), self.memtable.next_seq_num)
    }

    /// The entry that the next write of `value` under `key` makes; `None`
    /// for a delete.
    pub open spec fn next_entry(&self, key: Seq<u8>, value: Option<Seq<u8>>) -> EntryView {
        EntryView { key, seq_num: self.memtable.next_seq_num, value }
    }

    /// The entries of the runs after a flush: where the flush writes a run,
    /// the entries of the table stand before those of the older runs.
    pub open spec fn runs_after_flush(&self) -> Seq<Seq<EntryView>> {
        if flushes(self@) {
            seq![self.memtable@] + self.runs()
        } else {
            self.runs()
        }
    }

    /// The entries of the runs after the write of entry `e`.
    pub open spec fn runs_after_write(&self, e: EntryView) -> Seq<Seq<EntryView>> {
        if write_flushes(self@, e) {
            seq![with_entry(self.memtable@, e)] + self.runs()
        } else {
            self.runs()
        }
    }
}

/// Runs that a pool holds are held by a pool that is the same.
pub proof fn lemma_tables_same(
    tables: Seq<SSTableReader>,
    before: &BufferPool,
    after: &BufferPool,
    next_id: u64,
)
    requires
        before.wf(),
        after.wf(),
        after.same_as(before),
        LsmTree::tables_held(tables, before, next_id),
    ensures
        LsmTree::tables_held(tables, after, next_id),
        forall|i: int|
            0 <= i < tables.len() ==> (#[trigger] tables[i]).entries(after) == tables[i].entries(
                before,
            ),
        after.pages() == before.pages(),
        before.none_pinned() ==> after.none_pinned(),
{
    lemma_same_as(after, before);
    assert forall|i: int| 0 <= i < tables.len() implies (#[trigger] tables[i]).holds(after)
        && tables[i].meta.id < next_id && tables[i].entries(after) == tables[i].entries(
        before,
    ) by {
        tables[i].lemma_holds_stable(before, after);
    }
}

/// Runs that a pool holds are held by a pool in which only another file's
/// pages are not the same.
pub proof fn lemma_tables_other(
    tables: Seq<SSTableReader>,
    before: &BufferPool,
    after: &BufferPool,
    id: u64,
)
    requires
        before.wf(),
        after.wf(),
        other_files_kept(after, before, id),
        LsmTree::tables_held(tables, before, id),
    ensures
        LsmTree::tables_held(tables, after, id),
        forall|i: int|
            0 <= i < tables.len() ==> (#[trigger] tables[i]).entries(after) == tables[i].entries(
                before,
            ),
{
    assert forall|i: int| 0 <= i < tables.len() implies (#[trigger] tables[i]).holds(after)
        && tables[i].meta.id < id && tables[i].entries(after) == tables[i].entries(before) by {
        let t = tables[i];
        let rid = t.meta.id;
        let hi = t.meta.end_page as int;
        assert(t.holds(before));
        assert forall|p: int| 1 <= p <= hi implies after.pages()[#[trigger] run_addr(rid, p)]
            == before.pages()[run_addr(rid, p)] by {
            assert(after.page(run_addr(rid, p)) == before.page(run_addr(rid, p)));
        }
        lemma_run_entries_frame(before.pages(), after.pages(), rid, 1, hi);
        assert(before.present(run_addr(rid, 0)));
        assert(after.page(run_addr(rid, 0)) == before.page(run_addr(rid, 0)));
        assert forall|p: int| 1 <= p <= hi implies #[trigger] run_page_ok(after, rid, p) by {
            assert(run_page_ok(before, rid, p));
            assert(before.present(run_addr(rid, p)));
            assert(after.page(run_addr(rid, p)) == before.page(run_addr(rid, p)));
        }
    }
}

/// What was kept of the other files over two steps was kept over both.
pub proof fn lemma_other_files_trans(
    after: &BufferPool,
    mid: &BufferPool,
    before: &BufferPool,
    id: u64,
)
    requires
        other_files_kept(after, mid, id),
        other_files_kept(mid, before, id),
    ensures
        other_files_kept(after, before, id),
{
    assert forall|a: PageAddr| a.file_id != id implies #[trigger] after.page(a) == before.page(
        a,
    ) by {
        assert(mid.page(a) == before.page(a));
    }
    assert forall|a: PageAddr| #[trigger] before.present(a) implies after.present(a) by {
        assert(mid.present(a));
    }
}

/// A pool that is the same as another kept every file.
pub proof fn lemma_same_keeps_files(after: &BufferPool, before: &BufferPool, id: u64)
    requires
        after.wf(),
        before.wf(),
        after.same_as(before),
    ensures
        other_files_kept(after, before, id),
{
    lemma_same_as(after, before);
}

/// A value, or none, as plain data.
pub open spec fn value_view(value: Option<Value>) -> Option<Seq<u8>> {
    match value {
        Some(v) => Some(v@),
        None => None,
    }
}

/// A copy of a value, or of none.
pub fn clone_value(value: &Option<Value>) -> (copy: Option<Value>)
    ensures
        value_view(copy) == value_view(*value),
{
    match value {
        Some(v) => Some(v.clone()),
        None => None,
    }
}

/// Runs without an entry for the key do not count in what the key reads as.
pub proof fn lemma_runs_lookup_skip(runs: Seq<Seq<EntryView>>, key: Seq<u8>, n: int)
    requires
        0 <= n <= runs.len(),
        forall|j: int| 0 <= j < n ==> matching(#[trigger] runs[j], key).len() == 0,
    ensures
        runs_lookup(runs, key) == runs_lookup(runs.skip(n), key),
    decreases n,
{
    if n == 0 {
        assert(runs.skip(0) =~= runs);
    } else {
        assert(matching(runs[0], key).len() == 0);
        let rest = runs.drop_first();
        assert forall|j: int| 0 <= j < n - 1 implies matching(#[trigger] rest[j], key).len()
            == 0 by {
            assert(rest[j] == runs[j + 1]);
        }
        lemma_runs_lookup_skip(rest, key, n - 1);
        assert(rest.skip(n - 1) =~= runs.skip(n));
    }
}

impl LsmTree {
    /// Whether the store holds in `self` what it holds in `before`: the
    /// same table, log, runs and manifest, and a pool that is the same.
    pub open spec fn same_store_as(&self, before: &LsmTree) -> bool {
        &&& self.memtable == before.memtable
        &&& self.wal == before.wal
        &&& self.sstables == before.sstables
        &&& self.next_sstable_id == before.next_sstable_id
        &&& self.manifest == before.manifest
        &&& self.config == before.config
        &&& self.buffer_pool.same_as(&before.buffer_pool)
        &&& self.runs() == before.runs()
    }

    /// The newest value of `key`; `None` where the key was deleted or never
    /// written. The in-memory table is asked first, then the runs from the
    /// newest to the oldest; the first that has the key decides.
    pub fn get(&mut self, key: &Key) -> (res: Result<Option<Value>, StoreError>)
        requires
            old(self).sound(),
        ensures
            final(self).sound(),
            final(self).same_store_as(old(self)),
            old(self).wf() ==> final(self).wf() && res is Ok && value_view(res.unwrap()) == old(self).lookup(key@),
    {
        let ghost runs = self.runs();
        let ghost good = self.wf();
        proof {
            lemma_same_as_refl(&self.buffer_pool);
        }
        match self.memtable.get(key) {
            Some(Some(value)) => {
                return Ok(Some(value.clone()));
            },
            Some(None) => {
                return Ok(None);
            },
            None => {},
        }
        let mut i: usize = 0;
        while i < self.sstables.len()
            invariant
                old(self).sound(),
                self.sound(),
                good == old(self).wf(),
                good ==> self.wf(),
                self.same_store_as(old(self)),
                runs == old(self).runs(),
                runs.len() == self.sstables.len(),
                newest(old(self).memtable@, key@) is None,
                i <= self.sstables.len(),
                good ==> forall|j: int| 0 <= j < i ==> matching(#[trigger] runs[j], key@).len() == 0,
            decreases self.sstables.len() - i,
        {
            let ghost before = self.buffer_pool;
            assert(good ==> self.sstables[i as int].holds(&before));
            assert(self.runs()[i as int] == self.sstables[i as int].entries(&before));
            let found = self.sstables[i].get(&mut self.buffer_pool, key);
            proof {
                lemma_same_as_trans(&self.buffer_pool, &before, &old(self).buffer_pool);
                lemma_same_as(&self.buffer_pool, &before);
                if good {
                    lemma_tables_same(
                        self.sstables@,
                        &before,
                        &self.buffer_pool,
                        self.next_sstable_id,
                    );
                }
                assert(self.runs() =~= runs);
            }
            let entries = match found {
                Ok(entries) => entries,
                Err(e) => {
                    assert(!good);
                    return Err(e);
                },
            };
            if entries.len() > 0 {
                proof {
                    if good {
                        assert(entry_views(entries@)[0] == entries@[0]@);
                        lemma_runs_lookup_skip(runs, key@, i as int);
                        assert(runs.skip(i as int)[0] == runs[i as int]);
                    }
                }
                return Ok(clone_value(&entries[0].value));
            }
            proof {
                assert(entry_views(entries@).len() == 0);
            }
            i += 1;
        }
        proof {
            if good {
                lemma_runs_lookup_skip(runs, key@, i as int);
                assert(runs.skip(i as int) =~= Seq::<Seq<EntryView>>::empty());
            }
        }
        Ok(None)
    }
}

/// Where the writer of a run stands once the first `n` of the entries are
/// written: the page that is being filled and the room that is left on it.
/// An entry goes on the page that is being filled if its cell and the
/// cell's pointer fit in the room, else on the next page. `None` where the
/// cell of an entry fits on no page, or the file has no further page.
pub open spec fn layout(entries: Seq<EntryView>, n: int) -> Option<(int, int)>
    decreases n,
{
    if n <= 0 {
        Some((1, PAGE_SIZE - 4))
    } else {
        match layout(entries, n - 1) {
            None => None,
            Some((page, room)) => {
                let len = entry_cell(entries[n - 1]).len() as int;
                if room >= len + 4 {
                    Some((page, room - len - 4))
                } else if SSTableWriter::fits_on_page(len) && 0 <= page < u64::MAX && page_id_valid(
                    (page + 1) as u64,
                ) {
                    Some((page + 1, PAGE_SIZE - 8 - len))
                } else {
                    None
                }
            },
        }
    }
}

/// Whether the entries can be written to a run in file `id`: each of them
/// finds its page, and the cell of the run's summary fits on a page.
pub open spec fn writable(id: u64, entries: Seq<EntryView>) -> bool {
    match layout(entries, entries.len() as int) {
        Some((page, room)) => SSTableWriter::fits_on_page(
            var_bytes_tuple(meta_bytes(summary(id, entries, page as u64))).len() as int,
        ),
        None => false,
    }
}

/// Entries that cannot be written cannot be written with more behind them.
proof fn lemma_layout_none(entries: Seq<EntryView>, i: int, n: int)
    requires
        0 <= i <= n,
        layout(entries, i) is None,
    ensures
        layout(entries, n) is None,
    decreases n - i,
{
    if i < n {
        lemma_layout_none(entries, i, n - 1);
    }
}

/// Writes `entries`, which stand in their order, to a new run in file `id`,
/// has the pool write the run's pages to disk and opens the run.
fn write_run(buffer_pool: &mut BufferPool, id: u64, entries: &Vec<Entry>) -> (res: Result<
    SSTableReader,
    StoreError,
>)
    requires
        old(buffer_pool).wf(),
        old(buffer_pool).none_pinned(),
        entries_sorted(entry_views(entries@)),
    ensures
        final(buffer_pool).wf(),
        final(buffer_pool).none_pinned(),
        other_files_kept(final(buffer_pool), old(buffer_pool), id),
        match res {
            Ok(reader) => reader.meta.id == id && reader.holds(final(buffer_pool))
                && reader.entries(final(buffer_pool)) == entry_views(entries@)
                && layout(entry_views(entries@), entries@.len() as int) is Some
                && reader.meta.end_page == layout(
                entry_views(entries@),
                entries@.len() as int,
            ).unwrap().0,
            Err(e) => e == StoreError::InvalidArgument,
        },
        res is Ok <==> writable(id, entry_views(entries@)),
{
    let ghost pool0 = *buffer_pool;
    let ghost views = entry_views(entries@);
    proof {
        crate::lsm::sstable::lemma_no_refusal(&pool0, run_addr(id, 1));
    }
    let mut writer = match SSTableWriter::new(buffer_pool, id) {
        Ok(writer) => writer,
        Err(e) => {
            assert(false);
            return Err(e);
        },
    };
    let mut i: usize = 0;
    proof {
        assert(views.take(0) =~= Seq::<EntryView>::empty());
    }
    while i < entries.len()
        invariant
            i <= entries.len(),
            views == entry_views(entries@),
            views.len() == entries.len(),
            writer.wf(buffer_pool),
            writer.file_id == id,
            writer.written(buffer_pool) == views.take(i as int),
            writer.current_page <= i + 1,
            layout(views, i as int) == Some((writer.current_page as int, writer.room())),
            pool0 == *old(buffer_pool),
            other_files_kept(buffer_pool, &pool0, id),
        decreases entries.len() - i,
    {
        let ghost before = *buffer_pool;
        assert(views[i as int] == entries@[i as int]@);
        let written = writer.write_entry(buffer_pool, &entries[i]);
        proof {
            lemma_other_files_trans(buffer_pool, &before, &pool0, id);
            assert(views.take(i as int + 1) =~= views.take(i as int).push(views[i as int]));
        }
        match written {
            Ok(()) => {},
            Err(e) => {
                let ghost held = *buffer_pool;
                writer.abandon(buffer_pool);
                proof {
                    lemma_other_files_trans(buffer_pool, &held, &pool0, id);
                    assert(layout(views, i as int + 1) is None);
                    lemma_layout_none(views, i as int + 1, views.len() as int);
                }
                return Err(e);
            },
        }
        i += 1;
    }
    assert(views.take(i as int) =~= views);
    let ghost held = *buffer_pool;
    let ghost end_page = writer.current_page;
    let finished = writer.finish(buffer_pool);
    proof {
        lemma_other_files_trans(buffer_pool, &held, &pool0, id);
    }
    let meta = match finished {
        Ok(meta) => meta,
        Err(e) => {
            return Err(e);
        },
    };
    let ghost written_pool = *buffer_pool;
    let _ = buffer_pool.flush();
    let ghost flushed_pool = *buffer_pool;
    proof {
        lemma_same_as_intro(&flushed_pool, &written_pool);
        lemma_same_keeps_files(&flushed_pool, &written_pool, id);
        lemma_other_files_trans(&flushed_pool, &written_pool, &pool0, id);
        lemma_same_as(&flushed_pool, &written_pool);
        crate::lsm::sstable::lemma_no_refusal(&flushed_pool, run_addr(id, 0));
        assert(flushed_pool.present(run_addr(id, 0)));
    }
    let reader = match SSTableReader::open(buffer_pool, id) {
        Ok(reader) => reader,
        Err(e) => {
            assert(false);
            return Err(e);
        },
    };
    proof {
        lemma_same_keeps_files(buffer_pool, &flushed_pool, id);
        lemma_other_files_trans(buffer_pool, &flushed_pool, &pool0, id);
        lemma_same_as(buffer_pool, &flushed_pool);
        crate::lsm::sstable::lemma_run_ok_stable(
            &written_pool,
            &flushed_pool,
            id,
            1,
            end_page as int,
        );
        crate::lsm::sstable::lemma_run_ok_stable(&flushed_pool, buffer_pool, id, 1, end_page as int);
        assert(reader.meta@ == meta@);
        assert(written_pool.present(run_addr(id, 0)));
        assert(flushed_pool.present(run_addr(id, 0)));
        assert(buffer_pool.present(run_addr(id, 0)));
        assert(buffer_pool.page(run_addr(id, 0)) == written_pool.page(run_addr(id, 0)));
    }
    Ok(reader)
}

impl LsmTree {
    /// Writes the manifest anew: the ids of the runs, the newest first.
    fn save_manifest(&mut self) -> (res: Result<(), StoreError>)
        ensures
            res is Ok,
            final(self).manifest@ == manifest_bytes(old(self).run_ids()),
            final(self).memtable == old(self).memtable,
            final(self).wal == old(self).wal,
            final(self).sstables == old(self).sstables,
            final(self).next_sstable_id == old(self).next_sstable_id,
            final(self).config == old(self).config,
            final(self).buffer_pool == old(self).buffer_pool,
    {
        let mut ids: Vec<u64> = Vec::new();
        let mut i: usize = 0;
        while i < self.sstables.len()
            invariant
                i <= self.sstables.len(),
                *self == *old(self),
                ids@ == old(self).run_ids().take(i as int),
            decreases self.sstables.len() - i,
        {
            ids.push(self.sstables[i].meta.id);
            assert(ids@ =~= old(self).run_ids().take(i as int + 1));
            i += 1;
        }
        assert(old(self).run_ids().take(i as int) =~= old(self).run_ids());
        self.manifest = render_manifest(&ids);
        Ok(())
    }

    /// Writes the entries of the in-memory table to a new run, and starts
    /// the table and the log anew. The table keeps its counter of sequence
    /// numbers. Does nothing where the table is empty.
    pub fn flush(&mut self) -> (res: Result<(), StoreError>)
        requires
            old(self).sound(),
        ensures
            final(self).sound(),
            final(self)@ == after_flush(old(self)@),
            res == flush_result(old(self)@),
            final(self).config == old(self).config,
            final(self).wal.path@ == old(self).wal.path@,
            old(self).memtable@.len() == 0 ==> final(self).same_store_as(old(self)),
            old(self).wf() ==> final(self).wf() && final(self).runs() == old(self).runs_after_flush(),
            old(self).wf() ==> forall|k: Seq<u8>| #[trigger]
                final(self).lookup(k) == old(self).lookup(k),
            old(self).seqs_ok() ==> final(self).seqs_ok(),
            old(self).wf() && old(self).layered() ==> final(self).layered(),
            old(self).logged() ==> final(self).logged(),
    {
        let ghost start = *self;
        proof {
            lemma_same_as_refl(&self.buffer_pool);
        }
        if self.memtable.is_empty() {
            return Ok(());
        }
        let entries = self.memtable.iter();
        let wal_path = String::from_str(self.wal.path());
        if self.next_sstable_id == u64::MAX {
            return Err(StoreError::Exhaustion);
        }
        let sstable_id = self.next_sstable_id;
        self.next_sstable_id = sstable_id + 1;
        let written = write_run(&mut self.buffer_pool, sstable_id, &entries);
        proof {
            assert(self@.metas =~= start@.metas);
            if start.wf() {
                self.lemma_failed_flush(&start);
            }
        }
        let reader = match written {
            Ok(reader) => reader,
            Err(e) => {
                return Err(e);
            },
        };
        self.sstables.insert(0, reader);
        assert(self.sstables@.skip(1) =~= start.sstables@);
        let seq_num = self.memtable.current_seq_num();
        self.memtable = MemTable::with_seq_num(seq_num);
        self.wal = Wal::open(wal_path, Vec::new());
        proof {
            self.lemma_flushed_view(&start);
            if start.wf() {
                self.lemma_flushed(&start);
            }
            assert(self.memtable@ =~= Seq::<EntryView>::empty());
            assert(self.wal.data@ =~= Seq::<u8>::empty());
            assert(wal_entries(self.wal.data@) == Some(Seq::<EntryView>::empty()));
            assert(log_bytes(Seq::<EntryView>::empty()) =~= Seq::<u8>::empty());
        }
        let ghost mid = *self;
        let _ = self.save_manifest();
        proof {
            assert(self.runs() =~= mid.runs());
            assert(self.run_ids() =~= mid.run_ids());
            assert(self@.metas =~= mid@.metas);
            assert(self@ =~= flushed(start@));
            if start.wf() {
                assert forall|k: Seq<u8>| #[trigger] self.lookup(k) == start.lookup(k) by {
                    assert(mid.lookup(k) == start.lookup(k));
                }
                if start.layered() {
                    lemma_flush_keeps_layers(
                        start.memtable@,
                        start.runs(),
                        start.memtable.next_seq_num,
                    );
                }
            }
        }
        Ok(())
    }

    /// The summaries and the ids of the runs once the new run stands before
    /// the old runs.
    proof fn lemma_flushed_view(&self, start: &LsmTree)
        requires
            start.next_sstable_id < u64::MAX,
            writable(start.next_sstable_id, start.memtable@),
            self.sstables@.len() == start.sstables@.len() + 1,
            self.sstables@.skip(1) == start.sstables@,
            self.sstables@[0].meta@ == flushed(start@).metas[0],
        ensures
            self@.metas == flushed(start@).metas,
            self.run_ids() == seq![start.next_sstable_id] + meta_ids(start@.metas),
    {
        let id = start.next_sstable_id;
        assert forall|j: int| 0 <= j < self@.metas.len() implies self@.metas[j] == flushed(
            start@,
        ).metas[j] by {
            if j > 0 {
                assert(self.sstables@[j] == self.sstables@.skip(1)[j - 1]);
            }
        }
        assert(self@.metas =~= flushed(start@).metas);
        assert forall|j: int| 0 <= j < self.run_ids().len() implies self.run_ids()[j] == (seq![id]
            + meta_ids(start@.metas))[j] by {
            if j > 0 {
                assert(self.sstables@[j] == self.sstables@.skip(1)[j - 1]);
            }
        }
        assert(self.run_ids() =~= seq![id] + meta_ids(start@.metas));
    }

    /// After a flush that failed the old runs are held as before.
    proof fn lemma_failed_flush(&self, start: &LsmTree)
        requires
            start.wf(),
            start.next_sstable_id < u64::MAX,
            self.buffer_pool.wf(),
            self.buffer_pool.none_pinned(),
            other_files_kept(&self.buffer_pool, &start.buffer_pool, start.next_sstable_id),
            self.memtable == start.memtable,
            self.sstables == start.sstables,
            self.next_sstable_id == start.next_sstable_id + 1,
        ensures
            self.wf(),
            self.runs() == start.runs(),
            forall|k: Seq<u8>| #[trigger] self.lookup(k) == start.lookup(k),
    {
        lemma_tables_other(
            start.sstables@,
            &start.buffer_pool,
            &self.buffer_pool,
            start.next_sstable_id,
        );
        assert(self.runs() =~= start.runs());
    }

    /// After a flush the new run stands before the old runs, and every key
    /// reads as before.
    proof fn lemma_flushed(&self, start: &LsmTree)
        requires
            start.wf(),
            start.next_sstable_id < u64::MAX,
            self.buffer_pool.wf(),
            self.buffer_pool.none_pinned(),
            other_files_kept(&self.buffer_pool, &start.buffer_pool, start.next_sstable_id),
            self.sstables@.len() == start.sstables@.len() + 1,
            self.sstables@.skip(1) == start.sstables@,
            self.sstables@[0].meta.id == start.next_sstable_id,
            self.sstables@[0].holds(&self.buffer_pool),
            self.sstables@[0].entries(&self.buffer_pool) == start.memtable@,
            self.memtable.wf(),
            self.memtable@.len() == 0,
            self.next_sstable_id == start.next_sstable_id + 1,
        ensures
            self.wf(),
            self.runs() == seq![start.memtable@] + start.runs(),
            self.run_ids() == seq![start.next_sstable_id] + start.run_ids(),
            forall|k: Seq<u8>| #[trigger] self.lookup(k) == start.lookup(k),
    {
        let pool = self.buffer_pool;
        let tables = start.sstables@;
        let views = start.memtable@;
        let old_runs = start.runs();
        lemma_tables_other(tables, &start.buffer_pool, &pool, start.next_sstable_id);
        assert forall|j: int| 0 <= j < self.sstables@.len() implies (#[trigger] self.sstables@[j]).holds(
            &pool,
        ) && self.sstables@[j].meta.id < self.next_sstable_id by {
            if j > 0 {
                assert(self.sstables@[j] == self.sstables@.skip(1)[j - 1]);
                assert(tables[j - 1].holds(&pool));
            }
        }
        assert forall|j: int| 0 <= j < self.runs().len() implies self.runs()[j] == (seq![views]
            + old_runs)[j] by {
            if j > 0 {
                assert(self.sstables@[j] == self.sstables@.skip(1)[j - 1]);
                assert(old_runs[j - 1] == tables[j - 1].entries(&start.buffer_pool));
            }
        }
        assert(self.runs() =~= seq![views] + old_runs);
        assert forall|j: int| 0 <= j < self.run_ids().len() implies self.run_ids()[j] == (
        seq![start.next_sstable_id] + start.run_ids())[j] by {
            if j > 0 {
                assert(self.sstables@[j] == self.sstables@.skip(1)[j - 1]);
            }
        }
        assert(self.run_ids() =~= seq![start.next_sstable_id] + start.run_ids());
        self.lemma_flushed_reads(start);
        assert forall|i: int, j: int| 0 <= i < j < self.sstables@.len() implies (
        #[trigger] self.sstables@[i]).meta.id > (#[trigger] self.sstables@[j]).meta.id by {
            assert(self.sstables@[j] == self.sstables@.skip(1)[j - 1]);
            assert(tables[j - 1].meta.id < start.next_sstable_id);
            if i > 0 {
                assert(self.sstables@[i] == self.sstables@.skip(1)[i - 1]);
                assert(tables[i - 1].meta.id > tables[j - 1].meta.id);
            }
        }
    }

    /// Once the new run stands before the old runs and the in-memory table
    /// is empty, every key reads as before.
    proof fn lemma_flushed_reads(&self, start: &LsmTree)
        requires
            self.memtable@.len() == 0,
            self.runs() == seq![start.memtable@] + start.runs(),
        ensures
            forall|k: Seq<u8>| #[trigger] self.lookup(k) == start.lookup(k),
    {
        let views = start.memtable@;
        let old_runs = start.runs();
        assert forall|k: Seq<u8>| #[trigger] self.lookup(k) == start.lookup(k) by {
            assert((seq![views] + old_runs).drop_first() =~= old_runs);
            assert(matching(Seq::<EntryView>::empty(), k).len() == 0);
            assert(self.memtable@ =~= Seq::<EntryView>::empty());
        }
    }
}

/// The log and the table after a write that was logged: where the log held
/// the records of the writes that make up the table, it still does.
pub proof fn lemma_logged_write(data: Seq<u8>, table: Seq<EntryView>, e: EntryView)
    requires
        loggable(e),
        wal_entries(data) matches Some(entries) && log_bytes(entries) == data && replay(entries)
            == table && forall|i: int| 0 <= i < entries.len() ==> loggable(#[trigger] entries[i]),
    ensures
        wal_entries(data + record_bytes(e)) matches Some(entries) && log_bytes(entries) == data
            + record_bytes(e) && replay(entries) == with_entry(table, e) && forall|i: int|
            0 <= i < entries.len() ==> loggable(#[trigger] entries[i]),
{
    let entries = wal_entries(data).unwrap();
    let more = entries.push(e);
    assert(more.drop_last() =~= entries);
    assert(log_bytes(more) == data + record_bytes(e));
    lemma_wal_round_trip(more);
}

impl LsmTree {
    /// Flushes the in-memory table where it has reached the size from
    /// which on it is flushed.
    fn maybe_flush(&mut self) -> (res: Result<(), StoreError>)
        requires
            old(self).sound(),
        ensures
            final(self).sound(),
            final(self).config == old(self).config,
            final(self).wal.path@ == old(self).wal.path@,
            final(self)@ == (if full(old(self)@) {
                after_flush(old(self)@)
            } else {
                old(self)@
            }),
            res == (if full(old(self)@) {
                flush_result(old(self)@)
            } else {
                Ok(())
            }),
            old(self).wf() ==> final(self).wf() && final(self).runs() == (if full(old(self)@) {
                old(self).runs_after_flush()
            } else {
                old(self).runs()
            }),
            old(self).wf() ==> forall|k: Seq<u8>| #[trigger]
                final(self).lookup(k) == old(self).lookup(k),
            old(self).seqs_ok() ==> final(self).seqs_ok(),
            old(self).wf() && old(self).layered() ==> final(self).layered(),
            old(self).logged() ==> final(self).logged(),
    {
        let should_flush = self.memtable.size_bytes() >= self.config.memtable_size_threshold;
        if should_flush {
            self.flush()
        } else {
            Ok(())
        }
    }

    /// Writes an entry with the next sequence number, which is returned:
    /// into the in-memory table and then into the log. The table is flushed
    /// where it has reached its size. `value` is `None` for a delete.
    fn write(&mut self, key: Key, value: Option<Value>) -> (res: Result<SeqNum, StoreError>)
        requires
            old(self).sound(),
        ensures
            final(self).sound(),
            final(self).config == old(self).config,
            final(self).wal.path@ == old(self).wal.path@,
            final(self)@ == after_write(old(self)@, old(self).next_entry(key@, value_view(value))),
            res == write_result(old(self)@, old(self).next_entry(key@, value_view(value))),
            old(self).wf() ==> final(self).wf() && final(self).runs() == old(self).runs_after_write(
                old(self).next_entry(key@, value_view(value)),
            ),
            old(self).wf() && old(self).seqs_ok() && old(self).memtable.next_seq_num < u64::MAX
                ==> final(self).lookup(key@) == value_view(value) && forall|k: Seq<u8>|
                k != key@ ==> #[trigger] final(self).lookup(k) == old(self).lookup(k),
            old(self).seqs_ok() ==> final(self).seqs_ok(),
            old(self).wf() && old(self).layered() ==> final(self).layered(),
            old(self).logged() && loggable(old(self).next_entry(key@, value_view(value)))
                ==> final(self).logged(),
    {
        let ghost start = *self;
        let ghost e = start.next_entry(key@, value_view(value));
        if self.memtable.current_seq_num() == u64::MAX {
            return Err(StoreError::Exhaustion);
        }
        let seq_num: u64;
        let logged: Result<(), StoreError>;
        match value {
            Some(v) => {
                seq_num = self.memtable.put(key.clone(), v.clone());
                logged = self.wal.log_put(&key, &v, seq_num);
            },
            None => {
                seq_num = self.memtable.delete(key.clone());
                logged = self.wal.log_delete(&key, seq_num);
            },
        }
        let ghost mid = *self;
        proof {
            assert(mid.runs() =~= start.runs());
            assert(mid@.metas =~= start@.metas);
            if start.seqs_ok() {
                mid.lemma_wrote(&start, e);
            }
            if start.wf() && start.layered() {
                lemma_write_keeps_layers(
                    start.memtable@,
                    start.runs(),
                    start.memtable.next_seq_num,
                    e,
                );
            }
            if start.logged() && logged is Ok {
                lemma_logged_write(start.wal.data@, start.memtable@, e);
            }
            if logged is Ok {
                assert(mid@ =~= with_record(with_write(start@, e), e));
            } else {
                assert(mid@ =~= with_write(start@, e));
            }
        }
        match logged {
            Ok(()) => {},
            Err(e) => {
                return Err(e);
            },
        }
        match self.maybe_flush() {
            Ok(()) => {},
            Err(e) => {
                return Err(e);
            },
        }
        Ok(seq_num)
    }

    /// Writes `value` under `key`: into the in-memory table, with the next
    /// sequence number, which is returned, and then into the log. The table
    /// is flushed where it has reached its size. Nothing is written where
    /// the sequence numbers are used up.
    pub fn put(&mut self, key: Key, value: Value) -> (res: Result<SeqNum, StoreError>)
        requires
            old(self).sound(),
        ensures
            final(self).sound(),
            final(self).config == old(self).config,
            final(self).wal.path@ == old(self).wal.path@,
            final(self)@ == after_write(old(self)@, old(self).next_entry(key@, Some(value@))),
            res == write_result(old(self)@, old(self).next_entry(key@, Some(value@))),
            old(self).wf() ==> final(self).wf() && final(self).runs() == old(self).runs_after_write(
                old(self).next_entry(key@, Some(value@)),
            ),
            old(self).wf() && old(self).seqs_ok() && old(self).memtable.next_seq_num < u64::MAX
                ==> final(self).lookup(key@) == Some(value@) && forall|k: Seq<u8>|
                k != key@ ==> #[trigger] final(self).lookup(k) == old(self).lookup(k),
            old(self).seqs_ok() ==> final(self).seqs_ok(),
            old(self).wf() && old(self).layered() ==> final(self).layered(),
            old(self).logged() && loggable(old(self).next_entry(key@, Some(value@)))
                ==> final(self).logged(),
    {
        self.write(key, Some(value))
    }

    /// Deletes `key`: writes a tombstone into the in-memory table, with the
    /// next sequence number, which is returned, and then into the log. The
    /// table is flushed where it has reached its size. Nothing is written
    /// where the sequence numbers are used up.
    pub fn delete(&mut self, key: Key) -> (res: Result<SeqNum, StoreError>)
        requires
            old(self).sound(),
        ensures
            final(self).sound(),
            final(self).config == old(self).config,
            final(self).wal.path@ == old(self).wal.path@,
            final(self)@ == after_write(old(self)@, old(self).next_entry(key@, None)),
            res == write_result(old(self)@, old(self).next_entry(key@, None)),
            old(self).wf() ==> final(self).wf() && final(self).runs() == old(self).runs_after_write(
                old(self).next_entry(key@, None),
            ),
            old(self).wf() && old(self).seqs_ok() && old(self).memtable.next_seq_num < u64::MAX
                ==> final(self).lookup(key@) is None && forall|k: Seq<u8>|
                k != key@ ==> #[trigger] final(self).lookup(k) == old(self).lookup(k),
            old(self).seqs_ok() ==> final(self).seqs_ok(),
            old(self).wf() && old(self).layered() ==> final(self).layered(),
            old(self).logged() && loggable(old(self).next_entry(key@, None))
                ==> final(self).logged(),
    {
        self.write(key, None)
    }

    /// What the keys read as once an entry with the next sequence number
    /// was put into the in-memory table: the entry's key reads as the
    /// entry's value, every other key as before.
    proof fn lemma_wrote(&self, start: &LsmTree, e: EntryView)
        requires
            start.memtable.wf(),
            start.seqs_ok(),
            e.seq_num == start.memtable.next_seq_num,
            self.memtable@ == with_entry(start.memtable@, e),
            self.runs() == start.runs(),
        ensures
            self.lookup(e.key) == e.value,
            forall|k: Seq<u8>| k != e.key ==> #[trigger] self.lookup(k) == start.lookup(k),
            e.seq_num < u64::MAX ==> seqs_below(self.memtable@, (e.seq_num + 1) as u64),
    {
        let before = start.memtable@;
        let after = self.memtable@;
        lemma_with_newest(before, e, e.key);
        assert forall|k: Seq<u8>| k != e.key implies #[trigger] self.lookup(k) == start.lookup(
            k,
        ) by {
            lemma_with_newest(before, e, k);
        }
        if e.seq_num < u64::MAX {
            crate::lsm::memtable::lemma_position_exists(before, e);
            let i = crate::lsm::memtable::position(before, e);
            assert(!crate::lsm::memtable::same_version(before, i, e));
            assert forall|j: int| 0 <= j < after.len() implies (#[trigger] after[j]).seq_num
                < e.seq_num + 1 by {
                if j < i {
                    assert(after[j] == before[j]);
                } else if j > i {
                    assert(after[j] == before[j - 1]);
                }
            }
        }
    }
}

/// The sequence numbers of the entries.
pub open spec fn seqs_of(entries: Seq<EntryView>) -> Seq<u64> {
    entries.map_values(|e: EntryView| e.seq_num)
}

/// The entries from the highest sequence number to the lowest; entries
/// with the same sequence number stay as they stand.
pub open spec fn sorted_by_seq(entries: Seq<EntryView>) -> Seq<EntryView> {
    Seq::new(entries.len(), |i: int| entries[order_desc(seqs_of(entries))[i]])
}

/// Every entry with the key is an entry with the key.
pub proof fn lemma_matching_keys(entries: Seq<EntryView>, key: Seq<u8>)
    ensures
        forall|i: int|
            0 <= i < matching(entries, key).len() ==> (#[trigger] matching(entries, key)[i]).key
                == key,
        matching(entries, key).len() <= entries.len(),
    decreases entries.len(),
{
    if entries.len() > 0 {
        lemma_matching_keys(entries.drop_last(), key);
    }
}

impl LsmTree {
    /// Every entry with the key: those of the in-memory table, then those
    /// of each run, the newest run first.
    pub open spec fn all_matching(&self, key: Seq<u8>) -> Seq<EntryView> {
        matching(self.memtable@, key) + runs_matching(self.runs(), key)
    }

    /// Every version of `key`, from the highest sequence number to the
    /// lowest: the entries of the in-memory table and of every run.
    pub fn get_all(&mut self, key: &Key) -> (res: Result<Vec<Entry>, StoreError>)
        requires
            old(self).sound(),
        ensures
            final(self).sound(),
            final(self).same_store_as(old(self)),
            old(self).wf() ==> final(self).wf() && res is Ok && entry_views(res.unwrap()@)
                == sorted_by_seq(old(self).all_matching(key@)),
    {
        let ghost runs = self.runs();
        let ghost good = self.wf();
        let ghost in_table = matching(self.memtable@, key@);
        let mut all_entries: Vec<Entry> = Vec::new();
        proof {
            lemma_same_as_refl(&self.buffer_pool);
            lemma_matching_keys(self.memtable@, key@);
        }
        let found = self.memtable.get_all(key);
        let mut k: usize = 0;
        while k < found.len()
            invariant
                k <= found.len(),
                found@.len() == in_table.len(),
                *self == *old(self),
                in_table == matching(self.memtable@, key@),
                forall|j: int| 0 <= j < in_table.len() ==> (#[trigger] in_table[j]).key == key@,
                forall|j: int|
                    0 <= j < found@.len() ==> (#[trigger] found@[j]).0 == in_table[j].seq_num
                        && match found@[j].1 {
                        Some(value) => in_table[j].value == Some(value@),
                        None => in_table[j].value is None,
                    },
                entry_views(all_entries@) == in_table.take(k as int),
            decreases found.len() - k,
        {
            let (seq_num, value_opt) = found[k];
            let entry = match value_opt {
                Some(v) => Entry::put(key.clone(), seq_num, v.clone()),
                None => Entry::delete(key.clone(), seq_num),
            };
            proof {
                assert(entry@ == in_table[k as int]);
                lemma_entry_views_push(all_entries@, entry);
                assert(in_table.take(k as int + 1) =~= in_table.take(k as int).push(
                    in_table[k as int],
                ));
            }
            all_entries.push(entry);
            k += 1;
        }
        proof {
            assert(in_table.take(k as int) =~= in_table);
            assert(runs.take(0) =~= Seq::<Seq<EntryView>>::empty());
            assert(in_table + runs_matching(runs.take(0), key@) =~= in_table);
        }
        let mut i: usize = 0;
        while i < self.sstables.len()
            invariant
                old(self).sound(),
                self.sound(),
                good == old(self).wf(),
                good ==> self.wf(),
                self.same_store_as(old(self)),
                runs == old(self).runs(),
                runs.len() == self.sstables.len(),
                in_table == matching(old(self).memtable@, key@),
                i <= self.sstables.len(),
                good ==> entry_views(all_entries@) == in_table + runs_matching(
                    runs.take(i as int),
                    key@,
                ),
            decreases self.sstables.len() - i,
        {
            let ghost before = self.buffer_pool;
            assert(good ==> self.sstables[i as int].holds(&before));
            assert(self.runs()[i as int] == self.sstables[i as int].entries(&before));
            let found = self.sstables[i].get(&mut self.buffer_pool, key);
            proof {
                lemma_same_as_trans(&self.buffer_pool, &before, &old(self).buffer_pool);
                lemma_same_as(&self.buffer_pool, &before);
                if good {
                    lemma_tables_same(
                        self.sstables@,
                        &before,
                        &self.buffer_pool,
                        self.next_sstable_id,
                    );
                }
                assert(self.runs() =~= runs);
            }
            let mut entries = match found {
                Ok(entries) => entries,
                Err(e) => {
                    assert(!good);
                    return Err(e);
                },
            };
            let ghost so_far = entry_views(all_entries@);
            let ghost here = entry_views(entries@);
            all_entries.append(&mut entries);
            proof {
                assert(entry_views(all_entries@) =~= so_far + here);
                assert(runs.take(i as int + 1).drop_last() =~= runs.take(i as int));
                assert(runs.take(i as int + 1).last() == runs[i as int]);
                assert(in_table + runs_matching(runs.take(i as int), key@) + here =~= in_table + (
                runs_matching(runs.take(i as int), key@) + here));
            }
            i += 1;
        }
        assert(runs.take(i as int) =~= runs);
        let ghost all = entry_views(all_entries@);
        let mut seqs: Vec<u64> = Vec::new();
        let mut n: usize = 0;
        while n < all_entries.len()
            invariant
                n <= all_entries.len(),
                all == entry_views(all_entries@),
                seqs@ == seqs_of(all).take(n as int),
            decreases all_entries.len() - n,
        {
            seqs.push(all_entries[n].seq_num);
            assert(seqs@ =~= seqs_of(all).take(n as int + 1));
            n += 1;
        }
        assert(seqs_of(all).take(n as int) =~= seqs_of(all));
        let order = sort_order(&seqs);
        let mut sorted: Vec<Entry> = Vec::new();
        let mut m: usize = 0;
        while m < order.len()
            invariant
                m <= order.len(),
                all == entry_views(all_entries@),
                order@.len() == all.len(),
                seqs@ == seqs_of(all),
                forall|j: int| 0 <= j < order@.len() ==> #[trigger] order@[j] == order_desc(seqs@)[j],
                forall|j: int| 0 <= j < order@.len() ==> (#[trigger] order@[j]) < all.len(),
                entry_views(sorted@) == sorted_by_seq(all).take(m as int),
            decreases order.len() - m,
        {
            let entry = all_entries[order[m]].clone();
            proof {
                lemma_entry_views_push(sorted@, entry);
                assert(sorted_by_seq(all).take(m as int + 1) =~= sorted_by_seq(all).take(
                    m as int,
                ).push(entry@));
            }
            sorted.push(entry);
            m += 1;
        }
        assert(sorted_by_seq(all).take(m as int) =~= sorted_by_seq(all));
        Ok(sorted)
    }

    /// Every entry of the store, in the order of entries: the in-memory
    /// table and the runs, merged. Of entries with the same key and
    /// sequence number the one of the table comes first, then those of the
    /// runs, the newest run first.
    pub fn scan(&mut self) -> (res: Result<Vec<Entry>, StoreError>)
        requires
            old(self).sound(),
        ensures
            final(self).sound(),
            final(self).same_store_as(old(self)),
            old(self).wf() ==> final(self).wf() && res is Ok && entry_views(res.unwrap()@)
                == merge_all(seq![old(self).memtable@] + old(self).runs()),
    {
        let ghost runs = self.runs();
        let ghost good = self.wf();
        let ghost streams = seq![self.memtable@] + runs;
        let mut sources: Vec<Vec<Entry>> = Vec::new();
        proof {
            lemma_same_as_refl(&self.buffer_pool);
        }
        sources.push(self.memtable.iter());
        assert(crate::lsm::iterator::stream_views(sources@) =~= streams.take(1));
        let mut i: usize = 0;
        while i < self.sstables.len()
            invariant
                old(self).sound(),
                self.sound(),
                good == old(self).wf(),
                good ==> self.wf(),
                self.same_store_as(old(self)),
                runs == old(self).runs(),
                runs.len() == self.sstables.len(),
                streams == seq![old(self).memtable@] + runs,
                i <= self.sstables.len(),
                good ==> crate::lsm::iterator::stream_views(sources@) == streams.take(i as int + 1),
            decreases self.sstables.len() - i,
        {
            let ghost before = self.buffer_pool;
            assert(good ==> self.sstables[i as int].holds(&before));
            assert(self.runs()[i as int] == self.sstables[i as int].entries(&before));
            let cursor = self.sstables[i].iter();
            let collected = cursor.collect(&mut self.buffer_pool);
            proof {
                lemma_same_as_trans(&self.buffer_pool, &before, &old(self).buffer_pool);
                lemma_same_as(&self.buffer_pool, &before);
                if good {
                    lemma_tables_same(
                        self.sstables@,
                        &before,
                        &self.buffer_pool,
                        self.next_sstable_id,
                    );
                }
                assert(self.runs() =~= runs);
            }
            let entries = match collected {
                Ok(entries) => entries,
                Err(e) => {
                    assert(!good);
                    return Err(e);
                },
            };
            let ghost so_far = crate::lsm::iterator::stream_views(sources@);
            sources.push(entries);
            proof {
                if good {
                    assert(crate::lsm::iterator::stream_views(sources@) =~= so_far.push(
                        runs[i as int],
                    ));
                    assert(streams.take(i as int + 2) =~= streams.take(i as int + 1).push(
                        runs[i as int],
                    ));
                }
            }
            i += 1;
        }
        assert(streams.take(i as int + 1) =~= streams);
        let merge = MergeIterator::new(sources);
        Ok(merge.collect())
    }

    /// The newest version of every key, in the order of the keys.
    pub fn scan_latest(&mut self) -> (res: Result<Vec<Entry>, StoreError>)
        requires
            old(self).sound(),
        ensures
            final(self).sound(),
            final(self).same_store_as(old(self)),
            old(self).wf() ==> final(self).wf() && res is Ok && entry_views(res.unwrap()@)
                == latest_of(merge_all(seq![old(self).memtable@] + old(self).runs()), None),
    {
        let all = match self.scan() {
            Ok(all) => all,
            Err(e) => {
                return Err(e);
            },
        };
        Ok(LatestVersionIterator::new(all).collect())
    }

    /// The newest version of every key that is not deleted, in the order
    /// of the keys.
    pub fn scan_live(&mut self) -> (res: Result<Vec<Entry>, StoreError>)
        requires
            old(self).sound(),
        ensures
            final(self).sound(),
            final(self).same_store_as(old(self)),
            old(self).wf() ==> final(self).wf() && res is Ok && entry_views(res.unwrap()@)
                == live_of(
                latest_of(merge_all(seq![old(self).memtable@] + old(self).runs()), None),
            ),
    {
        let latest = match self.scan_latest() {
            Ok(latest) => latest,
            Err(e) => {
                return Err(e);
            },
        };
        Ok(LiveEntriesIterator::new(latest).collect())
    }

    /// Counts of what the store holds.
    pub fn stats(&self) -> (stats: LsmStats)
        ensures
            stats.memtable_entries == self@.table.len(),
            stats.memtable_size_bytes == self@.size_bytes,
            stats.sstable_count == self@.metas.len(),
            stats.total_entries == entry_total(self@.metas, self@.table.len()),
    {
        let mut total: usize = self.memtable.len();
        let mut i: usize = 0;
        let ghost metas = self@.metas;
        assert(metas.take(0) =~= Seq::<MetaView>::empty());
        while i < self.sstables.len()
            invariant
                i <= self.sstables.len(),
                metas == self@.metas,
                total == entry_total(metas.take(i as int), self.memtable@.len()),
            decreases self.sstables.len() - i,
        {
            let count = self.sstables[i].meta.entry_count;
            proof {
                let next = metas.take(i as int + 1);
                assert(next.drop_last() =~= metas.take(i as int));
                assert(next.last() == self.sstables@[i as int].meta@);
            }
            total = if count > (usize::MAX - total) as u64 {
                usize::MAX
            } else {
                total + count as usize
            };
            i += 1;
        }
        assert(metas.take(i as int) =~= metas);
        LsmStats {
            memtable_entries: self.memtable.len(),
            memtable_size_bytes: self.memtable.size_bytes(),
            sstable_count: self.sstables.len(),
            total_entries: total,
        }
    }
}

/// The number of entries in the runs, as their summaries give it, and in
/// the in-memory table together; the largest number there is where the sum
/// is beyond it.
pub open spec fn entry_total(metas: Seq<MetaView>, in_table: nat) -> usize
    decreases metas.len(),
{
    if metas.len() == 0 {
        in_table as usize
    } else {
        let rest = entry_total(metas.drop_last(), in_table);
        if rest + metas.last().entry_count > usize::MAX {
            usize::MAX
        } else {
            (rest + metas.last().entry_count) as usize
        }
    }
}

/// Whether the run in file `id` can be opened: page 0 of the file can be
/// had and its cell holds a summary.
pub open spec fn loadable(files: &PageFiles, id: u64) -> bool {
    files.has_page(run_addr(id, 0)) && stored_meta(files.page(run_addr(id, 0))) is Some
}

/// The summaries of the runs among `ids` that can be opened, in the order
/// of `ids`.
pub open spec fn loaded_metas(files: &PageFiles, ids: Seq<u64>) -> Seq<MetaView>
    decreases ids.len(),
{
    if ids.len() == 0 {
        Seq::empty()
    } else if loadable(files, ids.last()) {
        loaded_metas(files, ids.drop_last()).push(
            stored_meta(files.page(run_addr(ids.last(), 0))).unwrap(),
        )
    } else {
        loaded_metas(files, ids.drop_last())
    }
}

/// The greatest of the `ids` whose run can be opened, zero where there is
/// none.
pub open spec fn max_loaded(files: &PageFiles, ids: Seq<u64>) -> u64
    decreases ids.len(),
{
    if ids.len() == 0 {
        0
    } else {
        let rest = max_loaded(files, ids.drop_last());
        if loadable(files, ids.last()) && ids.last() > rest {
            ids.last()
        } else {
            rest
        }
    }
}

/// The summaries of the readers.
pub open spec fn reader_metas(tables: Seq<SSTableReader>) -> Seq<MetaView> {
    tables.map_values(|t: SSTableReader| t.meta@)
}

/// The ids in the summaries.
pub open spec fn meta_ids(metas: Seq<MetaView>) -> Seq<u64> {
    metas.map_values(|m: MetaView| m.id)
}

/// The summaries from the highest id to the lowest; summaries with the
/// same id stay as they stand.
pub open spec fn sorted_by_id(metas: Seq<MetaView>) -> Seq<MetaView> {
    Seq::new(metas.len(), |i: int| metas[order_desc(meta_ids(metas))[i]])
}

/// The sequence number that the first write gets after the entries of a
/// log were put back: one more than the highest in the log.
pub open spec fn seq_after(entries: Seq<EntryView>) -> u64 {
    if seq_high(entries) == u64::MAX {
        u64::MAX
    } else {
        (seq_high(entries) + 1) as u64
    }
}

/// The size that the in-memory table counts once the entries of a log were
/// put back: every entry of the log is counted in, also one that took the
/// place of another.
pub open spec fn replay_size(entries: Seq<EntryView>) -> usize
    decreases entries.len(),
{
    if entries.len() == 0 {
        0
    } else {
        MemTable::grown(replay_size(entries.drop_last()), payload(entries.last()))
    }
}

impl LsmTree {
    /// The in-memory table that the log in `wal_data` makes up. The counter
    /// of sequence numbers goes on behind the highest in the log.
    fn recover_memtable(wal_data: Vec<u8>) -> (res: Result<MemTable, StoreError>)
        ensures
            match res {
                Ok(table) => wal_entries(wal_data@) matches Some(entries) && table.wf() && table@
                    == replay(entries) && table.next_seq_num == seq_after(entries)
                    && table.size_bytes == replay_size(entries),
                Err(e) => e == StoreError::Corruption && wal_entries(wal_data@) is None,
            },
    {
        let mut reader = WalReader::open(wal_data);
        let entries = match reader.read_all() {
            Ok(entries) => entries,
            Err(e) => {
                return Err(e);
            },
        };
        let ghost views = entry_views(entries@);
        let mut memtable = MemTable::new();
        let mut max_seq: u64 = 0;
        let mut i: usize = 0;
        proof {
            assert(views.take(0) =~= Seq::<EntryView>::empty());
            assert(memtable@ =~= replay(views.take(0)));
        }
        while i < entries.len()
            invariant
                i <= entries.len(),
                views == entry_views(entries@),
                memtable.wf(),
                memtable@ == replay(views.take(i as int)),
                memtable.size_bytes == replay_size(views.take(i as int)),
                max_seq == seq_high(views.take(i as int)),
            decreases entries.len() - i,
        {
            let entry = &entries[i];
            proof {
                let next = views.take(i as int + 1);
                assert(next.drop_last() =~= views.take(i as int));
                assert(next.last() == entry@);
            }
            if entry.seq_num > max_seq {
                max_seq = entry.seq_num;
            }
            match &entry.value {
                Some(value) => {
                    memtable.put_with_seq(entry.key.clone(), value.clone(), entry.seq_num);
                },
                None => {
                    memtable.delete_with_seq(entry.key.clone(), entry.seq_num);
                },
            }
            i += 1;
        }
        assert(views.take(i as int) =~= views);
        memtable.next_seq_num = if max_seq == u64::MAX {
            u64::MAX
        } else {
            max_seq + 1
        };
        Ok(memtable)
    }

    /// Opens the runs that the manifest lists, but for those that cannot
    /// be opened, and puts them in order, the highest id first. Returns
    /// them with the id for the next run: one more than the highest id in
    /// the manifest whose run was opened.
    fn load_sstables(manifest: &Option<Vec<u8>>, buffer_pool: &mut BufferPool) -> (res: Result<
        (Vec<SSTableReader>, u64),
        StoreError,
    >)
        requires
            old(buffer_pool).wf(),
            old(buffer_pool).none_pinned(),
            forall|a: PageAddr| !old(buffer_pool).cached(a),
        ensures
            final(buffer_pool).wf(),
            final(buffer_pool).same_as(old(buffer_pool)),
            res matches Ok((tables, next_id)) && ({
                let ids = match manifest {
                    Some(bytes) => parse_manifest(bytes@),
                    None => Seq::<u64>::empty(),
                };
                let files = &old(buffer_pool).page_files;
                &&& reader_metas(tables@) == sorted_by_id(loaded_metas(files, ids))
                &&& next_id == (if max_loaded(files, ids) == u64::MAX {
                    u64::MAX
                } else {
                    (max_loaded(files, ids) + 1) as u64
                })
            }),
    {
        let mut sstables: Vec<SSTableReader> = Vec::new();
        let mut max_id: u64 = 0;
        let ids: Vec<u64> = match manifest {
            Some(bytes) => read_manifest(bytes.as_slice()),
            None => Vec::new(),
        };
        let ghost pool0 = *buffer_pool;
        proof {
            lemma_same_as_refl(buffer_pool);
            assert(ids@.take(0) =~= Seq::<u64>::empty());
            assert(reader_metas(sstables@) =~= loaded_metas(&pool0.page_files, ids@.take(0)));
        }
        let mut i: usize = 0;
        while i < ids.len()
            invariant
                i <= ids.len(),
                pool0 == *old(buffer_pool),
                pool0.wf(),
                pool0.none_pinned(),
                buffer_pool.wf(),
                buffer_pool.same_as(&pool0),
                forall|a: PageAddr| !pool0.cached(a),
                reader_metas(sstables@) == loaded_metas(&pool0.page_files, ids@.take(i as int)),
                max_id == max_loaded(&pool0.page_files, ids@.take(i as int)),
            decreases ids.len() - i,
        {
            let id = ids[i];
            let ghost before = *buffer_pool;
            proof {
                lemma_same_as(&before, &pool0);
                crate::lsm::sstable::lemma_no_refusal(&before, run_addr(id, 0));
                let next = ids@.take(i as int + 1);
                assert(next.drop_last() =~= ids@.take(i as int));
                assert(next.last() == id);
            }
            let opened = SSTableReader::open(buffer_pool, id);
            proof {
                lemma_same_as_trans(buffer_pool, &before, &pool0);
                let addr = run_addr(id, 0);
                assert(!pool0.cached(addr));
                assert(pool0.page(addr) == pool0.page_files.page(addr));
                assert(pool0.present(addr) == pool0.page_files.has_page(addr));
                assert(before.page(addr) == pool0.page(addr));
                if !pool0.present(addr) {
                    lemma_absent_stays(&pool0, &before, addr, opened);
                } else {
                    assert(before.present(addr));
                }
            }
            match opened {
                Ok(reader) => {
                    if id > max_id {
                        max_id = id;
                    }
                    let ghost so_far = reader_metas(sstables@);
                    sstables.push(reader);
                    assert(reader_metas(sstables@) =~= so_far.push(reader.meta@));
                },
                Err(e) => {},
            }
            i += 1;
        }
        assert(ids@.take(i as int) =~= ids@);
        let ghost metas = reader_metas(sstables@);
        let mut keys: Vec<u64> = Vec::new();
        let mut n: usize = 0;
        while n < sstables.len()
            invariant
                n <= sstables.len(),
                metas == reader_metas(sstables@),
                keys@ == meta_ids(metas).take(n as int),
            decreases sstables.len() - n,
        {
            keys.push(sstables[n].meta.id);
            assert(keys@ =~= meta_ids(metas).take(n as int + 1));
            n += 1;
        }
        assert(meta_ids(metas).take(n as int) =~= meta_ids(metas));
        let order = sort_order(&keys);
        let mut sorted: Vec<SSTableReader> = Vec::new();
        let mut m: usize = 0;
        while m < order.len()
            invariant
                m <= order.len(),
                metas == reader_metas(sstables@),
                order@.len() == metas.len(),
                keys@ == meta_ids(metas),
                forall|j: int| 0 <= j < order@.len() ==> #[trigger] order@[j] == order_desc(keys@)[j],
                forall|j: int| 0 <= j < order@.len() ==> (#[trigger] order@[j]) < metas.len(),
                reader_metas(sorted@) == sorted_by_id(metas).take(m as int),
            decreases order.len() - m,
        {
            let reader = sstables[order[m]].clone();
            let ghost so_far = reader_metas(sorted@);
            sorted.push(reader);
            proof {
                assert(reader_metas(sorted@) =~= so_far.push(reader.meta@));
                assert(sorted_by_id(metas).take(m as int + 1) =~= sorted_by_id(metas).take(
                    m as int,
                ).push(reader.meta@));
            }
            m += 1;
        }
        assert(sorted_by_id(metas).take(m as int) =~= sorted_by_id(metas));
        let next_id: u64 = if max_id == u64::MAX {
            u64::MAX
        } else {
            max_id + 1
        };
        Ok((sorted, next_id))
    }

    /// Whether `self` is the store as it is opened over what is on disk:
    /// the pool holds what the paged files hold; the in-memory table is what
    /// the log makes up, its counter goes on behind the highest sequence
    /// number in the log, and its size counts every entry of the log; the
    /// log is the file `wal.log` of the store's directory; the runs are
    /// those of the manifest that
    /// can be opened, the highest id first; the id of the next run is one
    /// more than the highest id in the manifest whose run was opened.
    pub open spec fn opened_from(
        &self,
        config: LsmConfig,
        wal_data: Seq<u8>,
        manifest: Option<Seq<u8>>,
        page_files: PageFiles,
    ) -> bool {
        let ids = match manifest {
            Some(bytes) => parse_manifest(bytes),
            None => Seq::<u64>::empty(),
        };
        &&& self.config == config
        &&& self.buffer_pool.wf()
        &&& self.buffer_pool.none_pinned()
        &&& forall|a: PageAddr| #[trigger] self.buffer_pool.page(a) == page_files.page(a)
        &&& forall|a: PageAddr| page_files.has_page(a) ==> #[trigger] self.buffer_pool.present(a)
        &&& self.memtable.wf()
        &&& wal_entries(wal_data) matches Some(entries) && self.memtable@ == replay(entries)
            && self.memtable.next_seq_num == seq_after(entries) && self.memtable.size_bytes
            == replay_size(entries)
        &&& self.wal.data@ == wal_data
        &&& self.wal.path@ == config.data_dir@ + "/wal.log"@
        &&& reader_metas(self.sstables@) == sorted_by_id(loaded_metas(&page_files, ids))
        &&& self.next_sstable_id == (if max_loaded(&page_files, ids) == u64::MAX {
            u64::MAX
        } else {
            (max_loaded(&page_files, ids) + 1) as u64
        })
        &&& self.manifest@ == (match manifest {
            Some(bytes) => bytes,
            None => Seq::<u8>::empty(),
        })
    }

    /// Opens the store over what is on disk: the log in `wal_data`, the
    /// manifest, if there is one, and the paged files. The in-memory table
    /// is made up from the log; the runs of the manifest are opened.
    pub fn open(
        config: LsmConfig,
        wal_data: Vec<u8>,
        manifest: Option<Vec<u8>>,
        page_files: PageFiles,
    ) -> (res: Result<Self, StoreError>)
        requires
            page_files.wf(),
        ensures
            match res {
                Ok(tree) => tree.opened_from(
                    config,
                    wal_data@,
                    match manifest {
                        Some(bytes) => Some(bytes@),
                        None => None,
                    },
                    page_files,
                ),
                Err(e) => e == StoreError::Corruption && wal_entries(wal_data@) is None,
            },
            res is Ok <==> wal_entries(wal_data@) is Some,
    {
        let mut buffer_pool = BufferPool::with_files(page_files);
        let ghost pool0 = buffer_pool;
        let wal_path = config.data_dir.clone().concat("/wal.log");
        let wal = Wal::open(wal_path, vstd::slice::slice_to_vec(wal_data.as_slice()));
        let memtable = match Self::recover_memtable(wal_data) {
            Ok(memtable) => memtable,
            Err(e) => {
                return Err(e);
            },
        };
        let (sstables, next_id) = match Self::load_sstables(&manifest, &mut buffer_pool) {
            Ok(pair) => pair,
            Err(e) => {
                assert(false);
                return Err(e);
            },
        };
        proof {
            lemma_same_as(&buffer_pool, &pool0);
            assert forall|a: PageAddr| page_files.has_page(a) implies #[trigger] buffer_pool.present(
                a,
            ) by {
                assert(pool0.on_disk(a) == page_files.has_page(a));
                assert(pool0.present(a));
            }
        }
        let manifest_bytes: Vec<u8> = match manifest {
            Some(bytes) => bytes,
            None => Vec::new(),
        };
        Ok(
            LsmTree {
                config,
                buffer_pool,
                memtable,
                wal,
                sstables,
                next_sstable_id: next_id,
                manifest: manifest_bytes,
            },
        )
    }
}

/// A page that cannot be had is read as what it holds for an error only.
proof fn lemma_absent_stays<T>(
    pool: &BufferPool,
    before: &BufferPool,
    addr: PageAddr,
    res: Result<T, StoreError>,
)
    requires
        pool.wf(),
        before.wf(),
        before.same_as(pool),
        !pool.present(addr),
        crate::lsm::sstable::read_outcome(before, addr, res),
        before.read_refusal(addr) is None,
        before.present(addr) ==> (res is Ok <==> stored_meta(before.page(addr)) is Some),
    ensures
        res is Err,
{
    lemma_same_as(before, pool);
    if before.present(addr) {
        // The page came to be on disk as a page of zeros.
        assert(before.page(addr) == pool.page(addr));
        assert(pool.page(addr) == zero_page());
        assert(crate::page::cell_len(zero_page(), 0) == 0);
    }
}

/// The indices in front of an order, as far as `leading_ge` counts them,
/// have keys that are `k` or greater, and the index behind them has not.
pub proof fn lemma_leading_ge_split(order: Seq<int>, keys: Seq<u64>, k: u64)
    ensures
        0 <= leading_ge(order, keys, k) <= order.len(),
        forall|j: int| 0 <= j < leading_ge(order, keys, k) ==> keys[#[trigger] order[j]] >= k,
        leading_ge(order, keys, k) < order.len() ==> keys[order[leading_ge(order, keys, k)]] < k,
    decreases order.len(),
{
    if order.len() > 0 && keys[order[0]] >= k {
        let rest = order.drop_first();
        lemma_leading_ge_split(rest, keys, k);
        let p = leading_ge(rest, keys, k);
        assert forall|j: int| 0 <= j < p + 1 implies keys[#[trigger] order[j]] >= k by {
            if j > 0 {
                assert(order[j] == rest[j - 1]);
            }
        }
        if p + 1 < order.len() {
            assert(order[p + 1] == rest[p]);
        }
    }
}

/// The order that `order_desc` gives sorts the keys: it has each index
/// once, the keys never go up along it, and of two indices with the same
/// key the smaller comes first.
pub proof fn lemma_order_desc_sorts(keys: Seq<u64>)
    ensures
        order_desc(keys).len() == keys.len(),
        forall|i: int| 0 <= i < keys.len() ==> 0 <= #[trigger] order_desc(keys)[i] < keys.len(),
        forall|i: int, j: int|
            0 <= i < j < keys.len() ==> #[trigger] order_desc(keys)[i] != #[trigger] order_desc(keys)[j],
        forall|i: int, j: int|
            0 <= i < j < keys.len() ==> keys[#[trigger] order_desc(keys)[i]] >= keys[#[trigger] order_desc(keys)[j]],
        forall|i: int, j: int|
            0 <= i < j < keys.len() && keys[#[trigger] order_desc(keys)[i]] == keys[#[trigger] order_desc(keys)[j]] ==> order_desc(keys)[i] < order_desc(keys)[j],
    decreases keys.len(),
{
    if keys.len() > 0 {
        let n = keys.len() as int;
        let front = keys.drop_last();
        lemma_order_desc_sorts(front);
        let order = order_desc(front);
        let k = keys.last();
        lemma_leading_ge_split(order, keys, k);
        let p = leading_ge(order, keys, k);
        let after = order.insert(p, n - 1);
        assert(order_desc(keys) == after);
        assert forall|i: int| 0 <= i < n - 1 implies front[#[trigger] order[i]] == keys[order[i]] by {}
        assert forall|i: int, j: int| 0 <= i < j < n implies #[trigger] after[i] != #[trigger] after[j]
            && keys[after[i]] >= keys[after[j]] && (keys[after[i]] == keys[after[j]] ==> after[i]
            < after[j]) by {
            let x = if i < p {
                i
            } else {
                i - 1
            };
            let y = if j < p {
                j
            } else {
                j - 1
            };
            if i == p {
                // The new index stands before indices with smaller keys.
                assert(after[j] == order[y]);
                assert(front[order[y]] == keys[order[y]]);
                if y > p {
                    assert(front[order[p]] >= front[order[y]]);
                    assert(front[order[p]] == keys[order[p]]);
                }
            } else if j == p {
                assert(after[i] == order[x]);
                assert(keys[order[x]] >= k);
            } else {
                assert(after[i] == order[x]);
                assert(after[j] == order[y]);
                assert(front[order[x]] == keys[order[x]]);
                assert(front[order[y]] == keys[order[y]]);
            }
        }
    }
}

/// The versions that `get_all` gives stand from the highest sequence
/// number to the lowest; they are the versions that were found, each once;
/// and where no two of them have the same sequence number, the numbers go
/// down from each to the next.
pub proof fn lemma_sorted_by_seq(entries: Seq<EntryView>)
    ensures
        sorted_by_seq(entries).len() == entries.len(),
        forall|i: int, j: int|
            0 <= i < j < entries.len() ==> (#[trigger] sorted_by_seq(entries)[i]).seq_num >= (
            #[trigger] sorted_by_seq(entries)[j]).seq_num,
        forall|i: int|
            0 <= i < entries.len() ==> entries.contains(#[trigger] sorted_by_seq(entries)[i]),
        (forall|a: int, b: int|
            0 <= a < b < entries.len() ==> (#[trigger] entries[a]).seq_num != (
            #[trigger] entries[b]).seq_num) ==> forall|i: int, j: int|
            0 <= i < j < entries.len() ==> (#[trigger] sorted_by_seq(entries)[i]).seq_num > (
            #[trigger] sorted_by_seq(entries)[j]).seq_num,
{
    let keys = seqs_of(entries);
    let order = order_desc(keys);
    let sorted = sorted_by_seq(entries);
    lemma_order_desc_sorts(keys);
    assert forall|i: int, j: int| 0 <= i < j < entries.len() implies (#[trigger] sorted[i]).seq_num
        >= (#[trigger] sorted[j]).seq_num by {
        assert(keys[order[i]] >= keys[order[j]]);
    }
    assert forall|i: int| 0 <= i < entries.len() implies entries.contains(#[trigger] sorted[i]) by {
        assert(entries[order[i]] == sorted[i]);
    }
    if forall|a: int, b: int|
        0 <= a < b < entries.len() ==> (#[trigger] entries[a]).seq_num != (
        #[trigger] entries[b]).seq_num {
        assert forall|i: int, j: int| 0 <= i < j < entries.len() implies (
        #[trigger] sorted[i]).seq_num > (#[trigger] sorted[j]).seq_num by {
            assert(keys[order[i]] >= keys[order[j]]);
            assert(order[i] != order[j]);
            let a = order[i];
            let b = order[j];
            if a < b {
                assert(entries[a].seq_num != entries[b].seq_num);
            } else {
                assert(entries[b].seq_num != entries[a].seq_num);
            }
        }
    }
}

/// Entries that stand in their order are in order.
pub proof fn lemma_sorted_in_order(entries: Seq<EntryView>)
    requires
        entries_sorted(entries),
    ensures
        in_order(entries),
{
    assert forall|i: int, j: int| 0 <= i < j < entries.len() implies !entry_lt(
        #[trigger] entries[j],
        #[trigger] entries[i],
    ) by {
        lemma_entry_lt_asymmetric(entries[i], entries[j]);
    }
}

impl LsmTree {
    /// The streams that a scan merges: the in-memory table, then the runs,
    /// the newest first.
    pub open spec fn streams(&self) -> Seq<Seq<EntryView>> {
        seq![self.memtable@] + self.runs()
    }

    /// What `scan_latest` gives.
    pub open spec fn latest(&self) -> Seq<EntryView> {
        latest_of(merge_all(self.streams()), None)
    }

    /// The streams of a scan are in order.
    pub proof fn lemma_streams_in_order(&self)
        requires
            self.wf(),
        ensures
            forall|j: int| 0 <= j < self.streams().len() ==> in_order(#[trigger] self.streams()[j]),
            in_order(merge_all(self.streams())),
    {
        let streams = self.streams();
        assert forall|j: int| 0 <= j < streams.len() implies in_order(#[trigger] streams[j]) by {
            if j == 0 {
                lemma_sorted_in_order(self.memtable@);
            } else {
                assert(streams[j] == self.runs()[j - 1]);
                assert(self.sstables@[j - 1].holds(&self.buffer_pool));
                lemma_sorted_in_order(self.runs()[j - 1]);
            }
        }
        lemma_merge_in_order(streams);
    }

    /// What `scan_latest` gives has each key once at most, in the order of
    /// the keys: the keys go up from each entry to the next.
    pub proof fn lemma_scan_latest_keys(&self)
        requires
            self.wf(),
        ensures
            forall|i: int, j: int|
                0 <= i < j < self.latest().len() ==> crate::bytes::bytes_lt(
                    (#[trigger] self.latest()[i]).key,
                    (#[trigger] self.latest()[j]).key,
                ),
    {
        self.lemma_streams_in_order();
        lemma_latest_keys(merge_all(self.streams()), None);
    }

    /// What `scan_latest` gives for a key is the entry with the highest
    /// sequence number that the key has in the store: each entry that it
    /// gives is an entry of the in-memory table or of a run, and no entry
    /// of them with its key has a higher sequence number.
    pub proof fn lemma_scan_latest_newest(&self, e: EntryView, other: EntryView)
        requires
            self.wf(),
            self.latest().contains(e),
            in_streams(self.streams(), other),
            other.key == e.key,
        ensures
            in_streams(self.streams(), e),
            other.seq_num <= e.seq_num,
    {
        let merged = merge_all(self.streams());
        self.lemma_streams_in_order();
        lemma_latest_members(merged, None, e);
        lemma_merge_members(self.streams(), e);
        lemma_merge_members(self.streams(), other);
        lemma_latest_newest(merged, None, e, other);
    }

    /// Every key that has an entry in the store has one in what
    /// `scan_latest` gives.
    pub proof fn lemma_scan_latest_covers(&self, other: EntryView)
        requires
            in_streams(self.streams(), other),
        ensures
            exists|i: int| 0 <= i < self.latest().len() && (#[trigger] self.latest()[i]).key == other.key,
    {
        let merged = merge_all(self.streams());
        lemma_merge_members(self.streams(), other);
        let n = choose|n: int| 0 <= n < merged.len() && merged[n] == other;
        let i = lemma_latest_covers(merged, None, n);
        assert(self.latest()[i].key == other.key);
    }

    /// What `scan_live` gives are entries that `scan_latest` gives, and
    /// none of them is a tombstone.
    pub proof fn lemma_scan_live(&self, e: EntryView)
        requires
            live_of(self.latest()).contains(e),
        ensures
            self.latest().contains(e),
            e.value is Some,
    {
        lemma_live_of(self.latest(), e);
    }

    /// A store that is opened again after a crash has the in-memory table
    /// that it had: where the log holds the records of the writes that make
    /// up the table, followed by a part of the record of a write that did
    /// not return, putting back the log gives the table.
    pub proof fn lemma_recovery(&self, torn: EntryView, cut: int)
        requires
            self.logged(),
            loggable(torn),
            0 <= cut < record_bytes(torn).len(),
        ensures
            wal_entries(self.wal.data@ + record_bytes(torn).take(cut)) == wal_entries(
                self.wal.data@,
            ),
            wal_entries(self.wal.data@) matches Some(entries) && replay(entries) == self.memtable@,
    {
        let entries = wal_entries(self.wal.data@).unwrap();
        lemma_wal_torn_tail(entries, torn, cut);
    }
}

/// Where every index of an order has a key that is `k` or greater,
/// `leading_ge` counts them all.
proof fn lemma_leading_ge_all(order: Seq<int>, keys: Seq<u64>, k: u64)
    requires
        forall|j: int| 0 <= j < order.len() ==> keys[#[trigger] order[j]] >= k,
    ensures
        leading_ge(order, keys, k) == order.len(),
    decreases order.len(),
{
    if order.len() > 0 {
        let rest = order.drop_first();
        assert(keys[order[0]] >= k);
        assert forall|j: int| 0 <= j < rest.len() implies keys[#[trigger] rest[j]] >= k by {
            assert(rest[j] == order[j + 1]);
        }
        lemma_leading_ge_all(rest, keys, k);
    }
}

/// Keys that go down from each to the next are in their order as they
/// stand.
pub proof fn lemma_order_desc_of_sorted(keys: Seq<u64>)
    requires
        forall|i: int, j: int| 0 <= i < j < keys.len() ==> #[trigger] keys[i] > #[trigger] keys[j],
    ensures
        order_desc(keys) == Seq::new(keys.len(), |i: int| i),
    decreases keys.len(),
{
    if keys.len() > 0 {
        let n = keys.len() as int;
        let front = keys.drop_last();
        assert forall|i: int, j: int| 0 <= i < j < front.len() implies #[trigger] front[i]
            > #[trigger] front[j] by {
            assert(front[i] == keys[i]);
            assert(front[j] == keys[j]);
        }
        lemma_order_desc_of_sorted(front);
        let order = order_desc(front);
        assert forall|j: int| 0 <= j < order.len() implies keys[#[trigger] order[j]]
            >= keys.last() by {
            assert(order[j] == j);
            assert(keys[j] > keys[n - 1]);
        }
        lemma_leading_ge_all(order, keys, keys.last());
        assert(order.insert(n - 1, n - 1) =~= Seq::new(keys.len(), |i: int| i));
    } else {
        assert(order_desc(keys) =~= Seq::new(keys.len(), |i: int| i));
    }
}

/// The ids of the readers.
pub open spec fn reader_ids(tables: Seq<SSTableReader>) -> Seq<u64> {
    Seq::new(tables.len(), |i: int| tables[i].meta.id)
}

/// A run that a pool holds can be opened from paged files that hold what
/// the pool holds, with the summary that its reader has.
proof fn lemma_held_loadable(t: SSTableReader, pool: &BufferPool, files: &PageFiles)
    requires
        t.holds(pool),
        forall|a: PageAddr| #[trigger] files.page(a) == pool.page(a),
        forall|a: PageAddr| #[trigger] pool.present(a) ==> files.has_page(a),
    ensures
        loadable(files, t.meta.id),
        stored_meta(files.page(run_addr(t.meta.id, 0))) == Some(t.meta@),
{
    let addr = run_addr(t.meta.id, 0);
    assert(pool.present(addr));
    assert(files.page(addr) == pool.page(addr));
}

/// The runs that a pool holds can be opened from paged files that hold
/// what the pool holds, each with the summary that its reader has.
proof fn lemma_loaded_all(tables: Seq<SSTableReader>, pool: &BufferPool, files: &PageFiles, n: int)
    requires
        0 <= n <= tables.len(),
        forall|i: int| 0 <= i < tables.len() ==> (#[trigger] tables[i]).holds(pool),
        forall|a: PageAddr| #[trigger] files.page(a) == pool.page(a),
        forall|a: PageAddr| #[trigger] pool.present(a) ==> files.has_page(a),
    ensures
        loaded_metas(files, reader_ids(tables).take(n)) == reader_metas(tables).take(n),
    decreases n,
{
    let ids = reader_ids(tables);
    if n == 0 {
        assert(loaded_metas(files, ids.take(0)) =~= reader_metas(tables).take(0));
    } else {
        lemma_loaded_all(tables, pool, files, n - 1);
        let t = tables[n - 1];
        lemma_held_loadable(t, pool, files);
        assert(ids.take(n).drop_last() =~= ids.take(n - 1));
        assert(ids.take(n).last() == t.meta.id);
        assert(reader_metas(tables).take(n) =~= reader_metas(tables).take(n - 1).push(t.meta@));
    }
}

/// The greatest id among runs that can all be opened is no less than the
/// id of any of them.
proof fn lemma_max_loaded(tables: Seq<SSTableReader>, pool: &BufferPool, files: &PageFiles, n: int)
    requires
        0 <= n <= tables.len(),
        forall|i: int| 0 <= i < tables.len() ==> (#[trigger] tables[i]).holds(pool),
        forall|a: PageAddr| #[trigger] files.page(a) == pool.page(a),
        forall|a: PageAddr| #[trigger] pool.present(a) ==> files.has_page(a),
    ensures
        forall|i: int|
            0 <= i < n ==> max_loaded(files, reader_ids(tables).take(n)) >= (
            #[trigger] tables[i]).meta.id,
    decreases n,
{
    let ids = reader_ids(tables);
    if n > 0 {
        lemma_max_loaded(tables, pool, files, n - 1);
        let t = tables[n - 1];
        lemma_held_loadable(t, pool, files);
        assert(ids.take(n).drop_last() =~= ids.take(n - 1));
        assert(ids.take(n).last() == t.meta.id);
    }
}

/// A run that a pool holds is held by another pool whose pages are those
/// of the first, under a reader with the same summary, with the same
/// entries.
proof fn lemma_held_again(
    t: SSTableReader,
    again: SSTableReader,
    pool: &BufferPool,
    new_pool: &BufferPool,
)
    requires
        t.holds(pool),
        again.meta@ == t.meta@,
        forall|a: PageAddr| #[trigger] new_pool.page(a) == pool.page(a),
        forall|a: PageAddr| #[trigger] pool.present(a) ==> new_pool.present(a),
    ensures
        again.holds(new_pool),
        again.entries(new_pool) == t.entries(pool),
{
    let rid = t.meta.id;
    let hi = t.meta.end_page as int;
    assert forall|p: int| 1 <= p <= hi implies new_pool.pages()[#[trigger] run_addr(rid, p)]
        == pool.pages()[run_addr(rid, p)] by {
        assert(new_pool.page(run_addr(rid, p)) == pool.page(run_addr(rid, p)));
    }
    lemma_run_entries_frame(pool.pages(), new_pool.pages(), rid, 1, hi);
    assert forall|p: int| 1 <= p <= hi implies #[trigger] run_page_ok(new_pool, rid, p) by {
        assert(run_page_ok(pool, rid, p));
        assert(pool.present(run_addr(rid, p)));
        assert(new_pool.page(run_addr(rid, p)) == pool.page(run_addr(rid, p)));
    }
    assert(pool.present(run_addr(rid, 0)));
    assert(new_pool.page(run_addr(rid, 0)) == pool.page(run_addr(rid, 0)));
}

impl LsmTree {
    /// The runs that are opened over what a store left on disk are the
    /// store's runs: where the manifest is that of the runs, the runs that
    /// it lists can all be opened, with the summaries that the store's
    /// readers have and in the order in which the store has them, and the
    /// greatest of their ids is no less than any of them.
    proof fn lemma_reopen_metas(&self, files: &PageFiles)
        requires
            self.wf(),
            forall|a: PageAddr| #[trigger] files.page(a) == self.buffer_pool.page(a),
            forall|a: PageAddr| #[trigger] self.buffer_pool.present(a) ==> files.has_page(a),
        ensures
            parse_manifest(manifest_bytes(self.run_ids())) == self.run_ids(),
            sorted_by_id(loaded_metas(files, self.run_ids())) == self@.metas,
            forall|i: int|
                0 <= i < self.sstables@.len() ==> max_loaded(files, self.run_ids()) >= (
                #[trigger] self.sstables@[i]).meta.id,
    {
        let tables = self.sstables@;
        let ids = self.run_ids();
        let pool = &self.buffer_pool;
        let metas = reader_metas(tables);
        lemma_manifest_round_trip(ids);
        lemma_loaded_all(tables, pool, files, tables.len() as int);
        lemma_max_loaded(tables, pool, files, tables.len() as int);
        assert(ids =~= reader_ids(tables));
        assert(ids.take(tables.len() as int) =~= ids);
        assert(metas.take(tables.len() as int) =~= metas);
        assert(meta_ids(metas) =~= ids);
        assert forall|i: int, j: int| 0 <= i < j < ids.len() implies #[trigger] ids[i]
            > #[trigger] ids[j] by {
            assert(tables[i].meta.id > tables[j].meta.id);
        }
        lemma_order_desc_of_sorted(ids);
        assert(sorted_by_id(metas) =~= metas);
    }

    /// A store that is opened again over what it left on disk reads as it
    /// did. Where the pool's pages are on disk, the manifest is that of the
    /// runs, and the log holds the records of the writes that make up the
    /// in-memory table, the store that is opened over the manifest (or over
    /// none, where the store has no run), the paged files and a log that
    /// reads as the store's log does (the log itself, or the log with a
    /// part of a record behind it) keeps the engine's invariant, has the
    /// same table and the same runs, and every key reads in it as it read
    /// before.
    pub proof fn lemma_reopen(
        &self,
        log: Seq<u8>,
        manifest: Option<Seq<u8>>,
        files: PageFiles,
        again: &LsmTree,
    )
        requires
            self.wf(),
            self.logged(),
            self.manifest@ == manifest_bytes(self.run_ids()),
            manifest == Some(self.manifest@) || (manifest is None && self@.metas.len() == 0),
            wal_entries(log) == wal_entries(self.wal.data@),
            forall|a: PageAddr| #[trigger] files.page(a) == self.buffer_pool.page(a),
            forall|a: PageAddr| #[trigger] self.buffer_pool.present(a) ==> files.has_page(a),
            again.opened_from(again.config, log, manifest, files),
        ensures
            again.wf(),
            again@.table == self@.table,
            again@.metas == self@.metas,
            again.run_ids() == self.run_ids(),
            again.runs() == self.runs(),
            forall|k: Seq<u8>| #[trigger] again.lookup(k) == self.lookup(k),
            log == self.wal.data@ ==> again.logged(),
    {
        let tables = self.sstables@;
        let new_tables = again.sstables@;
        let pool = &self.buffer_pool;
        let new_pool = &again.buffer_pool;
        self.lemma_reopen_metas(&files);
        if manifest is None {
            assert(reader_metas(tables).len() == tables.len());
            assert(self.run_ids() =~= Seq::<u64>::empty());
        }
        assert(reader_metas(new_tables) == reader_metas(tables));
        assert(reader_metas(new_tables).len() == new_tables.len());
        assert(reader_metas(tables).len() == tables.len());
        assert forall|i: int| 0 <= i < tables.len() implies (#[trigger] new_tables[i]).holds(
            new_pool,
        ) && new_tables[i].entries(new_pool) == tables[i].entries(pool) && new_tables[i].meta.id
            == tables[i].meta.id && new_tables[i].meta.id < again.next_sstable_id by {
            assert(reader_metas(new_tables)[i] == reader_metas(tables)[i]);
            assert(tables[i].holds(pool));
            assert forall|a: PageAddr| #[trigger] pool.present(a) implies new_pool.present(a) by {
                assert(files.has_page(a));
            }
            lemma_held_again(tables[i], new_tables[i], pool, new_pool);
        }
        assert(again.runs() =~= self.runs());
        assert(again.run_ids() =~= self.run_ids());
        assert forall|i: int, j: int| 0 <= i < j < new_tables.len() implies (
        #[trigger] new_tables[i]).meta.id > (#[trigger] new_tables[j]).meta.id by {
            assert(tables[i].meta.id > tables[j].meta.id);
        }
    }
}

impl LsmTree {
    /// Where the versions of the store lie in layers, `get_all` gives the
    /// versions of a key as they stand in the table and then in the runs,
    /// the newest run first: all of them have the key, and their sequence
    /// numbers go down from each to the next.
    pub proof fn lemma_get_all_descends(&self, key: Seq<u8>)
        requires
            self.wf(),
            self.layered(),
        ensures
            sorted_by_seq(self.all_matching(key)) == self.all_matching(key),
            seqs_descend(self.all_matching(key)),
            forall|x: int|
                0 <= x < self.all_matching(key).len() ==> (#[trigger] self.all_matching(
                    key,
                )[x]).key == key,
    {
        let runs = self.runs();
        let all = self.all_matching(key);
        assert forall|i: int| 0 <= i < runs.len() implies entries_sorted(#[trigger] runs[i]) by {
            assert(self.sstables@[i].holds(&self.buffer_pool));
        }
        lemma_versions_descend(
            self.memtable@,
            runs,
            self.memtable.next_seq_num,
            key,
            runs.len() as int,
        );
        assert(runs.take(runs.len() as int) =~= runs);
        let keys = seqs_of(all);
        assert forall|i: int, j: int| 0 <= i < j < keys.len() implies #[trigger] keys[i]
            > #[trigger] keys[j] by {
            assert(all[i].seq_num > all[j].seq_num);
        }
        lemma_order_desc_of_sorted(keys);
        assert(sorted_by_seq(all) =~= all);
    }

    /// A store that is opened over nothing, no log, no manifest and no run
    /// on disk, holds nothing: it keeps the engine's invariant, its table
    /// and its list of runs are empty, its versions lie in layers, and the
    /// first write gets the sequence number 1.
    pub proof fn lemma_opened_empty(&self, files: PageFiles)
        requires
            self.opened_from(self.config, Seq::empty(), None, files),
        ensures
            self.wf(),
            self.layered(),
            self.seqs_ok(),
            self.logged(),
            self@.table.len() == 0,
            self@.metas.len() == 0,
            self@.next_seq_num == 1,
            self@.size_bytes == 0,
            self@.next_sstable_id == 1,
    {
        let none = Seq::<EntryView>::empty();
        assert(wal_entries(Seq::<u8>::empty()) == Some(none)) by {
            lemma_wal_round_trip(none);
            assert(log_bytes(none) =~= Seq::<u8>::empty());
        }
        assert(replay(none) =~= none);
        assert(loaded_metas(&files, Seq::<u64>::empty()) =~= Seq::<MetaView>::empty());
        assert(sorted_by_id(Seq::<MetaView>::empty()).len() == 0);
        assert(reader_metas(self.sstables@).len() == self.sstables@.len());
        assert(self.runs() =~= Seq::<Seq<EntryView>>::empty());
        assert(log_bytes(none) =~= Seq::<u8>::empty());
    }

    /// What a flush wrote is kept when the store is opened again without
    /// its log. Where `self` is the store after a flush of `before` that
    /// wrote a run, and the pool's pages are on disk, the store that is
    /// opened over the manifest and the paged files, with an empty log,
    /// keeps the engine's invariant, has the runs of `self`, and reads
    /// every key as `before` read it.
    pub proof fn lemma_flush_durable(&self, before: &LsmTree, files: PageFiles, again: &LsmTree)
        requires
            before.wf(),
            flushes(before@),
            self.wf(),
            self@ == after_flush(before@),
            self.runs() == before.runs_after_flush(),
            forall|a: PageAddr| #[trigger] files.page(a) == self.buffer_pool.page(a),
            forall|a: PageAddr| #[trigger] self.buffer_pool.present(a) ==> files.has_page(a),
            again.opened_from(again.config, Seq::empty(), Some(self.manifest@), files),
        ensures
            again.wf(),
            again@.table.len() == 0,
            again@.metas == self@.metas,
            again@.metas.len() == before@.metas.len() + 1,
            again.runs() == seq![before.memtable@] + before.runs(),
            forall|k: Seq<u8>| #[trigger] again.lookup(k) == before.lookup(k),
    {
        let none = Seq::<EntryView>::empty();
        assert(self.memtable@ =~= none);
        assert(self.wal.data@ =~= Seq::<u8>::empty());
        assert(wal_entries(Seq::<u8>::empty()) == Some(none)) by {
            lemma_wal_round_trip(none);
            assert(log_bytes(none) =~= Seq::<u8>::empty());
        }
        assert(log_bytes(none) =~= Seq::<u8>::empty());
        assert(replay(none) =~= none);
        assert(self.logged());
        assert(self.run_ids() =~= seq![before.next_sstable_id] + meta_ids(before@.metas)) by {
            let metas = flushed(before@).metas;
            assert(self@.metas == metas);
            assert(self@.metas.len() == self.sstables@.len());
            assert(metas.len() == before@.metas.len() + 1);
            assert(meta_ids(before@.metas).len() == before@.metas.len());
            assert forall|j: int| 0 <= j < self.run_ids().len() implies self.run_ids()[j] == (
            seq![before.next_sstable_id] + meta_ids(before@.metas))[j] by {
                assert(self@.metas[j] == self.sstables@[j].meta@);
                if j > 0 {
                    assert(metas[j] == before@.metas[j - 1]);
                    assert(meta_ids(before@.metas)[j - 1] == before@.metas[j - 1].id);
                } else {
                    assert(metas[0].id == before.next_sstable_id);
                }
            }
        }
        self.lemma_reopen(Seq::empty(), Some(self.manifest@), files, again);
        self.lemma_flushed_reads(before);
        assert forall|k: Seq<u8>| #[trigger] again.lookup(k) == before.lookup(k) by {
            assert(again.lookup(k) == self.lookup(k));
        }
    }
}

} // verus!
