//! The buffer pool: a fixed number of page-sized slots that cache pages of
//! the paged files, with pins that keep a page in its slot, dirty tracking
//! and second-chance eviction.

use crate::bytes::zero_bytes;
use crate::constants::{BUFFER_POOL_SIZE, PAGE_SIZE};
use crate::error::StoreError;
use crate::pagefile::{page_id_valid, zero_page, PageFiles};
use crate::slotmap::{index_contents, index_get, index_insert, index_new, index_remove, SlotIndex};
use vstd::prelude::*;

verus! {

/// Names one page among all paged files: the file and the page in it.
#[derive(Clone, Copy, Debug, PartialEq, Eq, Hash, Structural)]
pub struct PageAddr {
    pub file_id: u64,
    pub page_id: u64,
}

impl PageAddr {
    /// The address of page `page_id` of file `file_id`.
    pub fn new(file_id: u64, page_id: u64) -> (addr: Self)
        ensures
            addr == (PageAddr { file_id, page_id }),
    {
        PageAddr { file_id, page_id }
    }

    /// The address of the page that follows this one in its file.
    pub fn next_page(&self) -> (addr: Self)
        requires
            self.page_id < u64::MAX,
        ensures
            addr == (PageAddr { file_id: self.file_id, page_id: (self.page_id + 1) as u64 }),
    {
        PageAddr { file_id: self.file_id, page_id: self.page_id + 1 }
    }

    /// The address as a pair, file id first.
    pub open spec fn key(self) -> (u64, u64) {
        (self.file_id, self.page_id)
    }

    /// The address as a pair, file id first.
    pub fn as_key(&self) -> (key: (u64, u64))
        ensures
            key == self.key(),
    {
        (self.file_id, self.page_id)
    }
}

/// Who holds a slot: nobody, some readers, or one writer.
#[derive(Clone, Copy, Debug, PartialEq, Eq, Structural)]
pub enum PinState {
    Unpinned,
    Read(usize),
    Write,
}

impl PinState {
    /// The state once one more reader holds the slot.
    pub open spec fn with_reader(self) -> PinState {
        match self {
            PinState::Read(n) => PinState::Read((n + 1) as usize),
            _ => PinState::Read(1),
        }
    }

    /// The state once a reader has given the slot back: a slot that no
    /// reader holds stays as it is.
    pub open spec fn without_reader(self) -> PinState {
        match self {
            PinState::Read(n) => if n == 1 {
                PinState::Unpinned
            } else {
                PinState::Read((n - 1) as usize)
            },
            other => other,
        }
    }
}

/// One frame of the pool: a page image, the address it caches and whether
/// the image is newer than the page on disk.
pub struct BufferSlot {
    pub page_address: PageAddr,
    pub page_data: Vec<u8>,
    pub is_dirty: bool,
}

impl BufferSlot {
    /// A clean slot of zeros.
    pub fn new() -> (slot: Self)
        ensures
            slot.page_address == (PageAddr { file_id: 0, page_id: 0 }),
            slot.page_data@ == zero_page(),
            !slot.is_dirty,
    {
        BufferSlot {
            page_address: PageAddr { file_id: 0, page_id: 0 },
            page_data: zero_bytes(PAGE_SIZE),
            is_dirty: false,
        }
    }

    /// Makes the slot hold the page at `page_address`, read from `files`.
    fn load_page(&mut self, page_address: &PageAddr, files: &PageFiles, create: bool) -> (res:
        Result<(), StoreError>)
        requires
            files.wf(),
        ensures
            final(self).page_address == *page_address,
            files.has_page(*page_address) || create ==> res is Ok && final(self).page_data@
                == files.page(*page_address) && !final(self).is_dirty,
            !files.has_page(*page_address) && !create ==> res == Err::<(), StoreError>(
                StoreError::Io,
            ) && final(self).page_data@ == old(self).page_data@ && final(self).is_dirty == old(self).is_dirty,
    {
        self.page_address = *page_address;
        match files.read_page(*page_address, &mut self.page_data, create) {
            Ok(()) => {},
            Err(e) => {
                return Err(e);
            },
        }
        self.is_dirty = false;
        Ok(())
    }

    /// Writes the slot's page to `files` and marks the slot clean.
    fn write_page(&mut self, files: &mut PageFiles) -> (res: Result<(), StoreError>)
        requires
            old(files).wf(),
            old(self).page_data.len() == PAGE_SIZE,
            page_id_valid(old(self).page_address.page_id),
        ensures
            res is Ok,
            final(self).page_address == old(self).page_address,
            final(self).page_data == old(self).page_data,
            !final(self).is_dirty,
            final(files).wf(),
            final(files).has_page(old(self).page_address),
            final(files).page(old(self).page_address) == old(self).page_data@,
            forall|a: PageAddr| old(files).has_page(a) ==> final(files).has_page(a),
            forall|a: PageAddr|
                a != old(self).page_address ==> final(files).page(a) == old(files).page(a),
    {
        match files.write_page(self.page_address, self.page_data.as_slice()) {
            Ok(()) => {},
            Err(e) => {
                return Err(e);
            },
        }
        self.is_dirty = false;
        Ok(())
    }
}

/// The pool: its slots, who holds each, the second-chance flags, the index
/// from page address to slot, the sweep's cursor and the paged files behind
/// the slots.
pub struct BufferPool {
    pub slots: Vec<BufferSlot>,
    pub pins: Vec<PinState>,
    pub slots_touched: Vec<bool>,
    pub page_to_slot: SlotIndex,
    pub next_slot: usize,
    pub page_files: PageFiles,
}

impl BufferPool {
    /// The index: for each cached page address, as a pair, its slot.
    pub open spec fn index(&self) -> Map<(u64, u64), usize> {
        index_contents(self.page_to_slot)
    }

    /// Whether some slot caches the page.
    pub open spec fn cached(&self, addr: PageAddr) -> bool {
        self.index().contains_key(addr.key())
    }

    /// The slot that caches the page, where one does.
    pub open spec fn slot_of(&self, addr: PageAddr) -> int {
        self.index()[addr.key()] as int
    }

    /// Whether slot `i` caches the page whose address it holds.
    pub open spec fn caches(&self, i: int) -> bool {
        self.cached(self.slots[i].page_address) && self.slot_of(self.slots[i].page_address) == i
    }

    /// Whether somebody holds slot `i`.
    pub open spec fn pinned(&self, i: int) -> bool {
        self.pins[i] != PinState::Unpinned
    }

    /// Whether the page is part of a file on disk.
    pub open spec fn on_disk(&self, addr: PageAddr) -> bool {
        self.page_files.has_page(addr)
    }

    /// What the page holds: the image in its slot where it is cached, else
    /// what is on disk, zeros where it was never written.
    pub open spec fn page(&self, addr: PageAddr) -> Seq<u8> {
        if self.cached(addr) {
            self.slots[self.slot_of(addr)].page_data@
        } else {
            self.page_files.page(addr)
        }
    }

    /// Whether `self` differs from `before` only in which pages are cached
    /// and which are written back: every page holds the same, the same
    /// slots are held in the same way and hold the same, and what could be
    /// had still can.
    #[verifier::opaque]
    pub open spec fn same_as(&self, before: &BufferPool) -> bool {
        &&& self.keeps_pages_of(before)
        &&& self.keeps_pins_of(before, -1)
    }

    /// What every page holds.
    pub open spec fn pages(&self) -> Map<PageAddr, Seq<u8>> {
        Map::total(|a: PageAddr| self.page(a))
    }

    /// What holds of slot `i` in a pool that is in order.
    pub open spec fn slot_wf(&self, i: int) -> bool {
        let slot = self.slots[i];
        &&& self.pins[i] is Write || slot.page_data.len() == PAGE_SIZE
        &&& self.pins[i] != PinState::Read(0)
        &&& self.pinned(i) ==> self.caches(i)
        &&& slot.is_dirty ==> self.caches(i)
        &&& self.pins[i] is Write ==> slot.is_dirty
        &&& self.caches(i) ==> page_id_valid(slot.page_address.page_id)
        &&& self.caches(i) && !slot.is_dirty ==> self.on_disk(slot.page_address)
            && slot.page_data@ == self.page_files.page(slot.page_address)
    }

    /// Whether the page can be had: it is cached, or on disk.
    pub open spec fn present(&self, addr: PageAddr) -> bool {
        self.cached(addr) || self.on_disk(addr)
    }

    /// How many readers hold slot `i`.
    pub open spec fn readers(&self, i: int) -> int {
        match self.pins[i] {
            PinState::Read(n) => n as int,
            _ => 0,
        }
    }

    /// The pool's invariant: the index and the slots agree, so that a page
    /// is cached by one slot at most; a clean slot holds what is on disk;
    /// only cached pages are dirty or pinned.
    pub open spec fn wf(&self) -> bool {
        &&& self.slots.len() == BUFFER_POOL_SIZE
        &&& self.pins.len() == BUFFER_POOL_SIZE
        &&& self.slots_touched.len() == BUFFER_POOL_SIZE
        &&& self.next_slot < BUFFER_POOL_SIZE
        &&& self.page_files.wf()
        &&& forall|k: (u64, u64)| #[trigger]
            self.index().contains_key(k) ==> self.index()[k] < BUFFER_POOL_SIZE
                && self.slots[self.index()[k] as int].page_address.key() == k
        &&& forall|i: int| 0 <= i < BUFFER_POOL_SIZE ==> #[trigger] self.slot_wf(i)
    }

    /// Every slot is held by somebody.
    pub open spec fn all_pinned(&self) -> bool {
        forall|i: int| 0 <= i < BUFFER_POOL_SIZE ==> #[trigger] self.pinned(i)
    }

    /// No slot is held by anybody.
    pub open spec fn none_pinned(&self) -> bool {
        forall|i: int| 0 <= i < BUFFER_POOL_SIZE ==> !#[trigger] self.pinned(i)
    }

    /// Every page holds in `self` what it holds in `before`, and what was
    /// on disk still is.
    pub open spec fn keeps_pages_of(&self, before: &BufferPool) -> bool {
        &&& forall|a: PageAddr| #[trigger] self.page(a) == before.page(a)
        &&& forall|a: PageAddr| #[trigger] before.on_disk(a) ==> self.on_disk(a)
        &&& forall|a: PageAddr| #[trigger] before.present(a) ==> self.present(a)
    }

    /// Every page but the one at `addr` holds in `self` what it holds in
    /// `before`, and what could be had before still can.
    pub open spec fn keeps_other_pages_of(&self, before: &BufferPool, addr: PageAddr) -> bool {
        &&& forall|a: PageAddr| a != addr ==> #[trigger] self.page(a) == before.page(a)
        &&& forall|a: PageAddr| #[trigger] before.on_disk(a) ==> self.on_disk(a)
        &&& forall|a: PageAddr| #[trigger] before.present(a) ==> self.present(a)
    }

    /// The slots that were held in `before`, but for slot `except`, are held
    /// as before and hold what they held; and no other slot is held.
    pub open spec fn keeps_pins_of(&self, before: &BufferPool, except: int) -> bool {
        forall|i: int|
            0 <= i < BUFFER_POOL_SIZE && i != except ==> #[trigger] self.pins[i] == before.pins[i]
                && (before.pinned(i) ==> self.slots[i] == before.slots[i])
    }

    /// A pool of clean, unpinned slots with no file open.
    pub fn new() -> (pool: Self)
        ensures
            pool.wf(),
            pool.none_pinned(),
            forall|a: PageAddr| !pool.cached(a) && !pool.on_disk(a),
            forall|a: PageAddr| #[trigger] pool.page(a) == zero_page(),
    {
        Self::with_files(PageFiles::new())
    }

    /// A pool of clean, unpinned slots over the paged files `page_files`.
    pub fn with_files(page_files: PageFiles) -> (pool: Self)
        requires
            page_files.wf(),
        ensures
            pool.wf(),
            pool.none_pinned(),
            pool.page_files == page_files,
            forall|a: PageAddr| !pool.cached(a),
            forall|a: PageAddr| #[trigger] pool.page(a) == page_files.page(a),
            forall|a: PageAddr| #[trigger] pool.on_disk(a) == page_files.has_page(a),
    {
        let mut slots: Vec<BufferSlot> = Vec::new();
        let mut pins: Vec<PinState> = Vec::new();
        let mut slots_touched: Vec<bool> = Vec::new();
        let mut i: usize = 0;
        while i < BUFFER_POOL_SIZE
            invariant
                i <= BUFFER_POOL_SIZE,
                slots.len() == i,
                pins.len() == i,
                slots_touched.len() == i,
                forall|j: int|
                    0 <= j < i ==> (#[trigger] slots[j]).page_data@ == zero_page()
                        && !slots[j].is_dirty,
                forall|j: int| 0 <= j < i ==> #[trigger] pins[j] == PinState::Unpinned,
            decreases BUFFER_POOL_SIZE - i,
        {
            slots.push(BufferSlot::new());
            pins.push(PinState::Unpinned);
            slots_touched.push(false);
            i += 1;
        }
        let pool = BufferPool {
            slots,
            pins,
            slots_touched,
            page_to_slot: index_new(),
            next_slot: 0,
            page_files,
        };
        proof {
            assert forall|j: int| 0 <= j < BUFFER_POOL_SIZE implies #[trigger] pool.slot_wf(j) by {
                assert(pool.pins[j] == PinState::Unpinned);
                assert(pool.slots[j].page_data@ == zero_page());
            }
            assert forall|j: int| 0 <= j < BUFFER_POOL_SIZE implies !#[trigger] pool.pinned(j) by {
                assert(pool.pins[j] == PinState::Unpinned);
            }
        }
        pool
    }

    /// How far slot `i` lies behind `start` on the sweep's circle.
    pub open spec fn sweep_offset(start: int, i: int) -> int {
        if i >= start {
            i - start
        } else {
            i + BUFFER_POOL_SIZE - start
        }
    }

    /// The slot that lies `k` steps behind `start` on the sweep's circle.
    pub open spec fn sweep_index(start: int, k: int) -> int {
        if start + k < BUFFER_POOL_SIZE {
            start + k
        } else {
            start + k - BUFFER_POOL_SIZE
        }
    }

    /// The first slot, from `k` steps behind the cursor on and up to the
    /// slot before the cursor, that nobody holds and, on the sweep's first
    /// round, whose second-chance flag is not set.
    pub open spec fn first_free(&self, k: int, first_round: bool) -> Option<int>
        decreases BUFFER_POOL_SIZE - k,
    {
        if k < 0 || k >= BUFFER_POOL_SIZE {
            None
        } else {
            let i = Self::sweep_index(self.next_slot as int, k);
            if !self.pinned(i) && (!first_round || !self.slots_touched[i]) {
                Some(i)
            } else {
                self.first_free(k + 1, first_round)
            }
        }
    }

    /// The slot that the sweep takes: on the first round the first slot
    /// from the cursor on that nobody holds and whose second-chance flag is
    /// not set; where there is none, on the second round, when every flag
    /// is cleared, the first slot from the cursor on that nobody holds.
    pub open spec fn victim(&self) -> Option<int> {
        match self.first_free(0, true) {
            Some(i) => Some(i),
            None => self.first_free(0, false),
        }
    }

    /// The second-chance flag of slot `j` after the sweep: cleared where
    /// the sweep passed the slot.
    pub open spec fn touched_after_sweep(&self, j: int) -> bool {
        self.slots_touched[j] && (match self.first_free(0, true) {
            Some(v) => Self::sweep_offset(self.next_slot as int, j) >= Self::sweep_offset(
                self.next_slot as int,
                v,
            ),
            None => false,
        })
    }

    /// The cursor after the sweep: behind the victim, and where it was if
    /// there is no victim.
    pub open spec fn cursor_after_sweep(&self) -> int {
        match self.victim() {
            Some(v) => Self::sweep_index(v, 1),
            None => self.next_slot as int,
        }
    }

    /// Sweeps the slots from the cursor on, over each of them twice at most.
    /// A slot whose second-chance flag is set loses the flag and is passed
    /// over; a slot that is held is passed over; the first slot that is
    /// neither is the victim.
    fn find_victim(&mut self) -> (victim: Option<usize>)
        requires
            old(self).wf(),
        ensures
            final(self).wf(),
            final(self).slots == old(self).slots,
            final(self).pins == old(self).pins,
            final(self).page_to_slot == old(self).page_to_slot,
            final(self).page_files == old(self).page_files,
            match victim {
                Some(i) => i < BUFFER_POOL_SIZE && !old(self).pinned(i as int) && old(self).victim()
                    == Some(i as int),
                None => old(self).all_pinned() && old(self).victim() is None,
            },
            final(self).next_slot == old(self).cursor_after_sweep(),
            forall|j: int|
                0 <= j < BUFFER_POOL_SIZE ==> #[trigger] final(self).slots_touched[j] == old(self).touched_after_sweep(j),
    {
        let ghost me = *old(self);
        let ghost start = self.next_slot as int;
        let mut step: usize = 0;
        while step < 2 * BUFFER_POOL_SIZE
            invariant
                old(self).wf(),
                me == *old(self),
                start == me.next_slot,
                step <= 2 * BUFFER_POOL_SIZE,
                0 <= start < BUFFER_POOL_SIZE,
                self.next_slot < BUFFER_POOL_SIZE,
                self.slots_touched.len() == BUFFER_POOL_SIZE,
                self.pins.len() == BUFFER_POOL_SIZE,
                self.slots == old(self).slots,
                self.pins == old(self).pins,
                self.page_to_slot == old(self).page_to_slot,
                self.page_files == old(self).page_files,
                self.next_slot == Self::sweep_index(
                    start,
                    if step < BUFFER_POOL_SIZE {
                        step as int
                    } else if step < 2 * BUFFER_POOL_SIZE {
                        step - BUFFER_POOL_SIZE
                    } else {
                        0
                    },
                ),
                step < BUFFER_POOL_SIZE ==> me.first_free(0, true) == me.first_free(
                    step as int,
                    true,
                ),
                step >= BUFFER_POOL_SIZE ==> me.first_free(0, true) is None && me.first_free(
                    0,
                    false,
                ) == me.first_free(step - BUFFER_POOL_SIZE, false),
                forall|j: int|
                    0 <= j < BUFFER_POOL_SIZE ==> #[trigger] self.slots_touched[j] == (
                    me.slots_touched[j] && Self::sweep_offset(start, j) >= step),
                forall|j: int|
                    0 <= j < BUFFER_POOL_SIZE && Self::sweep_offset(start, j) + BUFFER_POOL_SIZE
                        < step ==> #[trigger] self.pins[j] != PinState::Unpinned,
            decreases 2 * BUFFER_POOL_SIZE - step,
        {
            let i: usize = self.next_slot;
            let ghost k = if step < BUFFER_POOL_SIZE {
                step as int
            } else {
                step - BUFFER_POOL_SIZE
            };
            assert(Self::sweep_offset(start, i as int) == k);
            self.next_slot = if i + 1 == BUFFER_POOL_SIZE {
                0
            } else {
                i + 1
            };
            if self.slots_touched[i] {
                self.slots_touched.set(i, false);
            } else {
                match self.pins[i] {
                    PinState::Unpinned => {
                        proof {
                            assert(self.index() == old(self).index());
                            assert(forall|j: int|
                                0 <= j < BUFFER_POOL_SIZE ==> (#[trigger] self.slot_wf(j)
                                    <==> old(self).slot_wf(j)));
                            if step < BUFFER_POOL_SIZE {
                                assert(me.first_free(k, true) == Some(i as int));
                            } else {
                                assert(me.first_free(k, false) == Some(i as int));
                            }
                            assert(me.victim() == Some(i as int));
                            assert forall|j: int| 0 <= j < BUFFER_POOL_SIZE implies #[trigger] self.slots_touched[j]
                                == me.touched_after_sweep(j) by {
                                if step >= BUFFER_POOL_SIZE {
                                    assert(Self::sweep_offset(start, j) < step);
                                }
                            }
                        }
                        return Some(i);
                    },
                    _ => {},
                }
            }
            proof {
                if step + 1 == BUFFER_POOL_SIZE {
                    assert(me.first_free(BUFFER_POOL_SIZE as int, true) is None);
                }
            }
            step += 1;
        }
        proof {
            assert(self.index() == old(self).index());
            assert(forall|j: int|
                0 <= j < BUFFER_POOL_SIZE ==> (#[trigger] self.slot_wf(j) <==> old(self).slot_wf(j)));
            assert forall|j: int| 0 <= j < BUFFER_POOL_SIZE implies #[trigger] old(self).pinned(j) by {
                assert(Self::sweep_offset(start, j) + BUFFER_POOL_SIZE < step);
                assert(self.pins[j] != PinState::Unpinned);
            }
            assert(me.first_free(BUFFER_POOL_SIZE as int, false) is None);
        }
        None
    }

    /// Whether the cursor and the second-chance flags of `self` are those
    /// of `before` after a sweep: the cursor stands behind the victim, the
    /// flags of the slots that the sweep passed are cleared, and the flag
    /// of the victim is set once its page is there.
    pub open spec fn swept_from(&self, before: &BufferPool) -> bool {
        &&& self.next_slot == before.cursor_after_sweep()
        &&& forall|j: int|
            0 <= j < BUFFER_POOL_SIZE ==> #[trigger] self.slots_touched[j] == (
            before.touched_after_sweep(j) || before.victim() == Some(j))
    }

    /// Takes a slot for the page at `page_address`, which no slot caches:
    /// picks a victim by the sweep, writes the victim's page back where it
    /// is dirty, drops the victim's entry from the index, loads the new page
    /// and enters it in the index. The page that the victim cached is
    /// cached no longer, and reads from disk as it read from the slot.
    pub fn allocate_slot(&mut self, page_address: &PageAddr, create_if_not_exists: bool) -> (res:
        Result<usize, StoreError>)
        requires
            old(self).wf(),
            !old(self).cached(*page_address),
            page_id_valid(page_address.page_id),
        ensures
            final(self).wf(),
            final(self).keeps_pages_of(old(self)),
            final(self).keeps_pins_of(old(self), -1),
            match res {
                Ok(slot) => {
                    &&& slot < BUFFER_POOL_SIZE
                    &&& !old(self).pinned(slot as int)
                    &&& old(self).victim() == Some(slot as int)
                    &&& final(self).slots[slot as int].page_address == *page_address
                    &&& final(self).caches(slot as int)
                    &&& final(self).slots[slot as int].page_data@ == old(self).page(*page_address)
                    &&& final(self).slots[slot as int].is_dirty == create_if_not_exists
                    &&& final(self).slot_of(*page_address) == slot
                    &&& old(self).caches(slot as int) ==> !final(self).cached(
                        old(self).slots[slot as int].page_address,
                    ) && final(self).page_files.page(old(self).slots[slot as int].page_address)
                        == old(self).slots[slot as int].page_data@
                },
                Err(e) => !final(self).cached(*page_address),
            },
            final(self).swept_from(old(self)),
            old(self).all_pinned() ==> res == Err::<usize, StoreError>(StoreError::Exhaustion),
            !old(self).all_pinned() ==> (res is Ok <==> create_if_not_exists || final(self).on_disk(*page_address)) && (res is Err ==> res == Err::<usize, StoreError>(StoreError::Io)),
    {
        let victim: usize = match self.find_victim() {
            Some(i) => i,
            None => {
                return Err(StoreError::Exhaustion);
            },
        };
        let ghost before = *self;
        assert(before.slot_wf(victim as int));
        assert(!before.pinned(victim as int));
        assert(!old(self).pinned(victim as int));
        assert(forall|a: PageAddr| #[trigger] before.page(a) == old(self).page(a));
        assert(forall|a: PageAddr| #[trigger] before.present(a) == old(self).present(a));
        let was_cached: bool = match index_get(
            &self.page_to_slot,
            self.slots[victim].page_address.as_key(),
        ) {
            Some(i) => i == victim,
            None => false,
        };
        assert(was_cached == before.caches(victim as int));
        if self.slots[victim].is_dirty {
            let slot = &mut self.slots[victim];
            match slot.write_page(&mut self.page_files) {
                Ok(()) => {},
                Err(e) => {
                    return Err(e);
                },
            }
        }
        let old_address = self.slots[victim].page_address;
        if was_cached {
            index_remove(&mut self.page_to_slot, old_address.as_key());
        }
        self.slots_touched.set(victim, true);
        let ghost mid = *self;
        proof {
            assert(mid.index() == (if was_cached {
                before.index().remove(old_address.key())
            } else {
                before.index()
            }));
            assert(!mid.caches(victim as int));
            assert forall|j: int| 0 <= j < BUFFER_POOL_SIZE && j != victim implies mid.caches(j)
                == before.caches(j) by {
                assert(before.slot_wf(j));
            }
            assert forall|j: int| 0 <= j < BUFFER_POOL_SIZE implies #[trigger] mid.slot_wf(j) by {
                assert(before.slot_wf(j));
            }
            assert(mid.wf());
            assert forall|a: PageAddr| #[trigger] mid.page(a) == before.page(a) by {
                if before.cached(a) {
                    let j = before.slot_of(a);
                    assert(before.slot_wf(j));
                    if j != victim && was_cached {
                        assert(a != old_address);
                    }
                }
            }
            assert forall|a: PageAddr| #[trigger] before.present(a) implies mid.present(a) by {
                if before.cached(a) {
                    let j = before.slot_of(a);
                    assert(before.slot_wf(j));
                }
            }
        }
        let slot = &mut self.slots[victim];
        let loaded = slot.load_page(page_address, &self.page_files, create_if_not_exists);
        match loaded {
            Ok(()) => {},
            Err(e) => {
                proof {
                    assert(self.index() == mid.index());
                    assert forall|j: int| 0 <= j < BUFFER_POOL_SIZE implies #[trigger] self.slot_wf(j) by {
                        assert(mid.slot_wf(j));
                    }
                    assert forall|a: PageAddr| #[trigger] self.page(a) == mid.page(a) by {
                        if mid.cached(a) {
                            assert(mid.slot_of(a) != victim);
                        }
                    }
                    assert(forall|a: PageAddr| #[trigger] self.present(a) == mid.present(a));
                }
                return Err(e);
            },
        }
        if create_if_not_exists {
            self.slots[victim].is_dirty = true;
        }
        index_insert(&mut self.page_to_slot, page_address.as_key(), victim);
        proof {
            assert(self.index() == mid.index().insert(page_address.key(), victim));
            assert forall|j: int| 0 <= j < BUFFER_POOL_SIZE && j != victim implies self.caches(j)
                == mid.caches(j) by {
                assert(mid.slot_wf(j));
            }
            assert forall|j: int| 0 <= j < BUFFER_POOL_SIZE implies #[trigger] self.slot_wf(j) by {
                assert(mid.slot_wf(j));
            }
            assert forall|a: PageAddr| #[trigger] self.page(a) == mid.page(a) by {
                if mid.cached(a) {
                    assert(mid.slot_of(a) != victim);
                }
            }
            assert forall|a: PageAddr| #[trigger] mid.present(a) implies self.present(a) by {}
        }
        Ok(victim)
    }

    /// Why a read pin of the page is refused whatever is on disk, if it is:
    /// the address is beyond what a file can hold; a writer holds the page;
    /// the page's reader count is full; or the page is not cached and every
    /// slot is held.
    pub open spec fn read_refusal(&self, addr: PageAddr) -> Option<StoreError> {
        if !page_id_valid(addr.page_id) {
            Some(StoreError::InvalidArgument)
        } else if self.cached(addr) {
            match self.pins[self.slot_of(addr)] {
                PinState::Write => Some(StoreError::InvalidArgument),
                PinState::Read(n) => if n == usize::MAX {
                    Some(StoreError::Exhaustion)
                } else {
                    None
                },
                PinState::Unpinned => None,
            }
        } else if self.all_pinned() {
            Some(StoreError::Exhaustion)
        } else {
            None
        }
    }

    /// Why a write pin of the page is refused, if it is: the address is
    /// beyond what a file can hold; somebody holds the page; or the page is
    /// not cached and every slot is held.
    pub open spec fn write_refusal(&self, addr: PageAddr) -> Option<StoreError> {
        if !page_id_valid(addr.page_id) {
            Some(StoreError::InvalidArgument)
        } else if self.cached(addr) {
            if self.pinned(self.slot_of(addr)) {
                Some(StoreError::InvalidArgument)
            } else {
                None
            }
        } else if self.all_pinned() {
            Some(StoreError::Exhaustion)
        } else {
            None
        }
    }

    /// Pins the page for reading and returns its slot. The page is loaded
    /// from disk where no slot caches it; a page that is not on disk cannot
    /// be read. The slot keeps the page until the pin is given back.
    pub fn pin_read(&mut self, page_address: PageAddr) -> (res: Result<usize, StoreError>)
        requires
            old(self).wf(),
        ensures
            final(self).wf(),
            final(self).keeps_pages_of(old(self)),
            match res {
                Ok(slot) => {
                    &&& slot < BUFFER_POOL_SIZE
                    &&& final(self).keeps_pins_of(old(self), slot as int)
                    &&& final(self).slots[slot as int].page_address == page_address
                    &&& final(self).caches(slot as int)
                    &&& final(self).pins[slot as int] == PinState::Read(
                        (old(self).readers(slot as int) + 1) as usize,
                    )
                    &&& final(self).slots[slot as int].page_data@ == old(self).page(page_address)
                    &&& old(self).page(page_address).len() == PAGE_SIZE
                    &&& old(self).pinned(slot as int) ==> final(self).slots[slot as int] == old(self).slots[slot as int]
                    &&& !(old(self).pins[slot as int] is Write)
                    &&& old(self).pins[slot as int] != PinState::Read(0)
                    &&& old(self).readers(slot as int) < usize::MAX
                },
                Err(e) => final(self).keeps_pins_of(old(self), -1),
            },
            old(self).cached(page_address) ==> final(self).next_slot == old(self).next_slot && (
            res matches Ok(slot) ==> slot == old(self).slot_of(page_address) && forall|j: int|
                0 <= j < BUFFER_POOL_SIZE ==> #[trigger] final(self).slots_touched[j] == (old(self).slots_touched[j] || j == slot)),
            page_id_valid(page_address.page_id) && !old(self).cached(page_address) ==> final(self).swept_from(old(self)) && (res matches Ok(slot) ==> old(self).victim() == Some(
                slot as int,
            )),
            old(self).read_refusal(page_address) matches Some(e) ==> res == Err::<usize, StoreError>(e),
            old(self).read_refusal(page_address) is None ==> (res is Ok <==> old(self).cached(page_address) || final(self).on_disk(page_address)) && (res is Err ==> res == Err::<usize, StoreError>(StoreError::Io)),
    {
        if page_address.page_id >= usize::MAX as u64 || page_address.page_id
            >= 0x000f_ffff_ffff_ffff {
            return Err(StoreError::InvalidArgument);
        }
        match index_get(&self.page_to_slot, page_address.as_key()) {
            Some(slot) => {
                assert(self.slot_wf(slot as int));
                let count: usize = match self.pins[slot] {
                    PinState::Write => {
                        return Err(StoreError::InvalidArgument);
                    },
                    PinState::Read(n) => {
                        if n == usize::MAX {
                            return Err(StoreError::Exhaustion);
                        }
                        n + 1
                    },
                    PinState::Unpinned => 1,
                };
                self.pins.set(slot, PinState::Read(count));
                self.slots_touched.set(slot, true);
                proof {
                    assert(self.index() == old(self).index());
                    assert forall|j: int| 0 <= j < BUFFER_POOL_SIZE implies #[trigger] self.slot_wf(j) by {
                        assert(old(self).slot_wf(j));
                    }
                    assert(forall|a: PageAddr| #[trigger] self.page(a) == old(self).page(a));
                    assert(forall|a: PageAddr| #[trigger] self.present(a) == old(self).present(a));
                }
                Ok(slot)
            },
            None => {
                let slot: usize = match self.allocate_slot(&page_address, false) {
                    Ok(slot) => slot,
                    Err(e) => {
                        return Err(e);
                    },
                };
                let ghost mid = *self;
                self.pins.set(slot, PinState::Read(1));
                proof {
                    assert(mid.slot_wf(slot as int));
                    assert(self.index() == mid.index());
                    assert forall|j: int| 0 <= j < BUFFER_POOL_SIZE implies #[trigger] self.slot_wf(j) by {
                        assert(mid.slot_wf(j));
                    }
                    assert(forall|a: PageAddr| #[trigger] self.page(a) == mid.page(a));
                    assert(forall|a: PageAddr| #[trigger] self.present(a) == mid.present(a));
                    assert(mid.present(page_address));
                }
                Ok(slot)
            },
        }
    }

    /// Pins the page for writing, marks it dirty and hands out its slot and
    /// its image. The page is loaded from disk where no slot caches it, and
    /// starts as zeros where it is not on disk. The image goes back into the
    /// slot when the pin is given back.
    pub fn pin_write(&mut self, page_address: PageAddr) -> (res: Result<
        (usize, Vec<u8>),
        StoreError,
    >)
        requires
            old(self).wf(),
        ensures
            final(self).wf(),
            final(self).keeps_other_pages_of(old(self), page_address),
            match res {
                Ok((slot, data)) => {
                    &&& slot < BUFFER_POOL_SIZE
                    &&& final(self).keeps_pins_of(old(self), slot as int)
                    &&& final(self).slots[slot as int].page_address == page_address
                    &&& final(self).caches(slot as int)
                    &&& final(self).pins[slot as int] == PinState::Write
                    &&& !old(self).pinned(slot as int)
                    &&& data@ == old(self).page(page_address)
                    &&& data.len() == PAGE_SIZE
                },
                Err(e) => final(self).keeps_pins_of(old(self), -1) && final(self).page(page_address) == old(self).page(page_address),
            },
            old(self).cached(page_address) ==> final(self).next_slot == old(self).next_slot && (
            res matches Ok((slot, data)) ==> slot == old(self).slot_of(page_address) && forall|j: int|
                0 <= j < BUFFER_POOL_SIZE ==> #[trigger] final(self).slots_touched[j] == (old(self).slots_touched[j] || j == slot)),
            page_id_valid(page_address.page_id) && !old(self).cached(page_address) ==> final(self).swept_from(old(self)) && (res matches Ok((slot, data)) ==> old(self).victim()
                == Some(slot as int)),
            match old(self).write_refusal(page_address) {
                Some(e) => res is Err && res->Err_0 == e,
                None => res is Ok,
            },
    {
        if page_address.page_id >= usize::MAX as u64 || page_address.page_id
            >= 0x000f_ffff_ffff_ffff {
            return Err(StoreError::InvalidArgument);
        }
        let slot: usize = match index_get(&self.page_to_slot, page_address.as_key()) {
            Some(slot) => {
                assert(self.slot_wf(slot as int));
                match self.pins[slot] {
                    PinState::Unpinned => {},
                    _ => {
                        return Err(StoreError::InvalidArgument);
                    },
                }
                self.slots_touched.set(slot, true);
                proof {
                    assert(self.index() == old(self).index());
                    assert forall|j: int| 0 <= j < BUFFER_POOL_SIZE implies #[trigger] self.slot_wf(j) by {
                        assert(old(self).slot_wf(j));
                    }
                    assert(forall|a: PageAddr| #[trigger] self.page(a) == old(self).page(a));
                    assert(forall|a: PageAddr| #[trigger] self.present(a) == old(self).present(a));
                }
                slot
            },
            None => {
                match self.allocate_slot(&page_address, true) {
                    Ok(slot) => slot,
                    Err(e) => {
                        return Err(e);
                    },
                }
            },
        };
        let ghost mid = *self;
        assert(mid.slot_wf(slot as int));
        self.pins.set(slot, PinState::Write);
        let mut data: Vec<u8> = Vec::new();
        let entry = &mut self.slots[slot];
        entry.is_dirty = true;
        std::mem::swap(&mut entry.page_data, &mut data);
        proof {
            assert(self.index() == mid.index());
            assert forall|j: int| 0 <= j < BUFFER_POOL_SIZE implies #[trigger] self.slot_wf(j) by {
                assert(mid.slot_wf(j));
            }
            assert forall|a: PageAddr| a != page_address implies #[trigger] self.page(a)
                == mid.page(a) by {
                if mid.cached(a) {
                    assert(mid.slot_of(a) != slot);
                }
            }
            assert(forall|a: PageAddr| #[trigger] self.present(a) == mid.present(a));
        }
        Ok((slot, data))
    }

    /// Gives back one read pin on `slot`. Does nothing where no reader
    /// holds the slot.
    pub fn unpin_read(&mut self, slot: usize)
        requires
            old(self).wf(),
        ensures
            final(self).wf(),
            final(self).keeps_pages_of(old(self)),
            final(self).slots == old(self).slots,
            final(self).keeps_pins_of(old(self), slot as int),
            slot < BUFFER_POOL_SIZE ==> final(self).pins[slot as int] == (match old(self).pins[slot as int] {
                PinState::Read(n) => if n == 1 {
                    PinState::Unpinned
                } else {
                    PinState::Read((n - 1) as usize)
                },
                other => other,
            }),
    {
        if slot < BUFFER_POOL_SIZE {
            assert(self.slot_wf(slot as int));
            match self.pins[slot] {
                PinState::Read(n) => {
                    if n == 1 {
                        self.pins.set(slot, PinState::Unpinned);
                    } else {
                        self.pins.set(slot, PinState::Read(n - 1));
                    }
                },
                _ => {},
            }
        }
        proof {
            assert(self.index() == old(self).index());
            assert forall|j: int| 0 <= j < BUFFER_POOL_SIZE implies #[trigger] self.slot_wf(j) by {
                assert(old(self).slot_wf(j));
            }
            assert(forall|a: PageAddr| #[trigger] self.page(a) == old(self).page(a));
            assert(forall|a: PageAddr| #[trigger] self.present(a) == old(self).present(a));
        }
    }

    /// Gives back the write pin on `slot` and puts `data` into the slot as
    /// the page's image. Does nothing where no writer holds the slot.
    pub fn unpin_write(&mut self, slot: usize, data: Vec<u8>)
        requires
            old(self).wf(),
            data.len() == PAGE_SIZE,
        ensures
            final(self).wf(),
            final(self).keeps_pins_of(old(self), slot as int),
            slot < BUFFER_POOL_SIZE && old(self).pins[slot as int] is Write ==> {
                let addr = old(self).slots[slot as int].page_address;
                &&& final(self).pins[slot as int] == PinState::Unpinned
                &&& final(self).slots[slot as int].page_address == addr
                &&& final(self).caches(slot as int)
                &&& final(self).page(addr) == data@
                &&& final(self).keeps_other_pages_of(old(self), addr)
            },
            !(slot < BUFFER_POOL_SIZE && old(self).pins[slot as int] is Write) ==> final(self).keeps_pages_of(old(self)) && final(self).pins == old(self).pins,
    {
        let mut data = data;
        if slot < BUFFER_POOL_SIZE {
            assert(self.slot_wf(slot as int));
            match self.pins[slot] {
                PinState::Write => {
                    let entry = &mut self.slots[slot];
                    std::mem::swap(&mut entry.page_data, &mut data);
                    self.pins.set(slot, PinState::Unpinned);
                },
                _ => {},
            }
        }
        proof {
            assert(self.index() == old(self).index());
            assert forall|j: int| 0 <= j < BUFFER_POOL_SIZE implies #[trigger] self.slot_wf(j) by {
                assert(old(self).slot_wf(j));
            }
            if slot < BUFFER_POOL_SIZE && old(self).pins[slot as int] is Write {
                let addr = old(self).slots[slot as int].page_address;
                assert forall|a: PageAddr| a != addr implies #[trigger] self.page(a) == old(self).page(a) by {
                    if old(self).cached(a) {
                        assert(old(self).slot_of(a) != slot);
                    }
                }
            } else {
                assert(forall|a: PageAddr| #[trigger] self.page(a) == old(self).page(a));
            }
            assert(forall|a: PageAddr| #[trigger] self.present(a) == old(self).present(a));
        }
    }

    /// The image in `slot`.
    pub fn page_data(&self, slot: usize) -> (data: &[u8])
        requires
            slot < self.slots.len(),
        ensures
            data@ == self.slots[slot as int].page_data@,
    {
        self.slots[slot].page_data.as_slice()
    }

    /// Whether the paged files hold what the pool holds: every page is on
    /// disk with what it holds, if it can be had at all.
    pub open spec fn durable(&self) -> bool {
        &&& forall|a: PageAddr| #[trigger] self.page_files.page(a) == self.page(a)
        &&& forall|a: PageAddr| #[trigger] self.present(a) ==> self.on_disk(a)
    }

    /// Writes every dirty page that nobody holds back to disk.
    pub fn flush(&mut self) -> (res: Result<(), StoreError>)
        requires
            old(self).wf(),
        ensures
            res is Ok,
            final(self).wf(),
            old(self).none_pinned() ==> final(self).durable(),
            final(self).keeps_pages_of(old(self)),
            final(self).keeps_pins_of(old(self), -1),
            forall|i: int|
                0 <= i < BUFFER_POOL_SIZE && !old(self).pinned(i) ==> !(#[trigger] final(self).slots[i]).is_dirty,
            forall|a: PageAddr|
                #[trigger] old(self).cached(a) && !old(self).pinned(old(self).slot_of(a))
                    ==> final(self).on_disk(a) && final(self).page_files.page(a) == old(self).page(a),
    {
        let mut i: usize = 0;
        while i < BUFFER_POOL_SIZE
            invariant
                i <= BUFFER_POOL_SIZE,
                old(self).wf(),
                self.wf(),
                self.keeps_pages_of(old(self)),
                self.pins == old(self).pins,
                self.index() == old(self).index(),
                forall|j: int|
                    0 <= j < BUFFER_POOL_SIZE ==> (#[trigger] self.slots[j]).page_address == old(self).slots[j].page_address && self.slots[j].page_data == old(self).slots[j].page_data,
                forall|j: int| 0 <= j < i && !self.pinned(j) ==> !(#[trigger] self.slots[j]).is_dirty,
                forall|j: int|
                    0 <= j < BUFFER_POOL_SIZE && old(self).pinned(j) ==> #[trigger] self.slots[j]
                        == old(self).slots[j],
            decreases BUFFER_POOL_SIZE - i,
        {
            let ghost before = *self;
            assert(before.slot_wf(i as int));
            let unpinned: bool = match self.pins[i] {
                PinState::Unpinned => true,
                _ => false,
            };
            if unpinned && self.slots[i].is_dirty {
                let slot = &mut self.slots[i];
                match slot.write_page(&mut self.page_files) {
                    Ok(()) => {},
                    Err(e) => {
                        assert(false);
                        return Err(e);
                    },
                }
                proof {
                    let addr = before.slots[i as int].page_address;
                    assert forall|j: int| 0 <= j < BUFFER_POOL_SIZE implies #[trigger] self.slot_wf(j) by {
                        assert(before.slot_wf(j));
                        if j != i && before.caches(j) {
                            assert(before.slots[j].page_address != addr);
                        }
                    }
                    assert forall|a: PageAddr| #[trigger] self.page(a) == before.page(a) by {
                        if !before.cached(a) {
                            assert(a != addr);
                        }
                    }
                    assert forall|a: PageAddr| #[trigger] before.present(a) implies self.present(a) by {}
                }
            }
            i += 1;
        }
        proof {
            if old(self).none_pinned() {
                assert forall|a: PageAddr| #[trigger] self.page_files.page(a) == self.page(a) by {
                    if self.cached(a) {
                        let j = self.slot_of(a);
                        assert(self.slot_wf(j));
                        assert(!old(self).pinned(j));
                        assert(!self.slots[j].is_dirty);
                    }
                }
                assert forall|a: PageAddr| #[trigger] self.present(a) implies self.on_disk(a) by {
                    if self.cached(a) {
                        let j = self.slot_of(a);
                        assert(self.slot_wf(j));
                        assert(!old(self).pinned(j));
                        assert(!self.slots[j].is_dirty);
                    }
                }
            }
            assert forall|a: PageAddr|
                #[trigger] old(self).cached(a) && !old(self).pinned(
                    old(self).slot_of(a),
                ) implies self.on_disk(a) && self.page_files.page(a) == old(self).page(a) by {
                let j = old(self).slot_of(a);
                assert(self.slot_wf(j));
                assert(old(self).slot_wf(j));
                assert(!self.slots[j].is_dirty);
                assert(self.page(a) == old(self).page(a));
            }
        }
        Ok(())
    }
}

/// Pools whose pages hold the same have the same map of pages.
pub proof fn lemma_same_pages(after: &BufferPool, before: &BufferPool)
    requires
        forall|a: PageAddr| #[trigger] after.page(a) == before.page(a),
    ensures
        after.pages() == before.pages(),
{
    assert(after.pages() =~= before.pages());
}

/// Pools whose pages but one hold the same have the same map of pages but
/// for that one.
pub proof fn lemma_same_other_pages(after: &BufferPool, before: &BufferPool, addr: PageAddr)
    requires
        forall|a: PageAddr| a != addr ==> #[trigger] after.page(a) == before.page(a),
    ensures
        after.pages() == before.pages().insert(addr, after.page(addr)),
{
    assert(after.pages() =~= before.pages().insert(addr, after.page(addr)));
}

/// A pool that keeps the pages and the pins of another is the same as it.
pub proof fn lemma_same_as_intro(after: &BufferPool, before: &BufferPool)
    requires
        after.keeps_pages_of(before),
        after.keeps_pins_of(before, -1),
    ensures
        after.same_as(before),
{
    reveal(BufferPool::same_as);
}

/// A pool is the same as itself.
pub proof fn lemma_same_as_refl(pool: &BufferPool)
    ensures
        pool.same_as(pool),
{
    reveal(BufferPool::same_as);
}

/// Being the same carries over two steps.
pub proof fn lemma_same_as_trans(after: &BufferPool, mid: &BufferPool, before: &BufferPool)
    requires
        after.same_as(mid),
        mid.same_as(before),
    ensures
        after.same_as(before),
{
    reveal(BufferPool::same_as);
    assert forall|a: PageAddr| #[trigger] after.page(a) == before.page(a) by {
        assert(mid.page(a) == before.page(a));
    }
    assert forall|a: PageAddr| #[trigger] before.on_disk(a) implies after.on_disk(a) by {
        assert(mid.on_disk(a));
    }
    assert forall|a: PageAddr| #[trigger] before.present(a) implies after.present(a) by {
        assert(mid.present(a));
    }
    assert forall|i: int| 0 <= i < BUFFER_POOL_SIZE implies #[trigger] after.pins[i]
        == before.pins[i] && (before.pinned(i) ==> after.slots[i] == before.slots[i]) by {
        assert(mid.pins[i] == before.pins[i]);
    }
}

/// What holds of a pool that is the same as another.
pub proof fn lemma_same_as(after: &BufferPool, before: &BufferPool)
    requires
        after.same_as(before),
        after.wf(),
        before.wf(),
    ensures
        after.pages() == before.pages(),
        before.none_pinned() ==> after.none_pinned(),
        forall|a: PageAddr| #[trigger] before.present(a) ==> after.present(a),
        forall|a: PageAddr| #[trigger] after.page(a) == before.page(a),
{
    reveal(BufferPool::same_as);
    lemma_same_pages(after, before);
    if before.none_pinned() {
        assert forall|i: int| 0 <= i < BUFFER_POOL_SIZE implies !#[trigger] after.pinned(i) by {
            assert(after.pins[i] == before.pins[i]);
            assert(!before.pinned(i));
        }
    }
}

/// Taking a read pin and giving it back leaves the pool the same.
pub proof fn lemma_read_cycle(
    after: &BufferPool,
    mid: &BufferPool,
    before: &BufferPool,
    slot: int,
)
    requires
        before.wf(),
        mid.wf(),
        after.wf(),
        0 <= slot < BUFFER_POOL_SIZE,
        mid.keeps_pages_of(before),
        mid.keeps_pins_of(before, slot),
        mid.pins[slot] == PinState::Read((before.readers(slot) + 1) as usize),
        before.readers(slot) < usize::MAX,
        before.pins[slot] != PinState::Read(0),
        !(before.pins[slot] is Write),
        before.pinned(slot) ==> mid.slots[slot] == before.slots[slot],
        after.keeps_pages_of(mid),
        after.slots == mid.slots,
        after.keeps_pins_of(mid, slot),
        after.pins[slot] == (match mid.pins[slot] {
            PinState::Read(n) => if n == 1 {
                PinState::Unpinned
            } else {
                PinState::Read((n - 1) as usize)
            },
            other => other,
        }),
    ensures
        after.same_as(before),
{
    reveal(BufferPool::same_as);
    assert forall|a: PageAddr| #[trigger] after.page(a) == before.page(a) by {
        assert(mid.page(a) == before.page(a));
    }
    assert forall|a: PageAddr| #[trigger] before.on_disk(a) implies after.on_disk(a) by {
        assert(mid.on_disk(a));
    }
    assert forall|a: PageAddr| #[trigger] before.present(a) implies after.present(a) by {
        assert(mid.present(a));
    }
    assert forall|i: int| 0 <= i < BUFFER_POOL_SIZE implies #[trigger] after.pins[i]
        == before.pins[i] && (before.pinned(i) ==> after.slots[i] == before.slots[i]) by {
        assert(mid.pins[i] == before.pins[i] || i == slot);
    }
}

/// At most one slot caches a page: two slots that cache the page whose
/// address they hold do not hold the same address.
pub proof fn lemma_one_slot_per_page(pool: &BufferPool, i: int, j: int)
    requires
        pool.wf(),
        0 <= i < BUFFER_POOL_SIZE,
        0 <= j < BUFFER_POOL_SIZE,
        pool.caches(i),
        pool.caches(j),
        pool.slots[i].page_address == pool.slots[j].page_address,
    ensures
        i == j,
{
}

/// What was written under a write pin is what a later pin of the page
/// hands out, whatever was pinned, evicted and written back in between:
/// where the page held `data` when its write pin was given back, and every
/// step since kept the pages, the page holds `data`.
pub proof fn lemma_written_page_stays(
    written: &BufferPool,
    later: &BufferPool,
    addr: PageAddr,
    data: Seq<u8>,
)
    requires
        written.page(addr) == data,
        later.keeps_pages_of(written),
    ensures
        later.page(addr) == data,
{
}

} // verus!
