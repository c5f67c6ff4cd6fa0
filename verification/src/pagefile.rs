//! Paged files: files cut into pages of `PAGE_SIZE` bytes, held as images in
//! memory. The embedding program loads the images from disk and stores them
//! back.

use crate::bufferpool::PageAddr;
use crate::bytes::zero_bytes;
use crate::constants::PAGE_SIZE;
use crate::error::StoreError;
use crate::slotmap::{file_index_get, file_index_insert, file_index_new, file_places, FileIndex};
use vstd::prelude::*;
use vstd::slice::slice_to_vec;

verus! {

/// A page of zero bytes: what a page reads as before it is first written.
pub open spec fn zero_page() -> Seq<u8> {
    Seq::new(PAGE_SIZE as nat, |i: int| 0u8)
}

/// The largest page number a file can hold: the page's last byte still has
/// a 64-bit offset, and the page count fits in memory.
pub open spec fn page_id_valid(page_id: u64) -> bool {
    page_id < usize::MAX && page_id < 0x000f_ffff_ffff_ffff
}

/// One paged file: its pages, in order.
pub struct PageFile {
    pub pages: Vec<Vec<u8>>,
}

impl PageFile {
    /// Every page has the page size.
    pub open spec fn wf(&self) -> bool {
        forall|i: int| 0 <= i < self.pages.len() ==> (#[trigger] self.pages[i]).len() == PAGE_SIZE
    }

    /// Whether the file reaches as far as page `page_id`.
    pub open spec fn has_page(&self, page_id: u64) -> bool {
        page_id < self.pages.len()
    }

    /// What page `page_id` reads as: zeros beyond the end of the file.
    pub open spec fn page(&self, page_id: u64) -> Seq<u8> {
        if self.has_page(page_id) {
            self.pages[page_id as int]@
        } else {
            zero_page()
        }
    }

    /// An empty file.
    pub fn new() -> (file: Self)
        ensures
            file.wf(),
            file.pages.len() == 0,
    {
        PageFile { pages: Vec::new() }
    }

    /// Number of pages in the file.
    pub fn page_count(&self) -> (count: usize)
        ensures
            count == self.pages.len(),
    {
        self.pages.len()
    }

    /// Reads page `page_id` into `buffer`. A page beyond the end of the file
    /// reads as zeros where `create` is set, and is an error where not.
    pub fn read_page(&self, page_id: u64, buffer: &mut Vec<u8>, create: bool) -> (res: Result<
        (),
        StoreError,
    >)
        requires
            self.wf(),
        ensures
            self.has_page(page_id) || create ==> res is Ok && final(buffer)@ == self.page(page_id),
            !self.has_page(page_id) && !create ==> res == Err::<(), StoreError>(StoreError::Io)
                && final(buffer)@ == old(buffer)@,
    {
        if page_id < self.pages.len() as u64 {
            let page = slice_to_vec(self.pages[page_id as usize].as_slice());
            *buffer = page;
            Ok(())
        } else if create {
            let page = zero_bytes(PAGE_SIZE);
            *buffer = page;
            Ok(())
        } else {
            Err(StoreError::Io)
        }
    }

    /// Writes `buffer` as page `page_id`, growing the file with zero pages
    /// up to it where needed.
    pub fn write_page(&mut self, page_id: u64, buffer: &[u8]) -> (res: Result<(), StoreError>)
        requires
            old(self).wf(),
            buffer.len() == PAGE_SIZE,
            page_id_valid(page_id),
        ensures
            res is Ok,
            final(self).wf(),
            final(self).has_page(page_id),
            final(self).page(page_id) == buffer@,
            forall|p: u64| old(self).has_page(p) ==> final(self).has_page(p),
            forall|p: u64| p != page_id ==> final(self).page(p) == old(self).page(p),
            forall|p: u64| final(self).has_page(p) ==> old(self).has_page(p) || p <= page_id,
    {
        let index: usize = page_id as usize;
        while self.pages.len() <= index
            invariant
                self.wf(),
                index == page_id,
                index < usize::MAX,
                old(self).pages.len() <= self.pages.len(),
                self.pages.len() <= old(self).pages.len() || self.pages.len() <= index + 1,
                forall|i: int| 0 <= i < old(self).pages.len() ==> self.pages[i] == old(self).pages[i],
                forall|i: int|
                    old(self).pages.len() <= i < self.pages.len() ==> (#[trigger] self.pages[i])@
                        == zero_page(),
            decreases index + 1 - self.pages.len(),
        {
            let page = zero_bytes(PAGE_SIZE);
            self.pages.push(page);
        }
        let page = slice_to_vec(buffer);
        self.pages.set(index, page);
        proof {
            assert forall|p: u64| p != page_id implies final(self).page(p) == old(self).page(p) by {
                if p < self.pages.len() && p >= old(self).pages.len() {
                    assert(self.pages[p as int]@ == zero_page());
                }
            }
        }
        Ok(())
    }
}

/// The paged files that are open, each under its file id.
pub struct PageFiles {
    /// The ids of the files, in the order in which they were opened.
    pub file_ids: Vec<u64>,
    /// The files, each at the place of its id.
    pub files: Vec<PageFile>,
    /// The place of each file, by its id.
    pub index: FileIndex,
}

impl PageFiles {
    /// One file per id, each well formed; the index holds the place of
    /// each id, and nothing else.
    pub open spec fn wf(&self) -> bool {
        &&& self.file_ids.len() == self.files.len()
        &&& forall|i: int, j: int|
            0 <= i < j < self.file_ids.len() ==> self.file_ids[i] != self.file_ids[j]
        &&& forall|i: int| 0 <= i < self.files.len() ==> (#[trigger] self.files[i]).wf()
        &&& forall|i: int|
            0 <= i < self.file_ids.len() ==> file_places(self.index).contains_key(
                #[trigger] self.file_ids[i],
            ) && file_places(self.index)[self.file_ids[i]] == i
        &&& forall|id: u64| #[trigger]
            file_places(self.index).contains_key(id) ==> file_places(self.index)[id]
                < self.file_ids.len() && self.file_ids[file_places(self.index)[id] as int] == id
    }

    /// Whether a file is open under this id.
    pub open spec fn has_file(&self, file_id: u64) -> bool {
        exists|i: int| 0 <= i < self.file_ids.len() && self.file_ids[i] == file_id
    }

    /// Where the file with this id stands.
    pub open spec fn position(&self, file_id: u64) -> int {
        choose|i: int| 0 <= i < self.file_ids.len() && self.file_ids[i] == file_id
    }

    /// Whether the page is part of a file that is open.
    pub open spec fn has_page(&self, addr: PageAddr) -> bool {
        self.has_file(addr.file_id) && self.files[self.position(addr.file_id)].has_page(
            addr.page_id,
        )
    }

    /// What the page reads as: zeros where no file holds it.
    pub open spec fn page(&self, addr: PageAddr) -> Seq<u8> {
        if self.has_page(addr) {
            self.files[self.position(addr.file_id)].page(addr.page_id)
        } else {
            zero_page()
        }
    }

    /// No file is open.
    pub fn new() -> (files: Self)
        ensures
            files.wf(),
            forall|addr: PageAddr| !files.has_page(addr),
            forall|file_id: u64| !files.has_file(file_id),
    {
        PageFiles { file_ids: Vec::new(), files: Vec::new(), index: file_index_new() }
    }

    /// The position of the file with this id, if it is open.
    pub fn find(&self, file_id: u64) -> (found: Option<usize>)
        requires
            self.wf(),
        ensures
            match found {
                Some(i) => self.has_file(file_id) && i == self.position(file_id) && i
                    < self.files.len(),
                None => !self.has_file(file_id),
            },
    {
        match file_index_get(&self.index, file_id) {
            Some(i) => {
                assert(self.file_ids[i as int] == file_id);
                Some(i)
            },
            None => {
                assert forall|j: int| 0 <= j < self.file_ids.len() implies self.file_ids[j]
                    != file_id by {
                    assert(file_places(self.index).contains_key(self.file_ids[j]));
                }
                None
            },
        }
    }

    /// The open file with this id.
    pub fn file(&self, file_id: u64) -> (found: Option<&PageFile>)
        requires
            self.wf(),
        ensures
            match found {
                Some(f) => self.has_file(file_id) && *f == self.files[self.position(file_id)],
                None => !self.has_file(file_id),
            },
    {
        match self.find(file_id) {
            Some(i) => Some(&self.files[i]),
            None => None,
        }
    }

    /// The ids of the open files, in the order in which they were opened.
    pub fn ids(&self) -> (ids: &Vec<u64>)
        ensures
            ids@ == self.file_ids@,
    {
        &self.file_ids
    }

    /// Opens `file` under `file_id`, unless a file is open under that id.
    pub fn insert(&mut self, file_id: u64, file: PageFile) -> (res: Result<(), StoreError>)
        requires
            old(self).wf(),
            file.wf(),
        ensures
            final(self).wf(),
            old(self).has_file(file_id) ==> res == Err::<(), StoreError>(
                StoreError::InvalidArgument,
            ) && *final(self) == *old(self),
            !old(self).has_file(file_id) ==> res is Ok && final(self).has_file(file_id) && (forall|p: u64|
                final(self).page(PageAddr { file_id, page_id: p }) == file.page(p)) && (forall|p: u64|
                final(self).has_page(PageAddr { file_id, page_id: p }) == file.has_page(p)),
            forall|a: PageAddr|
                a.file_id != file_id ==> final(self).page(a) == old(self).page(a) && final(self).has_page(a) == old(self).has_page(a),
    {
        match self.find(file_id) {
            Some(_) => Err(StoreError::InvalidArgument),
            None => {
                let place = self.file_ids.len();
                self.file_ids.push(file_id);
                self.files.push(file);
                file_index_insert(&mut self.index, file_id, place);
                proof {
                    let n = old(self).file_ids.len() as int;
                    assert forall|i: int| 0 <= i < self.file_ids.len() implies file_places(
                        self.index,
                    ).contains_key(#[trigger] self.file_ids[i]) && file_places(
                        self.index,
                    )[self.file_ids[i]] == i by {
                        if i < n {
                            assert(self.file_ids[i] == old(self).file_ids[i]);
                        }
                    }
                    assert(self.file_ids[n] == file_id);
                    assert(self.position(file_id) == n);
                    assert forall|a: PageAddr| a.file_id != file_id implies final(self).page(a)
                        == old(self).page(a) && final(self).has_page(a) == old(self).has_page(a) by {
                        lemma_position_stable(old(self).file_ids@, self.file_ids@, a.file_id);
                    }
                }
                Ok(())
            },
        }
    }

    /// Reads a page into `buffer`. A page that no file holds reads as zeros
    /// where `create` is set, and is an error where not.
    pub fn read_page(&self, addr: PageAddr, buffer: &mut Vec<u8>, create: bool) -> (res: Result<
        (),
        StoreError,
    >)
        requires
            self.wf(),
        ensures
            self.has_page(addr) || create ==> res is Ok && final(buffer)@ == self.page(addr),
            !self.has_page(addr) && !create ==> res == Err::<(), StoreError>(StoreError::Io)
                && final(buffer)@ == old(buffer)@,
    {
        match self.find(addr.file_id) {
            Some(i) => self.files[i].read_page(addr.page_id, buffer, create),
            None => {
                if create {
                    let page = zero_bytes(PAGE_SIZE);
                    *buffer = page;
                    Ok(())
                } else {
                    Err(StoreError::Io)
                }
            },
        }
    }

    /// Writes `buffer` as the page at `addr`, opening an empty file first
    /// where none is open under the address's file id.
    pub fn write_page(&mut self, addr: PageAddr, buffer: &[u8]) -> (res: Result<(), StoreError>)
        requires
            old(self).wf(),
            buffer.len() == PAGE_SIZE,
            page_id_valid(addr.page_id),
        ensures
            res is Ok,
            final(self).wf(),
            final(self).has_page(addr),
            final(self).page(addr) == buffer@,
            forall|a: PageAddr| old(self).has_page(a) ==> final(self).has_page(a),
            forall|a: PageAddr| a != addr ==> final(self).page(a) == old(self).page(a),
            forall|a: PageAddr|
                a.file_id != addr.file_id ==> final(self).has_page(a) == old(self).has_page(a),
    {
        let pos: usize = match self.find(addr.file_id) {
            Some(i) => i,
            None => {
                let place = self.file_ids.len();
                self.file_ids.push(addr.file_id);
                self.files.push(PageFile::new());
                file_index_insert(&mut self.index, addr.file_id, place);
                proof {
                    let n = old(self).file_ids.len() as int;
                    assert forall|i: int| 0 <= i < self.file_ids.len() implies file_places(
                        self.index,
                    ).contains_key(#[trigger] self.file_ids[i]) && file_places(
                        self.index,
                    )[self.file_ids[i]] == i by {
                        if i < n {
                            assert(self.file_ids[i] == old(self).file_ids[i]);
                        }
                    }
                    assert(self.file_ids[n] == addr.file_id);
                    assert(self.position(addr.file_id) == n);
                    assert forall|a: PageAddr| a.file_id != addr.file_id implies self.page(a)
                        == old(self).page(a) && self.has_page(a) == old(self).has_page(a) by {
                        lemma_position_stable(old(self).file_ids@, self.file_ids@, a.file_id);
                    }
                }
                self.file_ids.len() - 1
            },
        };
        let ghost mid = *self;
        assert(forall|a: PageAddr| mid.page(a) == old(self).page(a));
        assert(forall|a: PageAddr| old(self).has_page(a) ==> mid.has_page(a));
        let file = &mut self.files[pos];
        let res = file.write_page(addr.page_id, buffer);
        proof {
            assert(self.file_ids == mid.file_ids);
            assert forall|a: PageAddr| a != addr implies final(self).page(a) == old(self).page(a) by {
                if a.file_id != addr.file_id && mid.has_file(a.file_id) {
                    assert(self.position(a.file_id) != pos);
                }
            }
            assert forall|a: PageAddr| a.file_id != addr.file_id implies final(self).has_page(a)
                == old(self).has_page(a) by {
                if mid.has_file(a.file_id) {
                    assert(self.position(a.file_id) != pos);
                }
            }
        }
        res
    }
}

/// A file keeps its position when another id is added behind it.
proof fn lemma_position_stable(before: Seq<u64>, after: Seq<u64>, file_id: u64)
    requires
        after.len() == before.len() + 1,
        forall|i: int| 0 <= i < before.len() ==> after[i] == before[i],
        after[before.len() as int] != file_id,
        forall|i: int, j: int| 0 <= i < j < after.len() ==> after[i] != after[j],
    ensures
        (exists|i: int| 0 <= i < before.len() && before[i] == file_id) == (exists|i: int|
            0 <= i < after.len() && after[i] == file_id),
        (exists|i: int| 0 <= i < before.len() && before[i] == file_id) ==> (choose|i: int|
            0 <= i < before.len() && before[i] == file_id) == (choose|i: int|
            0 <= i < after.len() && after[i] == file_id),
{
    if exists|i: int| 0 <= i < before.len() && before[i] == file_id {
        let i = choose|i: int| 0 <= i < before.len() && before[i] == file_id;
        assert(after[i] == file_id);
    }
    if exists|i: int| 0 <= i < after.len() && after[i] == file_id {
        let i = choose|i: int| 0 <= i < after.len() && after[i] == file_id;
        assert(before[i] == file_id);
    }
}

} // verus!
