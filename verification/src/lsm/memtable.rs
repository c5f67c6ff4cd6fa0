//! The in-memory table: the entries written since the last flush, kept in
//! their order, and the counter that hands out sequence numbers.

use crate::bytes::{
    bytes_lt, lemma_bytes_lt_asymmetric, lemma_bytes_lt_irreflexive, lemma_bytes_lt_le_transitive,
    lemma_bytes_lt_total, lemma_bytes_lt_transitive, ByteOrder,
};
use crate::lsm::sstable::{
    entries_sorted, lemma_matching_add, lemma_matching_all, lemma_matching_none,
    lemma_matching_range, matching,
};
use crate::lsm::types::{
    entry_lt, entry_views, lemma_entry_lt_asymmetric, lemma_entry_lt_total,
    lemma_entry_lt_transitive, lemma_entry_views_push, Entry, EntryView, Key, SeqNum, Value,
};
use vstd::prelude::*;

verus! {

/// What one entry is counted as in the table's size, on top of its key and
/// its value: the sequence number and an allowance for the bookkeeping.
pub const ENTRY_OVERHEAD: usize = 24;

/// Where an entry goes among entries that stand in their order: behind
/// those that come before it.
pub open spec fn position(entries: Seq<EntryView>, e: EntryView) -> int {
    choose|i: int|
        0 <= i <= entries.len() && (forall|j: int| 0 <= j < i ==> entry_lt(#[trigger] entries[j], e))
            && (i < entries.len() ==> !entry_lt(entries[i], e))
}

/// Whether the entry at `i` has the key and the sequence number of `e`.
pub open spec fn same_version(entries: Seq<EntryView>, i: int, e: EntryView) -> bool {
    0 <= i < entries.len() && entries[i].key == e.key && entries[i].seq_num == e.seq_num
}

/// The entries with `e` put in: `e` goes to its place in the order, and
/// takes the place of an entry with its key and sequence number where there
/// is one.
pub open spec fn with_entry(entries: Seq<EntryView>, e: EntryView) -> Seq<EntryView> {
    let i = position(entries, e);
    if same_version(entries, i, e) {
        entries.update(i, e)
    } else {
        entries.insert(i, e)
    }
}

/// The newest version of a key among entries that stand in their order:
/// its value, `None` in it for a tombstone; `None` where the key has no
/// entry.
pub open spec fn newest(entries: Seq<EntryView>, key: Seq<u8>) -> Option<Option<Seq<u8>>> {
    if matching(entries, key).len() == 0 {
        None
    } else {
        Some(matching(entries, key)[0].value)
    }
}

/// Whether every sequence number among the entries is below `bound`.
pub open spec fn seqs_below(entries: Seq<EntryView>, bound: u64) -> bool {
    forall|i: int| 0 <= i < entries.len() ==> (#[trigger] entries[i]).seq_num < bound
}

/// The place of an entry is the one index that has the smaller entries
/// before it and none of them at it.
pub proof fn lemma_position(entries: Seq<EntryView>, e: EntryView, i: int)
    requires
        0 <= i <= entries.len(),
        forall|j: int| 0 <= j < i ==> entry_lt(#[trigger] entries[j], e),
        i < entries.len() ==> !entry_lt(entries[i], e),
    ensures
        position(entries, e) == i,
{
    let p = position(entries, e);
    if p < i {
        assert(entry_lt(entries[p], e));
    }
    if i < p {
        assert(entry_lt(entries[i], e));
    }
}

/// Putting an entry in keeps the order.
pub proof fn lemma_with_entry_sorted(entries: Seq<EntryView>, e: EntryView, i: int)
    requires
        entries_sorted(entries),
        0 <= i <= entries.len(),
        forall|j: int| 0 <= j < i ==> entry_lt(#[trigger] entries[j], e),
        i < entries.len() ==> !entry_lt(entries[i], e),
    ensures
        entries_sorted(with_entry(entries, e)),
        with_entry(entries, e).len() == (if same_version(entries, i, e) {
            entries.len()
        } else {
            entries.len() + 1
        }),
{
    lemma_position(entries, e, i);
    let after = with_entry(entries, e);
    assert forall|a: int, b: int| 0 <= a < b < after.len() implies entry_lt(
        #[trigger] after[a],
        #[trigger] after[b],
    ) by {
        if same_version(entries, i, e) {
            assert(entry_lt(entries[a], entries[b]));
        } else {
            let x = if a < i {
                a
            } else {
                a - 1
            };
            let y = if b < i {
                b
            } else {
                b - 1
            };
            if a == i {
                // e before entries[y], y >= i
                lemma_entry_lt_total(entries[i], e);
                if y > i {
                    assert(entry_lt(entries[i], entries[y]));
                    lemma_entry_lt_transitive(e, entries[i], entries[y]);
                }
            } else if b == i {
                assert(entry_lt(entries[a], e));
            } else {
                assert(entry_lt(entries[x], entries[y]));
            }
        }
    }
}

/// The first entry with a key is the first of the entries with that key.
pub proof fn lemma_first_match(entries: Seq<EntryView>, key: Seq<u8>, i: int)
    requires
        0 <= i < entries.len(),
        entries[i].key == key,
        forall|j: int| 0 <= j < i ==> (#[trigger] entries[j]).key != key,
    ensures
        matching(entries, key).len() > 0,
        matching(entries, key)[0] == entries[i],
    decreases entries.len(),
{
    let rest = entries.drop_last();
    if entries.len() - 1 == i {
        lemma_matching_none(rest, key);
    } else {
        lemma_first_match(rest, key, i);
    }
}

/// What the entries with a key are once an entry was put in that is newer
/// than every entry: for the entry's key it stands before those that were
/// there, and the other keys have what they had.
pub proof fn lemma_with_newest(entries: Seq<EntryView>, e: EntryView, key: Seq<u8>)
    requires
        entries_sorted(entries),
        seqs_below(entries, e.seq_num),
    ensures
        matching(with_entry(entries, e), key) == (if key == e.key {
            seq![e] + matching(entries, key)
        } else {
            matching(entries, key)
        }),
        with_entry(entries, e).len() == entries.len() + 1,
{
    let i = position(entries, e);
    lemma_position_exists(entries, e);
    assert(!same_version(entries, i, e));
    let head = entries.take(i);
    let tail = entries.skip(i);
    let one = seq![e];
    assert(with_entry(entries, e) =~= head + one + tail);
    assert(entries =~= head + tail);
    lemma_matching_add(head + one, tail, key);
    lemma_matching_add(head, one, key);
    lemma_matching_add(head, tail, key);
    assert(one.drop_last() =~= Seq::<EntryView>::empty());
    assert(one.last() == e);
    assert(matching(one.drop_last(), key) =~= Seq::<EntryView>::empty());
    assert(Seq::<EntryView>::empty().push(e) =~= one);
    assert(matching(one, key) =~= (if key == e.key {
        one
    } else {
        Seq::<EntryView>::empty()
    }));
    if key == e.key {
        assert forall|j: int| 0 <= j < head.len() implies (#[trigger] head[j]).key != key by {
            assert(entry_lt(entries[j], e));
            assert(entries[j].seq_num < e.seq_num);
            lemma_bytes_lt_irreflexive(key);
        }
        lemma_matching_none(head, key);
        assert(Seq::<EntryView>::empty() + one + matching(tail, key) =~= one + (Seq::<
            EntryView,
        >::empty() + matching(tail, key)));
    } else {
        assert(matching(head, key) + Seq::<EntryView>::empty() + matching(tail, key)
            =~= matching(head, key) + matching(tail, key));
    }
}

/// Among entries that stand in their order every entry has a place.
pub proof fn lemma_position_exists(entries: Seq<EntryView>, e: EntryView)
    requires
        entries_sorted(entries),
    ensures
        0 <= position(entries, e) <= entries.len(),
        forall|j: int| 0 <= j < position(entries, e) ==> entry_lt(#[trigger] entries[j], e),
        position(entries, e) < entries.len() ==> !entry_lt(entries[position(entries, e)], e),
{
    let i = lemma_find_position(entries, e, entries.len() as int);
    lemma_position(entries, e, i);
}

proof fn lemma_find_position(entries: Seq<EntryView>, e: EntryView, n: int) -> (i: int)
    requires
        entries_sorted(entries),
        0 <= n <= entries.len(),
        n < entries.len() ==> !entry_lt(entries[n], e),
    ensures
        0 <= i <= n,
        forall|j: int| 0 <= j < i ==> entry_lt(#[trigger] entries[j], e),
        i < entries.len() ==> !entry_lt(entries[i], e),
    decreases n,
{
    if n == 0 {
        0
    } else if entry_lt(entries[n - 1], e) {
        assert forall|j: int| 0 <= j < n implies entry_lt(#[trigger] entries[j], e) by {
            if j < n - 1 {
                assert(entry_lt(entries[j], entries[n - 1]));
                lemma_entry_lt_transitive(entries[j], entries[n - 1], e);
            }
        }
        n
    } else {
        lemma_find_position(entries, e, n - 1)
    }
}

/// The in-memory table.
pub struct MemTable {
    /// The entries, in their order.
    pub entries: Vec<Entry>,
    /// A rough count of the bytes the entries take.
    pub size_bytes: usize,
    /// The sequence number that the next write gets.
    pub next_seq_num: u64,
}

impl View for MemTable {
    type V = Seq<EntryView>;

    open spec fn view(&self) -> Seq<EntryView> {
        entry_views(self.entries@)
    }
}

impl MemTable {
    /// The table's invariant: the entries stand in their order, so that no
    /// two have the same key and sequence number.
    pub open spec fn wf(&self) -> bool {
        entries_sorted(self@)
    }

    /// An empty table whose first sequence number is 1.
    pub fn new() -> (table: Self)
        ensures
            table.wf(),
            table@.len() == 0,
            table.size_bytes == 0,
            table.next_seq_num == 1,
    {
        MemTable { entries: Vec::new(), size_bytes: 0, next_seq_num: 1 }
    }

    /// An empty table whose first sequence number is `start_seq_num`.
    pub fn with_seq_num(start_seq_num: SeqNum) -> (table: Self)
        ensures
            table.wf(),
            table@.len() == 0,
            table.size_bytes == 0,
            table.next_seq_num == start_seq_num,
    {
        MemTable { entries: Vec::new(), size_bytes: 0, next_seq_num: start_seq_num }
    }

    /// Hands out the next sequence number and moves the counter on by one.
    /// The largest number is never handed out: no counter could follow it.
    fn alloc_seq_num(&mut self) -> (seq_num: SeqNum)
        requires
            old(self).next_seq_num < u64::MAX,
        ensures
            seq_num == old(self).next_seq_num,
            final(self).next_seq_num == old(self).next_seq_num + 1,
            final(self).entries == old(self).entries,
            final(self).size_bytes == old(self).size_bytes,
    {
        let seq_num = self.next_seq_num;
        self.next_seq_num = seq_num + 1;
        seq_num
    }

    /// The sequence number that the next write gets.
    pub fn current_seq_num(&self) -> (seq_num: SeqNum)
        ensures
            seq_num == self.next_seq_num,
    {
        self.next_seq_num
    }

    /// Writes `value` under `key` with the next sequence number, which is
    /// returned. The counter must not stand at the largest number: no
    /// number could follow the one handed out.
    pub fn put(&mut self, key: Key, value: Value) -> (seq_num: SeqNum)
        requires
            old(self).wf(),
            old(self).next_seq_num < u64::MAX,
        ensures
            final(self).wf(),
            seq_num == old(self).next_seq_num,
            final(self).next_seq_num == seq_num + 1,
            final(self)@ == with_entry(
                old(self)@,
                EntryView { key: key@, seq_num, value: Some(value@) },
            ),
            final(self).size_bytes == Self::grown(
                old(self).size_bytes,
                (key@.len() + value@.len()) as int,
            ),
    {
        let seq_num = self.alloc_seq_num();
        self.put_with_seq(key, value, seq_num);
        seq_num
    }

    /// The size after an entry with `payload` bytes of key and value was
    /// counted in.
    pub open spec fn grown(size: usize, payload: int) -> usize {
        if size + payload + ENTRY_OVERHEAD > usize::MAX {
            usize::MAX
        } else {
            (size + payload + ENTRY_OVERHEAD) as usize
        }
    }

    /// Puts `entry` at its place.
    fn insert_entry(&mut self, entry: Entry)
        requires
            old(self).wf(),
        ensures
            final(self).wf(),
            final(self)@ == with_entry(old(self)@, entry@),
            final(self).next_seq_num == old(self).next_seq_num,
            final(self).size_bytes == old(self).size_bytes,
    {
        let ghost view = self@;
        let ghost e = entry@;
        let mut i: usize = 0;
        let mut replace: bool = false;
        while i < self.entries.len()
            invariant_except_break
                !replace,
            invariant
                i <= self.entries.len(),
                self@ == view,
                view == old(self)@,
                self.entries == old(self).entries,
                self.next_seq_num == old(self).next_seq_num,
                self.size_bytes == old(self).size_bytes,
                e == entry@,
                forall|j: int| 0 <= j < i ==> entry_lt(#[trigger] view[j], e),
            ensures
                i <= self.entries.len(),
                i < self.entries.len() ==> !entry_lt(view[i as int], e),
                replace == same_version(view, i as int, e),
            decreases self.entries.len() - i,
        {
            assert(view[i as int] == self.entries[i as int]@);
            match self.entries[i].compare(&entry) {
                ByteOrder::Less => {
                    i += 1;
                },
                ByteOrder::Equal => {
                    proof {
                        lemma_entry_lt_total(view[i as int], e);
                        if entry_lt(view[i as int], e) {
                            lemma_entry_lt_asymmetric(view[i as int], e);
                        }
                    }
                    replace = true;
                    break ;
                },
                ByteOrder::Greater => {
                    proof {
                        lemma_entry_lt_asymmetric(e, view[i as int]);
                    }
                    break ;
                },
            }
        }
        proof {
            lemma_position(view, e, i as int);
            lemma_with_entry_sorted(view, e, i as int);
        }
        if replace {
            self.entries.set(i, entry);
            assert(self@ =~= view.update(i as int, e));
        } else {
            self.entries.insert(i, entry);
            assert(self@ =~= view.insert(i as int, e));
        }
    }

    /// Counts an entry with `payload` bytes of key and value into the size.
    fn grow(&mut self, payload: usize, more: usize)
        ensures
            final(self).size_bytes == Self::grown(old(self).size_bytes, payload + more),
            final(self).entries == old(self).entries,
            final(self).next_seq_num == old(self).next_seq_num,
    {
        let entry_size = payload.saturating_add(more).saturating_add(ENTRY_OVERHEAD);
        self.size_bytes = self.size_bytes.saturating_add(entry_size);
    }

    /// Writes `value` under `key` with sequence number `seq_num`, in place
    /// of what was written under that key with that number. The counter of
    /// sequence numbers stays as it is.
    pub fn put_with_seq(&mut self, key: Key, value: Value, seq_num: SeqNum)
        requires
            old(self).wf(),
        ensures
            final(self).wf(),
            final(self).next_seq_num == old(self).next_seq_num,
            final(self)@ == with_entry(
                old(self)@,
                EntryView { key: key@, seq_num, value: Some(value@) },
            ),
            final(self).size_bytes == Self::grown(
                old(self).size_bytes,
                (key@.len() + value@.len()) as int,
            ),
    {
        self.grow(key.len(), value.len());
        self.insert_entry(Entry::put(key, seq_num, value));
    }

    /// Deletes `key` with the next sequence number, which is returned: a
    /// tombstone is written. The counter must not stand at the largest
    /// number.
    pub fn delete(&mut self, key: Key) -> (seq_num: SeqNum)
        requires
            old(self).wf(),
            old(self).next_seq_num < u64::MAX,
        ensures
            final(self).wf(),
            seq_num == old(self).next_seq_num,
            final(self).next_seq_num == seq_num + 1,
            final(self)@ == with_entry(old(self)@, EntryView { key: key@, seq_num, value: None }),
            final(self).size_bytes == Self::grown(old(self).size_bytes, key@.len() as int),
    {
        let seq_num = self.alloc_seq_num();
        self.delete_with_seq(key, seq_num);
        seq_num
    }

    /// Deletes `key` with sequence number `seq_num`. The counter of
    /// sequence numbers stays as it is.
    pub fn delete_with_seq(&mut self, key: Key, seq_num: SeqNum)
        requires
            old(self).wf(),
        ensures
            final(self).wf(),
            final(self).next_seq_num == old(self).next_seq_num,
            final(self)@ == with_entry(old(self)@, EntryView { key: key@, seq_num, value: None }),
            final(self).size_bytes == Self::grown(old(self).size_bytes, key@.len() as int),
    {
        self.grow(key.len(), 0);
        self.insert_entry(Entry::delete(key, seq_num));
    }

    /// The index of the first entry with key `key`, or of the first entry
    /// with a greater key, or the number of entries.
    fn lower_bound(&self, key: &Key) -> (i: usize)
        requires
            self.wf(),
        ensures
            i <= self@.len(),
            forall|j: int| 0 <= j < i ==> bytes_lt((#[trigger] self@[j]).key, key@),
            i < self@.len() ==> !bytes_lt(self@[i as int].key, key@),
    {
        let mut i: usize = 0;
        while i < self.entries.len()
            invariant
                i <= self.entries.len(),
                forall|j: int| 0 <= j < i ==> bytes_lt((#[trigger] self@[j]).key, key@),
            ensures
                i <= self.entries.len(),
                forall|j: int| 0 <= j < i ==> bytes_lt((#[trigger] self@[j]).key, key@),
                i < self@.len() ==> !bytes_lt(self@[i as int].key, key@),
            decreases self.entries.len() - i,
        {
            assert(self@[i as int] == self.entries[i as int]@);
            match self.entries[i].key.compare(key) {
                ByteOrder::Less => {
                    i += 1;
                },
                _ => {
                    break ;
                },
            }
        }
        i
    }

    /// The newest version of `key`: its value, `None` in it for a
    /// tombstone; `None` where the key has no entry.
    pub fn get(&self, key: &Key) -> (found: Option<Option<&Value>>)
        requires
            self.wf(),
        ensures
            match found {
                Some(Some(value)) => newest(self@, key@) == Some(Some(value@)),
                Some(None) => newest(self@, key@) == Some(None::<Seq<u8>>),
                None => newest(self@, key@) is None,
            },
    {
        let i = self.lower_bound(key);
        if i < self.entries.len() {
            assert(self@[i as int] == self.entries[i as int]@);
            if self.entries[i].key.same_as(key) {
                proof {
                    assert forall|j: int| 0 <= j < i implies (#[trigger] self@[j]).key != key@ by {
                        lemma_bytes_lt_irreflexive(key@);
                    }
                    lemma_first_match(self@, key@, i as int);
                }
                return Some(self.entries[i].value.as_ref());
            }
        }
        proof {
            self.lemma_absent(key@, i as int);
        }
        None
    }

    /// No entry has the key where the entry at the key's lower bound does
    /// not have it.
    proof fn lemma_absent(&self, key: Seq<u8>, i: int)
        requires
            self.wf(),
            0 <= i <= self@.len(),
            forall|j: int| 0 <= j < i ==> bytes_lt((#[trigger] self@[j]).key, key),
            i < self@.len() ==> !bytes_lt(self@[i].key, key) && self@[i].key != key,
        ensures
            matching(self@, key) == Seq::<EntryView>::empty(),
    {
        let s = self@;
        assert forall|j: int| 0 <= j < s.len() implies (#[trigger] s[j]).key != key by {
            lemma_bytes_lt_irreflexive(key);
            if j >= i {
                lemma_bytes_lt_total(s[i].key, key);
                assert(bytes_lt(key, s[i].key));
                if j > i {
                    assert(entry_lt(s[i], s[j]));
                    lemma_bytes_lt_le_transitive(key, s[i].key, s[j].key);
                }
            }
        }
        lemma_matching_none(s, key);
    }

    /// Every version of `key`, from the newest to the oldest: its sequence
    /// number and its value, `None` for a tombstone.
    pub fn get_all(&self, key: &Key) -> (found: Vec<(SeqNum, Option<&Value>)>)
        requires
            self.wf(),
        ensures
            found@.len() == matching(self@, key@).len(),
            forall|k: int|
                0 <= k < found@.len() ==> (#[trigger] found@[k]).0 == matching(
                    self@,
                    key@,
                )[k].seq_num && match found@[k].1 {
                    Some(value) => matching(self@, key@)[k].value == Some(value@),
                    None => matching(self@, key@)[k].value is None,
                },
    {
        let start = self.lower_bound(key);
        let mut found: Vec<(SeqNum, Option<&Value>)> = Vec::new();
        let mut i: usize = start;
        let ghost s = self@;
        while i < self.entries.len()
            invariant
                self.wf(),
                s == self@,
                start <= i <= self.entries.len(),
                forall|j: int| 0 <= j < start ==> bytes_lt((#[trigger] s[j]).key, key@),
                forall|j: int| start <= j < i ==> (#[trigger] s[j]).key == key@,
                found@.len() == i - start,
                forall|k: int|
                    0 <= k < found@.len() ==> (#[trigger] found@[k]).0 == s[start + k].seq_num
                        && match found@[k].1 {
                        Some(value) => s[start + k].value == Some(value@),
                        None => s[start + k].value is None,
                    },
            ensures
                start <= i <= self.entries.len(),
                forall|j: int| start <= j < i ==> (#[trigger] s[j]).key == key@,
                i < s.len() ==> s[i as int].key != key@,
                found@.len() == i - start,
                forall|k: int|
                    0 <= k < found@.len() ==> (#[trigger] found@[k]).0 == s[start + k].seq_num
                        && match found@[k].1 {
                        Some(value) => s[start + k].value == Some(value@),
                        None => s[start + k].value is None,
                    },
            decreases self.entries.len() - i,
        {
            assert(s[i as int] == self.entries[i as int]@);
            if !self.entries[i].key.same_as(key) {
                break ;
            }
            found.push((self.entries[i].seq_num, self.entries[i].value.as_ref()));
            i += 1;
        }
        proof {
            assert forall|j: int| 0 <= j < start implies (#[trigger] s[j]).key != key@ by {
                lemma_bytes_lt_irreflexive(key@);
            }
            assert forall|j: int| i <= j < s.len() implies (#[trigger] s[j]).key != key@ by {
                lemma_bytes_lt_irreflexive(key@);
                if start < i {
                    // the key's entries end before `i`
                    assert(entry_lt(s[start as int], s[i as int]));
                    lemma_bytes_lt_total(key@, s[i as int].key);
                    if j > i {
                        assert(entry_lt(s[i as int], s[j]));
                        lemma_bytes_lt_le_transitive(key@, s[i as int].key, s[j].key);
                    }
                } else {
                    lemma_bytes_lt_total(key@, s[i as int].key);
                    if j > i {
                        assert(entry_lt(s[i as int], s[j]));
                        lemma_bytes_lt_le_transitive(key@, s[i as int].key, s[j].key);
                    }
                }
            }
            lemma_matching_range(s, key@, start as int, i as int);
        }
        found
    }

    /// Every entry, in order.
    pub fn iter(&self) -> (all: Vec<Entry>)
        ensures
            entry_views(all@) == self@,
    {
        let mut all: Vec<Entry> = Vec::new();
        let mut i: usize = 0;
        while i < self.entries.len()
            invariant
                i <= self.entries.len(),
                entry_views(all@) == self@.take(i as int),
            decreases self.entries.len() - i,
        {
            let entry = self.entries[i].clone();
            proof {
                lemma_entry_views_push(all@, entry);
                assert(self@.take(i as int + 1) =~= self@.take(i as int).push(self@[i as int]));
            }
            all.push(entry);
            i += 1;
        }
        assert(self@.take(i as int) =~= self@);
        all
    }

    /// Number of entries.
    pub fn len(&self) -> (len: usize)
        ensures
            len == self@.len(),
    {
        self.entries.len()
    }

    /// Whether the table has no entry.
    pub fn is_empty(&self) -> (empty: bool)
        ensures
            empty == (self@.len() == 0),
    {
        self.entries.len() == 0
    }

    /// A rough count of the bytes the entries take.
    pub fn size_bytes(&self) -> (size: usize)
        ensures
            size == self.size_bytes,
    {
        self.size_bytes
    }

    /// Drops every entry. The counter of sequence numbers stays as it is.
    pub fn clear(&mut self)
        ensures
            final(self).wf(),
            final(self)@.len() == 0,
            final(self).size_bytes == 0,
            final(self).next_seq_num == old(self).next_seq_num,
    {
        self.entries.clear();
        self.size_bytes = 0;
    }
}

impl Default for MemTable {
    fn default() -> (table: Self)
        ensures
            table.wf(),
            table@.len() == 0,
            table.size_bytes == 0,
            table.next_seq_num == 1,
    {
        Self::new()
    }
}

} // verus!
