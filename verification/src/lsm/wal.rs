//! The write-ahead log: one record for each write to the in-memory table,
//! appended in the order of the writes. A put is the byte 1, the sequence
//! number in eight bytes, the key behind its length in four bytes and the
//! value behind its length in four bytes; a delete is the byte 2, the
//! sequence number and the key behind its length. All numbers are
//! little-endian. The log is held as the bytes of its file; the embedding
//! program stores them.

use crate::bytes::{append_bytes, copy_range};
use crate::error::StoreError;
use crate::lsm::types::{entry_views, lemma_entry_views_push, Entry, EntryView, Key, SeqNum, Value};
use vstd::bytes::{
    lemma_auto_spec_u32_to_from_le_bytes, lemma_auto_spec_u64_to_from_le_bytes,
    spec_u32_from_le_bytes, spec_u32_to_le_bytes, spec_u64_from_le_bytes, spec_u64_to_le_bytes,
    u32_from_le_bytes, u32_to_le_bytes, u64_from_le_bytes, u64_to_le_bytes,
};
use vstd::prelude::*;
use vstd::slice::slice_subrange;

verus! {

/// The first byte of a put record.
pub const WAL_PUT: u8 = 1;

/// The first byte of a delete record.
pub const WAL_DELETE: u8 = 2;

/// The record of an entry.
pub open spec fn record_bytes(e: EntryView) -> Seq<u8> {
    let head = spec_u64_to_le_bytes(e.seq_num) + spec_u32_to_le_bytes(e.key.len() as u32) + e.key;
    match e.value {
        Some(v) => seq![WAL_PUT] + head + spec_u32_to_le_bytes(v.len() as u32) + v,
        None => seq![WAL_DELETE] + head,
    }
}

/// Whether an entry can be logged: the lengths of its key and of its value
/// fit in 32 bits.
pub open spec fn loggable(e: EntryView) -> bool {
    e.key.len() <= u32::MAX && (e.value matches Some(v) ==> v.len() <= u32::MAX)
}

/// The records of the entries, one after another.
pub open spec fn log_bytes(entries: Seq<EntryView>) -> Seq<u8>
    decreases entries.len(),
{
    if entries.len() == 0 {
        Seq::empty()
    } else {
        log_bytes(entries.drop_last()) + record_bytes(entries.last())
    }
}

/// What stands at the start of what is left of a log.
pub enum RecordParse {
    /// Nothing is left.
    End,
    /// The log ends within a record.
    Truncated,
    /// A record whose first byte is not that of a put or of a delete.
    Invalid,
    /// A record: its entry and its length.
    Record(EntryView, int),
}

/// Reads one record from the start of `data`. The first byte is looked at
/// once the sequence number and the key are there.
pub open spec fn parse_record(data: Seq<u8>) -> RecordParse {
    if data.len() == 0 {
        RecordParse::End
    } else if data.len() < 13 {
        RecordParse::Truncated
    } else {
        let seq_num = spec_u64_from_le_bytes(data.subrange(1, 9));
        let key_len = spec_u32_from_le_bytes(data.subrange(9, 13)) as int;
        if data.len() - 13 < key_len {
            RecordParse::Truncated
        } else {
            let key = data.subrange(13, 13 + key_len);
            let p = 13 + key_len;
            if data[0] == WAL_PUT {
                if data.len() - p < 4 {
                    RecordParse::Truncated
                } else {
                    let value_len = spec_u32_from_le_bytes(data.subrange(p, p + 4)) as int;
                    if data.len() - p - 4 < value_len {
                        RecordParse::Truncated
                    } else {
                        RecordParse::Record(
                            EntryView {
                                key,
                                seq_num,
                                value: Some(data.subrange(p + 4, p + 4 + value_len)),
                            },
                            p + 4 + value_len,
                        )
                    }
                }
            } else if data[0] == WAL_DELETE {
                RecordParse::Record(EntryView { key, seq_num, value: None }, p)
            } else {
                RecordParse::Invalid
            }
        }
    }
}

/// The entries of a log: those of its records, up to the end of the log or
/// to a record that the log ends within. `None` where a record is invalid.
pub open spec fn wal_entries(data: Seq<u8>) -> Option<Seq<EntryView>>
    decreases data.len(),
{
    match parse_record(data) {
        RecordParse::End => Some(Seq::empty()),
        RecordParse::Truncated => Some(Seq::empty()),
        RecordParse::Invalid => None,
        RecordParse::Record(e, n) => if 0 < n <= data.len() {
            match wal_entries(data.skip(n)) {
                Some(rest) => Some(seq![e] + rest),
                None => None,
            }
        } else {
            None
        },
    }
}

/// The log, for appending.
pub struct Wal {
    /// The bytes of the log's file.
    pub data: Vec<u8>,
    /// Where the file is.
    pub path: String,
}

impl Wal {
    /// The log at `path`, whose file holds `data`.
    pub fn open(path: String, data: Vec<u8>) -> (wal: Self)
        ensures
            wal.data@ == data@,
            wal.path@ == path@,
    {
        Wal { data, path }
    }

    /// Appends the record of a put. Fails where the length of the key or of
    /// the value does not fit in 32 bits.
    pub fn log_put(&mut self, key: &Key, value: &Value, seq_num: SeqNum) -> (res: Result<
        (),
        StoreError,
    >)
        ensures
            final(self).path == old(self).path,
            match res {
                Ok(()) => final(self).data@ == old(self).data@ + record_bytes(
                    EntryView { key: key@, seq_num, value: Some(value@) },
                ),
                Err(e) => e == StoreError::InvalidArgument && final(self).data@ == old(self).data@,
            },
            res is Ok <==> key@.len() <= u32::MAX && value@.len() <= u32::MAX,
    {
        if key.len() > u32::MAX as usize || value.len() > u32::MAX as usize {
            return Err(StoreError::InvalidArgument);
        }
        let mut record: Vec<u8> = Vec::new();
        record.push(WAL_PUT);
        append_bytes(&mut record, u64_to_le_bytes(seq_num).as_slice());
        append_bytes(&mut record, u32_to_le_bytes(key.len() as u32).as_slice());
        append_bytes(&mut record, key.as_bytes());
        append_bytes(&mut record, u32_to_le_bytes(value.len() as u32).as_slice());
        append_bytes(&mut record, value.as_bytes());
        assert(record@ =~= record_bytes(EntryView { key: key@, seq_num, value: Some(value@) }));
        append_bytes(&mut self.data, record.as_slice());
        Ok(())
    }

    /// Appends the record of a delete. Fails where the length of the key
    /// does not fit in 32 bits.
    pub fn log_delete(&mut self, key: &Key, seq_num: SeqNum) -> (res: Result<(), StoreError>)
        ensures
            final(self).path == old(self).path,
            match res {
                Ok(()) => final(self).data@ == old(self).data@ + record_bytes(
                    EntryView { key: key@, seq_num, value: None },
                ),
                Err(e) => e == StoreError::InvalidArgument && final(self).data@ == old(self).data@,
            },
            res is Ok <==> key@.len() <= u32::MAX,
    {
        if key.len() > u32::MAX as usize {
            return Err(StoreError::InvalidArgument);
        }
        let mut record: Vec<u8> = Vec::new();
        record.push(WAL_DELETE);
        append_bytes(&mut record, u64_to_le_bytes(seq_num).as_slice());
        append_bytes(&mut record, u32_to_le_bytes(key.len() as u32).as_slice());
        append_bytes(&mut record, key.as_bytes());
        assert(record@ =~= record_bytes(EntryView { key: key@, seq_num, value: None }));
        append_bytes(&mut self.data, record.as_slice());
        Ok(())
    }

    /// Where the log's file is.
    pub fn path(&self) -> (path: &str)
        ensures
            path@ == self.path@,
    {
        self.path.as_str()
    }

    /// The bytes of the log's file.
    pub fn contents(&self) -> (data: &[u8])
        ensures
            data@ == self.data@,
    {
        self.data.as_slice()
    }
}

/// Reads a log, record by record.
pub struct WalReader {
    /// The bytes of the log's file.
    pub data: Vec<u8>,
    /// How far the log was read.
    pub position: usize,
}

impl WalReader {
    pub open spec fn wf(&self) -> bool {
        self.position <= self.data.len()
    }

    /// What is left to read.
    pub open spec fn remaining(&self) -> Seq<u8> {
        self.data@.skip(self.position as int)
    }

    /// A reader at the start of the log whose file holds `data`.
    pub fn open(data: Vec<u8>) -> (reader: Self)
        ensures
            reader.wf(),
            reader.remaining() == data@,
    {
        let reader = WalReader { data, position: 0 };
        assert(reader.remaining() =~= data@);
        reader
    }

    /// The entries of what is left of the log. A log that ends within a
    /// record is read up to that record.
    pub fn read_all(&mut self) -> (res: Result<Vec<Entry>, StoreError>)
        requires
            old(self).wf(),
        ensures
            final(self).wf(),
            match res {
                Ok(entries) => wal_entries(old(self).remaining()) == Some(entry_views(entries@)),
                Err(e) => e == StoreError::Corruption && wal_entries(old(self).remaining()) is None,
            },
    {
        let mut entries: Vec<Entry> = Vec::new();
        let ghost start = self.remaining();
        assert(entry_views(entries@) =~= Seq::<EntryView>::empty());
        loop
            invariant
                self.wf(),
                start == old(self).remaining(),
                match wal_entries(self.remaining()) {
                    Some(rest) => wal_entries(start) == Some(entry_views(entries@) + rest),
                    None => wal_entries(start) is None,
                },
            ensures
                wal_entries(start) == Some(entry_views(entries@)),
            decreases self.remaining().len(),
        {
            let ghost rem = self.remaining();
            let ghost found = entry_views(entries@);
            match self.read_entry() {
                Ok(Some(entry)) => {
                    proof {
                        lemma_entry_views_push(entries@, entry);
                        if let Some(rest) = wal_entries(self.remaining()) {
                            assert(found + (seq![entry@] + rest) =~= found.push(entry@) + rest);
                        }
                    }
                    entries.push(entry);
                },
                Ok(None) => {
                    assert(found + Seq::<EntryView>::empty() =~= found);
                    break ;
                },
                Err(e) => {
                    match e {
                        StoreError::Io => {
                            assert(found + Seq::<EntryView>::empty() =~= found);
                            break ;
                        },
                        _ => {
                            return Err(StoreError::Corruption);
                        },
                    }
                },
            }
        }
        Ok(entries)
    }

    /// Reads one record. `Ok(None)` at the end of the log; the error `Io`
    /// where the log ends within the record; the error `Corruption` where
    /// the record's first byte is not that of a put or of a delete.
    fn read_entry(&mut self) -> (res: Result<Option<Entry>, StoreError>)
        requires
            old(self).wf(),
        ensures
            final(self).wf(),
            final(self).data == old(self).data,
            match parse_record(old(self).remaining()) {
                RecordParse::End => res == Ok::<Option<Entry>, StoreError>(None) && final(self).position == old(self).position,
                RecordParse::Truncated => res is Err && res->Err_0 == StoreError::Io && final(self).position == old(self).position,
                RecordParse::Invalid => res is Err && res->Err_0 == StoreError::Corruption
                    && final(self).position == old(self).position,
                RecordParse::Record(e, n) => {
                    &&& res matches Ok(Some(entry)) && entry@ == e
                    &&& 0 < n <= old(self).remaining().len()
                    &&& final(self).position == old(self).position + n
                    &&& final(self).remaining() == old(self).remaining().skip(n)
                },
            },
    {
        let data = self.data.as_slice();
        let start: usize = self.position;
        let left: usize = data.len() - start;
        let ghost rem = self.remaining();
        if left == 0 {
            return Ok(None);
        }
        if left < 13 {
            return Err(StoreError::Io);
        }
        let type_byte: u8 = data[start];
        assert(rem[0] == type_byte);
        let seq_slice = slice_subrange(data, start + 1, start + 9);
        assert(seq_slice@ =~= rem.subrange(1, 9));
        let seq_num = u64_from_le_bytes(seq_slice);
        let len_slice = slice_subrange(data, start + 9, start + 13);
        assert(len_slice@ =~= rem.subrange(9, 13));
        let key_len = u32_from_le_bytes(len_slice);
        if ((left - 13) as u64) < key_len as u64 {
            return Err(StoreError::Io);
        }
        let key_len: usize = key_len as usize;
        let key_start: usize = start + 13;
        let key = Key::new(copy_range(data, key_start, key_start + key_len));
        assert(key@ =~= rem.subrange(13, 13 + key_len));
        let p: usize = key_start + key_len;
        if type_byte == WAL_PUT {
            if data.len() - p < 4 {
                return Err(StoreError::Io);
            }
            let value_len_slice = slice_subrange(data, p, p + 4);
            assert(value_len_slice@ =~= rem.subrange(13 + key_len, 13 + key_len + 4));
            let value_len = u32_from_le_bytes(value_len_slice);
            if ((data.len() - p - 4) as u64) < value_len as u64 {
                return Err(StoreError::Io);
            }
            let value_len: usize = value_len as usize;
            let value = Value::new(copy_range(data, p + 4, p + 4 + value_len));
            assert(value@ =~= rem.subrange(13 + key_len + 4, 13 + key_len + 4 + value_len));
            self.position = p + 4 + value_len;
            assert(self.remaining() =~= rem.skip(13 + key_len + 4 + value_len));
            Ok(Some(Entry::put(key, seq_num, value)))
        } else if type_byte == WAL_DELETE {
            self.position = p;
            assert(self.remaining() =~= rem.skip(13 + key_len));
            Ok(Some(Entry::delete(key, seq_num)))
        } else {
            Err(StoreError::Corruption)
        }
    }
}

/// What reading gives on a log that starts with the record of an entry.
pub proof fn lemma_parse_record(e: EntryView, tail: Seq<u8>)
    requires
        loggable(e),
    ensures
        parse_record(record_bytes(e) + tail) == RecordParse::Record(
            e,
            record_bytes(e).len() as int,
        ),
        record_bytes(e).len() >= 13,
        (record_bytes(e) + tail).skip(record_bytes(e).len() as int) == tail,
{
    lemma_auto_spec_u64_to_from_le_bytes();
    lemma_auto_spec_u32_to_from_le_bytes();
    let data = record_bytes(e) + tail;
    let key_len = e.key.len() as int;
    assert(data.subrange(1, 9) =~= spec_u64_to_le_bytes(e.seq_num));
    assert(data.subrange(9, 13) =~= spec_u32_to_le_bytes(e.key.len() as u32));
    assert(data.subrange(13, 13 + key_len) =~= e.key);
    let p = 13 + key_len;
    match e.value {
        Some(v) => {
            assert(data[0] == WAL_PUT);
            assert(data.subrange(p, p + 4) =~= spec_u32_to_le_bytes(v.len() as u32));
            assert(data.subrange(p + 4, p + 4 + v.len()) =~= v);
        },
        None => {
            assert(data[0] == WAL_DELETE);
        },
    }
    assert(data.skip(record_bytes(e).len() as int) =~= tail);
}

/// Reading a log whose records are those of `entries`, followed by `tail`,
/// gives the entries and then what reading `tail` gives.
pub proof fn lemma_wal_prefix(entries: Seq<EntryView>, tail: Seq<u8>)
    requires
        forall|i: int| 0 <= i < entries.len() ==> loggable(#[trigger] entries[i]),
    ensures
        wal_entries(log_bytes(entries) + tail) == (match wal_entries(tail) {
            Some(rest) => Some(entries + rest),
            None => None,
        }),
    decreases entries.len(),
{
    if entries.len() == 0 {
        assert(log_bytes(entries) + tail =~= tail);
        if let Some(rest) = wal_entries(tail) {
            assert(entries + rest =~= rest);
        }
    } else {
        let last = entries.last();
        let front = entries.drop_last();
        let record = record_bytes(last);
        assert(log_bytes(entries) + tail =~= log_bytes(front) + (record + tail));
        lemma_wal_prefix(front, record + tail);
        lemma_parse_record(last, tail);
        if let Some(rest) = wal_entries(tail) {
            assert(front + (seq![last] + rest) =~= entries + rest);
        }
    }
}

/// Reading the log of some entries gives the entries back.
pub proof fn lemma_wal_round_trip(entries: Seq<EntryView>)
    requires
        forall|i: int| 0 <= i < entries.len() ==> loggable(#[trigger] entries[i]),
    ensures
        wal_entries(log_bytes(entries)) == Some(entries),
{
    lemma_wal_prefix(entries, Seq::empty());
    assert(log_bytes(entries) + Seq::<u8>::empty() =~= log_bytes(entries));
    assert(entries + Seq::<EntryView>::empty() =~= entries);
}

/// A log that ends within a record reads as the records before it: where
/// the records of `entries` are followed by a part of the record of `next`
/// that is not the whole record, reading gives `entries`.
pub proof fn lemma_wal_torn_tail(entries: Seq<EntryView>, next: EntryView, cut: int)
    requires
        forall|i: int| 0 <= i < entries.len() ==> loggable(#[trigger] entries[i]),
        loggable(next),
        0 <= cut < record_bytes(next).len(),
    ensures
        wal_entries(log_bytes(entries) + record_bytes(next).take(cut)) == Some(entries),
{
    let part = record_bytes(next).take(cut);
    lemma_torn_record(next, cut);
    lemma_wal_prefix(entries, part);
    assert(entries + Seq::<EntryView>::empty() =~= entries);
}

/// A part of a record that is not the whole record reads as the end of the
/// log or as a record that the log ends within.
proof fn lemma_torn_record(e: EntryView, cut: int)
    requires
        loggable(e),
        0 <= cut < record_bytes(e).len(),
    ensures
        parse_record(record_bytes(e).take(cut)) == RecordParse::End || parse_record(
            record_bytes(e).take(cut),
        ) == RecordParse::Truncated,
{
    lemma_auto_spec_u64_to_from_le_bytes();
    lemma_auto_spec_u32_to_from_le_bytes();
    let whole = record_bytes(e);
    let part = whole.take(cut);
    let key_len = e.key.len() as int;
    if cut >= 13 {
        assert(part.subrange(9, 13) =~= spec_u32_to_le_bytes(e.key.len() as u32));
        assert(part[0] == whole[0]);
        let p = 13 + key_len;
        if cut - 13 >= key_len {
            match e.value {
                Some(v) => {
                    assert(part[0] == WAL_PUT);
                    if cut - p >= 4 {
                        assert(part.subrange(p, p + 4) =~= spec_u32_to_le_bytes(v.len() as u32));
                    }
                },
                None => {},
            }
        }
    }
}

} // verus!
