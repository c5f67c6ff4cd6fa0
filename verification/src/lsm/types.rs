//! Keys, values and entries, and the entry wire format.

use crate::bytes::{append_bytes, bytes_compare, bytes_equal, bytes_lt, copy_range, ByteOrder};
use crate::error::StoreError;
use crate::tuple::varint::{
    decode_varint, decode_varint_spec, encode_varint, lemma_varint_bytes_len,
    lemma_varint_round_trip, varint_bytes, varint_len,
};
use vstd::bytes::{
    lemma_auto_spec_u64_to_from_le_bytes, spec_u64_from_le_bytes, spec_u64_to_le_bytes,
    u64_from_le_bytes, u64_to_le_bytes,
};
use vstd::prelude::*;
use vstd::slice::{slice_subrange, slice_to_vec};
use vstd::string::StringSliceAdditionalSpecFns;

verus! {

/// Orders the versions of one key: a higher number is newer.
pub type SeqNum = u64;

/// A key: any byte string, ordered lexicographically.
#[derive(Debug)]
pub struct Key(pub Vec<u8>);

/// A value: any byte string.
#[derive(Debug)]
pub struct Value(pub Vec<u8>);

/// One version of one key: a value written, or a tombstone for a deletion.
#[derive(Debug)]
pub struct Entry {
    pub key: Key,
    pub seq_num: SeqNum,
    pub value: Option<Value>,
}

/// An entry as plain data.
pub struct EntryView {
    pub key: Seq<u8>,
    pub seq_num: u64,
    pub value: Option<Seq<u8>>,
}

impl View for Key {
    type V = Seq<u8>;

    open spec fn view(&self) -> Seq<u8> {
        self.0@
    }
}

impl View for Value {
    type V = Seq<u8>;

    open spec fn view(&self) -> Seq<u8> {
        self.0@
    }
}

impl View for Entry {
    type V = EntryView;

    open spec fn view(&self) -> EntryView {
        EntryView {
            key: self.key@,
            seq_num: self.seq_num,
            value: match self.value {
                Some(v) => Some(v@),
                None => None,
            },
        }
    }
}

/// The entries of a vector as plain data.
pub open spec fn entry_views(entries: Seq<Entry>) -> Seq<EntryView> {
    entries.map_values(|e: Entry| e@)
}

/// The entries with one more, as plain data.
pub proof fn lemma_entry_views_push(entries: Seq<Entry>, entry: Entry)
    ensures
        entry_views(entries.push(entry)) == entry_views(entries).push(entry@),
        entry_views(entries).len() == entries.len(),
{
    assert(entry_views(entries.push(entry)) =~= entry_views(entries).push(entry@));
}

/// The order of entries: by key ascending, and within one key by sequence
/// number descending, so that the newest version of a key comes first.
pub open spec fn entry_lt(a: EntryView, b: EntryView) -> bool {
    bytes_lt(a.key, b.key) || (a.key == b.key && a.seq_num > b.seq_num)
}

/// What comes before an entry that comes before a third comes before
/// the third.
pub proof fn lemma_entry_lt_transitive(a: EntryView, b: EntryView, c: EntryView)
    requires
        entry_lt(a, b),
        entry_lt(b, c),
    ensures
        entry_lt(a, c),
{
    if bytes_lt(a.key, b.key) && bytes_lt(b.key, c.key) {
        crate::bytes::lemma_bytes_lt_transitive(a.key, b.key, c.key);
    }
}

/// Of two entries not each comes before the other, and an entry that
/// comes before another differs from it in key or sequence number.
pub proof fn lemma_entry_lt_asymmetric(a: EntryView, b: EntryView)
    requires
        entry_lt(a, b),
    ensures
        !entry_lt(b, a),
        !(a.key == b.key && a.seq_num == b.seq_num),
{
    crate::bytes::lemma_bytes_lt_irreflexive(a.key);
    if bytes_lt(a.key, b.key) {
        crate::bytes::lemma_bytes_lt_asymmetric(a.key, b.key);
    }
    if bytes_lt(b.key, a.key) {
        crate::bytes::lemma_bytes_lt_asymmetric(b.key, a.key);
    }
}

/// Of two entries one comes before the other, or they have the same key
/// and sequence number.
pub proof fn lemma_entry_lt_total(a: EntryView, b: EntryView)
    ensures
        entry_lt(a, b) || entry_lt(b, a) || (a.key == b.key && a.seq_num == b.seq_num),
{
    crate::bytes::lemma_bytes_lt_total(a.key, b.key);
}

impl Clone for Key {
    fn clone(&self) -> (res: Self)
        ensures
            res@ == self@,
    {
        Key(self.0.clone())
    }
}

impl Clone for Value {
    fn clone(&self) -> (res: Self)
        ensures
            res@ == self@,
    {
        Value(self.0.clone())
    }
}

impl Clone for Entry {
    fn clone(&self) -> (res: Self)
        ensures
            res@ == self@,
    {
        Entry {
            key: self.key.clone(),
            seq_num: self.seq_num,
            value: match &self.value {
                Some(v) => Some(v.clone()),
                None => None,
            },
        }
    }
}

impl Key {
    /// A key with these bytes.
    pub fn new(data: Vec<u8>) -> (key: Self)
        ensures
            key@ == data@,
    {
        Key(data)
    }

    /// A key with a copy of these bytes.
    pub fn from_slice(data: &[u8]) -> (key: Self)
        ensures
            key@ == data@,
    {
        Key(slice_to_vec(data))
    }

    /// The bytes.
    pub fn as_bytes(&self) -> (bytes: &[u8])
        ensures
            bytes@ == self@,
    {
        self.0.as_slice()
    }

    /// Number of bytes.
    pub fn len(&self) -> (len: usize)
        ensures
            len == self@.len(),
    {
        self.0.len()
    }

    /// Whether there are no bytes.
    pub fn is_empty(&self) -> (empty: bool)
        ensures
            empty == (self@.len() == 0),
    {
        self.0.len() == 0
    }

    /// How this key compares with `other` in lexicographic order.
    pub fn compare(&self, other: &Key) -> (order: ByteOrder)
        ensures
            order == ByteOrder::Less <==> bytes_lt(self@, other@),
            order == ByteOrder::Equal <==> self@ == other@,
            order == ByteOrder::Greater <==> bytes_lt(other@, self@),
    {
        bytes_compare(self.0.as_slice(), other.0.as_slice())
    }

    /// Whether this key holds the same bytes as `other`.
    pub fn same_as(&self, other: &Key) -> (same: bool)
        ensures
            same == (self@ == other@),
    {
        bytes_equal(self.0.as_slice(), other.0.as_slice())
    }
}

impl From<&[u8]> for Key {
    fn from(data: &[u8]) -> (key: Key)
        ensures
            key@ == data@,
    {
        Key::from_slice(data)
    }
}

impl vstd::std_specs::convert::FromSpecImpl<&[u8]> for Key {
    open spec fn obeys_from_spec() -> bool {
        false
    }

    open spec fn from_spec(data: &[u8]) -> Key {
        arbitrary()
    }
}

impl From<&str> for Key {
    fn from(s: &str) -> (key: Key)
        ensures
            key@ == s.spec_bytes(),
    {
        Key::from_slice(s.as_bytes())
    }
}

impl vstd::std_specs::convert::FromSpecImpl<&str> for Key {
    open spec fn obeys_from_spec() -> bool {
        false
    }

    open spec fn from_spec(s: &str) -> Key {
        arbitrary()
    }
}

impl From<Vec<u8>> for Key {
    fn from(data: Vec<u8>) -> (key: Key)
        ensures
            key@ == data@,
    {
        Key(data)
    }
}

impl vstd::std_specs::convert::FromSpecImpl<Vec<u8>> for Key {
    open spec fn obeys_from_spec() -> bool {
        true
    }

    open spec fn from_spec(data: Vec<u8>) -> Key {
        Key(data)
    }
}

impl Value {
    /// A value with these bytes.
    pub fn new(data: Vec<u8>) -> (value: Self)
        ensures
            value@ == data@,
    {
        Value(data)
    }

    /// A value with a copy of these bytes.
    pub fn from_slice(data: &[u8]) -> (value: Self)
        ensures
            value@ == data@,
    {
        Value(slice_to_vec(data))
    }

    /// The bytes.
    pub fn as_bytes(&self) -> (bytes: &[u8])
        ensures
            bytes@ == self@,
    {
        self.0.as_slice()
    }

    /// Number of bytes.
    pub fn len(&self) -> (len: usize)
        ensures
            len == self@.len(),
    {
        self.0.len()
    }

    /// Whether there are no bytes.
    pub fn is_empty(&self) -> (empty: bool)
        ensures
            empty == (self@.len() == 0),
    {
        self.0.len() == 0
    }
}

impl From<&[u8]> for Value {
    fn from(data: &[u8]) -> (value: Value)
        ensures
            value@ == data@,
    {
        Value::from_slice(data)
    }
}

impl vstd::std_specs::convert::FromSpecImpl<&[u8]> for Value {
    open spec fn obeys_from_spec() -> bool {
        false
    }

    open spec fn from_spec(data: &[u8]) -> Value {
        arbitrary()
    }
}

impl From<&str> for Value {
    fn from(s: &str) -> (value: Value)
        ensures
            value@ == s.spec_bytes(),
    {
        Value::from_slice(s.as_bytes())
    }
}

impl vstd::std_specs::convert::FromSpecImpl<&str> for Value {
    open spec fn obeys_from_spec() -> bool {
        false
    }

    open spec fn from_spec(s: &str) -> Value {
        arbitrary()
    }
}

impl From<Vec<u8>> for Value {
    fn from(data: Vec<u8>) -> (value: Value)
        ensures
            value@ == data@,
    {
        Value(data)
    }
}

impl vstd::std_specs::convert::FromSpecImpl<Vec<u8>> for Value {
    open spec fn obeys_from_spec() -> bool {
        true
    }

    open spec fn from_spec(data: Vec<u8>) -> Value {
        Value(data)
    }
}

/// The wire form of an entry: the key's length as a varint, the key, the
/// sequence number in eight bytes little-endian, a flag byte (1 for a
/// tombstone, else 0) and, unless it is a tombstone, the value's length as
/// a varint and the value.
pub open spec fn entry_bytes(e: EntryView) -> Seq<u8> {
    let head = varint_bytes(e.key.len() as u64) + e.key + spec_u64_to_le_bytes(e.seq_num);
    match e.value {
        Some(v) => head + seq![0u8] + varint_bytes(v.len() as u64) + v,
        None => head + seq![1u8],
    }
}

/// What reading one entry from the start of `data` gives: the entry and the
/// number of bytes it took, or `None` where a length does not decode or the
/// input ends before the entry does.
pub open spec fn parse_entry(data: Seq<u8>) -> Option<(EntryView, usize)> {
    match decode_varint_spec(data) {
        None => None,
        Some((key_len, n1)) => {
            if data.len() - n1 < key_len + 9 {
                None
            } else {
                let p = n1 + key_len;
                let key = data.subrange(n1 as int, p);
                let seq_num = spec_u64_from_le_bytes(data.subrange(p, p + 8));
                if data[p + 8] != 0 {
                    Some((EntryView { key, seq_num, value: None }, (p + 9) as usize))
                } else {
                    match decode_varint_spec(data.skip(p + 9)) {
                        None => None,
                        Some((value_len, n2)) => {
                            let q = p + 9 + n2;
                            if data.len() - q < value_len {
                                None
                            } else {
                                Some(
                                    (
                                        EntryView {
                                            key,
                                            seq_num,
                                            value: Some(data.subrange(q, q + value_len)),
                                        },
                                        (q + value_len) as usize,
                                    ),
                                )
                            }
                        },
                    }
                }
            }
        },
    }
}

impl Entry {
    /// An entry that writes `value` under `key`.
    pub fn put(key: Key, seq_num: SeqNum, value: Value) -> (entry: Self)
        ensures
            entry@ == (EntryView { key: key@, seq_num, value: Some(value@) }),
    {
        Entry { key, seq_num, value: Some(value) }
    }

    /// A tombstone: an entry that deletes `key`.
    pub fn delete(key: Key, seq_num: SeqNum) -> (entry: Self)
        ensures
            entry@ == (EntryView { key: key@, seq_num, value: None }),
    {
        Entry { key, seq_num, value: None }
    }

    /// How this entry compares with `other` in the order of entries: by
    /// key, and within one key the higher sequence number first.
    pub fn compare(&self, other: &Entry) -> (order: ByteOrder)
        ensures
            order == ByteOrder::Less <==> entry_lt(self@, other@),
            order == ByteOrder::Equal <==> (self@.key == other@.key && self@.seq_num
                == other@.seq_num),
            order == ByteOrder::Greater <==> entry_lt(other@, self@),
    {
        proof {
            lemma_entry_lt_total(self@, other@);
            if entry_lt(self@, other@) {
                lemma_entry_lt_asymmetric(self@, other@);
            }
            if entry_lt(other@, self@) {
                lemma_entry_lt_asymmetric(other@, self@);
            }
        }
        match self.key.compare(&other.key) {
            ByteOrder::Less => ByteOrder::Less,
            ByteOrder::Greater => ByteOrder::Greater,
            ByteOrder::Equal => {
                if self.seq_num > other.seq_num {
                    ByteOrder::Less
                } else if self.seq_num < other.seq_num {
                    ByteOrder::Greater
                } else {
                    ByteOrder::Equal
                }
            },
        }
    }

    /// Whether the entry deletes its key.
    pub fn is_tombstone(&self) -> (tombstone: bool)
        ensures
            tombstone == (self@.value is None),
    {
        self.value.is_none()
    }

    /// Length of the wire form.
    pub fn serialized_size(&self) -> (size: usize)
        requires
            entry_bytes(self@).len() <= usize::MAX,
        ensures
            size == entry_bytes(self@).len(),
    {
        proof {
            lemma_varint_bytes_len(self@.key.len() as u64);
            if let Some(v) = self@.value {
                lemma_varint_bytes_len(v.len() as u64);
            }
            lemma_auto_spec_u64_to_from_le_bytes();
        }
        let mut size: usize = varint_len(self.key.len() as u64) + self.key.len();
        size += 8;
        size += 1;
        if let Some(value) = &self.value {
            size += varint_len(value.len() as u64) + value.len();
        }
        size
    }

    /// Appends the wire form to `writer` and returns its length.
    pub fn write_to(&self, writer: &mut Vec<u8>) -> (written: Result<usize, StoreError>)
        requires
            entry_bytes(self@).len() <= usize::MAX,
        ensures
            final(writer)@ == old(writer)@ + entry_bytes(self@),
            written == Ok::<usize, StoreError>(entry_bytes(self@).len() as usize),
    {
        proof {
            lemma_varint_bytes_len(self@.key.len() as u64);
            if let Some(v) = self@.value {
                lemma_varint_bytes_len(v.len() as u64);
            }
            lemma_auto_spec_u64_to_from_le_bytes();
        }
        let mut written: usize = 0;
        let n1 = encode_varint(self.key.len() as u64, writer);
        match n1 {
            Ok(n) => {
                written += n;
            },
            Err(e) => {
                return Err(e);
            },
        }
        append_bytes(writer, self.key.as_bytes());
        written += self.key.len();
        let seq_bytes = u64_to_le_bytes(self.seq_num);
        append_bytes(writer, seq_bytes.as_slice());
        written += 8;
        match &self.value {
            Some(value) => {
                writer.push(0u8);
                written += 1;
                let n2 = encode_varint(value.len() as u64, writer);
                match n2 {
                    Ok(n) => {
                        written += n;
                    },
                    Err(e) => {
                        return Err(e);
                    },
                }
                append_bytes(writer, value.as_bytes());
                written += value.len();
                assert(writer@ =~= old(writer)@ + entry_bytes(self@));
            },
            None => {
                writer.push(1u8);
                written += 1;
                assert(writer@ =~= old(writer)@ + entry_bytes(self@));
            },
        }
        Ok(written)
    }

    /// Reads one entry from the start of `data`: the entry and the number of
    /// bytes it took.
    pub fn read_from(data: &[u8]) -> (decoded: Result<(Self, usize), StoreError>)
        ensures
            match decoded {
                Ok((entry, used)) => parse_entry(data@) == Some((entry@, used)),
                Err(e) => e == StoreError::Corruption && parse_entry(data@) is None,
            },
    {
        let mut offset: usize = 0;
        let (key_len, key_len_size) = match decode_varint(data) {
            Ok(pair) => pair,
            Err(e) => {
                return Err(e);
            },
        };
        offset += key_len_size;
        let remaining: usize = data.len() - offset;
        if remaining < 9 || ((remaining - 9) as u64) < key_len {
            return Err(StoreError::Corruption);
        }
        let key_len: usize = key_len as usize;
        let key = Key::from_slice(slice_subrange(data, offset, offset + key_len));
        offset += key_len;
        let seq_num = u64_from_le_bytes(slice_subrange(data, offset, offset + 8));
        offset += 8;
        let is_tombstone = data[offset] != 0;
        offset += 1;
        let value = if is_tombstone {
            None
        } else {
            let rest = slice_subrange(data, offset, data.len());
            assert(rest@ =~= data@.skip(offset as int));
            let (value_len, value_len_size) = match decode_varint(rest) {
                Ok(pair) => pair,
                Err(e) => {
                    return Err(e);
                },
            };
            offset += value_len_size;
            if ((data.len() - offset) as u64) < value_len {
                return Err(StoreError::Corruption);
            }
            let value_len: usize = value_len as usize;
            let value = Value::from_slice(slice_subrange(data, offset, offset + value_len));
            offset += value_len;
            Some(value)
        };
        Ok((Entry { key, seq_num, value }, offset))
    }
}

proof fn lemma_seq_num_bytes(seq_num: u64)
    ensures
        spec_u64_to_le_bytes(seq_num).len() == 8,
        spec_u64_from_le_bytes(spec_u64_to_le_bytes(seq_num)) == seq_num,
{
    lemma_auto_spec_u64_to_from_le_bytes();
}

/// What reading gives on input that starts with a key's length, the key, a
/// sequence number and a flag byte.
proof fn lemma_parse_head(key: Seq<u8>, seq_num: u64, flag: u8, tail: Seq<u8>)
    ensures
        ({
            let head = varint_bytes(key.len() as u64) + key + spec_u64_to_le_bytes(seq_num);
            let data = head + seq![flag] + tail;
            let p = head.len() as int;
            &&& decode_varint_spec(data) == Some(
                (key.len() as u64, varint_bytes(key.len() as u64).len() as usize),
            )
            &&& p == varint_bytes(key.len() as u64).len() + key.len() + 8
            &&& data.len() == p + 1 + tail.len()
            &&& data.subrange(p - 8 - key.len(), p - 8) == key
            &&& spec_u64_from_le_bytes(data.subrange(p - 8, p)) == seq_num
            &&& data[p] == flag
            &&& data.skip(p + 1) == tail
        }),
{
    let key_len = key.len() as u64;
    let seq_bytes = spec_u64_to_le_bytes(seq_num);
    let head = varint_bytes(key_len) + key + seq_bytes;
    let data = head + seq![flag] + tail;
    let p = head.len() as int;
    lemma_varint_bytes_len(key_len);
    lemma_seq_num_bytes(seq_num);
    let after = key + seq_bytes + seq![flag] + tail;
    assert(data =~= varint_bytes(key_len) + after);
    lemma_varint_round_trip(key_len, after);
    assert(data.subrange(p - 8 - key.len(), p - 8) =~= key);
    assert(data.subrange(p - 8, p) =~= seq_bytes);
    assert(data.skip(p + 1) =~= tail);
}

/// Reading the wire form of an entry, whatever follows it, gives the entry
/// back and stops right behind it.
pub proof fn lemma_entry_round_trip(e: EntryView, rest: Seq<u8>)
    requires
        entry_bytes(e).len() + rest.len() <= usize::MAX,
    ensures
        parse_entry(entry_bytes(e) + rest) == Some((e, entry_bytes(e).len() as usize)),
{
    let key_len = e.key.len() as u64;
    let head = varint_bytes(key_len) + e.key + spec_u64_to_le_bytes(e.seq_num);
    let p = head.len() as int;
    lemma_varint_bytes_len(key_len);
    lemma_seq_num_bytes(e.seq_num);
    match e.value {
        Some(v) => {
            let value_len = v.len() as u64;
            lemma_varint_bytes_len(value_len);
            let tail = varint_bytes(value_len) + v + rest;
            let data = head + seq![0u8] + tail;
            assert(entry_bytes(e) + rest =~= data);
            lemma_parse_head(e.key, e.seq_num, 0u8, tail);
            assert(tail =~= varint_bytes(value_len) + (v + rest));
            lemma_varint_round_trip(value_len, v + rest);
            let q = p + 1 + varint_bytes(value_len).len();
            assert(data.subrange(q, q + v.len()) =~= v);
        },
        None => {
            let data = head + seq![1u8] + rest;
            assert(entry_bytes(e) + rest =~= data);
            lemma_parse_head(e.key, e.seq_num, 1u8, rest);
        },
    }
}

} // verus!
