//! Tuples as they lie in a cell: a bitmap with one bit per field, set where
//! the field is null, then the fields that are not null, one after another.

use crate::bytes::append_bytes;
use crate::error::StoreError;
use crate::tuple::types::{
    field_len, from_bits32, from_bits64, int32_of_bits, int64_of_bits, value_bytes,
    TupleDescriptor, TupleFieldType, TupleValue, TupleValueView,
};
use vstd::bytes::{
    spec_u32_from_le_bytes, spec_u64_from_le_bytes, u32_from_le_bytes, u64_from_le_bytes,
};
use crate::tuple::varint::{
    decode_varint, decode_varint_spec, encode_varint, lemma_varint_bytes_len,
    lemma_varint_round_trip, varint_bytes,
};
use vstd::prelude::*;
use vstd::slice::slice_subrange;

verus! {

/// The bytes of a tuple in a cell.
pub struct TupleOnDisk<'a> {
    pub data: &'a [u8],
}

/// Whether bit `field_index` of the bitmap at the start of `data` is set.
pub open spec fn null_bit(data: Seq<u8>, field_index: int) -> bool {
    (data[field_index / 8] as int / pow2_small(field_index % 8)) % 2 == 1
}

/// Two to the `k`, for `k` below eight.
pub open spec fn pow2_small(k: int) -> int {
    if k <= 0 {
        1
    } else if k == 1 {
        2
    } else if k == 2 {
        4
    } else if k == 3 {
        8
    } else if k == 4 {
        16
    } else if k == 5 {
        32
    } else if k == 6 {
        64
    } else {
        128
    }
}

impl<'a> TupleOnDisk<'a> {
    /// The tuple whose bytes are `data`.
    pub fn new(data: &'a [u8]) -> (tuple: Self)
        ensures
            tuple.data@ == data@,
    {
        TupleOnDisk { data }
    }

    /// Whether field `field_index` is null: its bit in the bitmap is set.
    pub fn is_null(&self, field_index: usize) -> (null: bool)
        requires
            field_index / 8 < self.data@.len(),
        ensures
            null == null_bit(self.data@, field_index as int),
    {
        let byte: u8 = self.data[field_index / 8];
        let shift: usize = field_index % 8;
        let divisor: u8 = if shift == 0 {
            1
        } else if shift == 1 {
            2
        } else if shift == 2 {
            4
        } else if shift == 3 {
            8
        } else if shift == 4 {
            16
        } else if shift == 5 {
            32
        } else if shift == 6 {
            64
        } else {
            128
        };
        (byte / divisor) % 2 == 1
    }
}

/// A tuple of one field of variable length that holds `bytes`: a bitmap
/// byte of zero, the length as a varint, and the bytes.
pub open spec fn var_bytes_tuple(bytes: Seq<u8>) -> Seq<u8> {
    seq![0u8] + varint_bytes(bytes.len() as u64) + bytes
}

/// The field of a tuple of one field of variable length: where it starts
/// in `cell` and how long it is; `None` where the length does not decode or
/// the cell ends before the field does. The bitmap byte is passed over.
pub open spec fn var_bytes_field(cell: Seq<u8>) -> Option<(int, int)> {
    if cell.len() < 1 {
        None
    } else {
        match decode_varint_spec(cell.skip(1)) {
            None => None,
            Some((len, n)) => if cell.len() - 1 - n < len {
                None
            } else {
                Some((1 + n, len as int))
            },
        }
    }
}

/// Wraps `bytes` as a tuple of one field of variable length.
pub fn write_var_bytes_tuple(bytes: &[u8]) -> (cell: Vec<u8>)
    ensures
        cell@ == var_bytes_tuple(bytes@),
{
    let mut cell: Vec<u8> = Vec::new();
    cell.push(0u8);
    let _ = encode_varint(bytes.len() as u64, &mut cell);
    append_bytes(&mut cell, bytes);
    cell
}

/// The field of a tuple of one field of variable length.
pub fn read_var_bytes_tuple(cell: &[u8]) -> (res: Result<&[u8], StoreError>)
    ensures
        match var_bytes_field(cell@) {
            Some((start, len)) => res is Ok && res.unwrap()@ == cell@.subrange(start, start + len),
            None => res == Err::<&[u8], StoreError>(StoreError::Corruption),
        },
{
    if cell.len() < 1 {
        return Err(StoreError::Corruption);
    }
    let rest = slice_subrange(cell, 1, cell.len());
    assert(rest@ =~= cell@.skip(1));
    let (data_len, varint_size) = match decode_varint(rest) {
        Ok(pair) => pair,
        Err(e) => {
            return Err(e);
        },
    };
    let start: usize = 1 + varint_size;
    if ((cell.len() - start) as u64) < data_len {
        return Err(StoreError::Corruption);
    }
    Ok(slice_subrange(cell, start, start + data_len as usize))
}

/// The field of the tuple that wraps `bytes` is `bytes`.
pub proof fn lemma_var_bytes_tuple_round_trip(bytes: Seq<u8>)
    requires
        bytes.len() <= u64::MAX,
    ensures
        var_bytes_tuple(bytes).len() == 1 + varint_bytes(bytes.len() as u64).len() + bytes.len(),
        var_bytes_field(var_bytes_tuple(bytes)) == Some(
            (1 + varint_bytes(bytes.len() as u64).len() as int, bytes.len() as int),
        ),
        var_bytes_tuple(bytes).subrange(
            1 + varint_bytes(bytes.len() as u64).len() as int,
            var_bytes_tuple(bytes).len() as int,
        ) == bytes,
{
    let len = bytes.len() as u64;
    let cell = var_bytes_tuple(bytes);
    lemma_varint_bytes_len(len);
    assert(cell.skip(1) =~= varint_bytes(len) + bytes);
    lemma_varint_round_trip(len, bytes);
    assert(cell.subrange(1 + varint_bytes(len).len() as int, cell.len() as int) =~= bytes);
}

/// The values of a tuple.
pub struct Tuple<'a> {
    pub values: Vec<TupleValue<'a>>,
}

/// The values as plain data.
pub open spec fn value_views(values: Seq<TupleValue>) -> Seq<TupleValueView> {
    values.map_values(|v: TupleValue| v@)
}

/// The bits of byte `b` of the bitmap that stand for the first `k` of the
/// byte's eight fields: bit `j` is set where field `8 * b + j` is null.
pub open spec fn null_bits(values: Seq<TupleValueView>, b: int, k: int) -> int
    decreases k,
{
    if k <= 0 {
        0
    } else {
        null_bits(values, b, k - 1) + (if 8 * b + k - 1 < values.len() && values[8 * b + k
            - 1] is Null {
            pow2_small(k - 1)
        } else {
            0
        })
    }
}

/// The bitmap of a tuple: one bit for each field, eight to a byte.
pub open spec fn bitmap(values: Seq<TupleValueView>) -> Seq<u8> {
    Seq::new(((values.len() + 7) / 8) as nat, |b: int| null_bits(values, b, 8) as u8)
}

/// The bytes of the values that are not null, one after another.
pub open spec fn values_bytes(values: Seq<TupleValueView>) -> Seq<u8>
    decreases values.len(),
{
    if values.len() == 0 {
        Seq::empty()
    } else {
        values_bytes(values.drop_last()) + value_bytes(values.last())
    }
}

/// The bytes of a tuple in a cell: the bitmap, then the values that are
/// not null.
pub open spec fn tuple_bytes(values: Seq<TupleValueView>) -> Seq<u8> {
    bitmap(values) + values_bytes(values)
}

/// The bits of a byte of the bitmap fit in a byte.
pub proof fn lemma_null_bits_bound(values: Seq<TupleValueView>, b: int, k: int)
    requires
        0 <= k <= 8,
    ensures
        0 <= null_bits(values, b, k) < (if k == 8 {
            256
        } else {
            pow2_small(k)
        }),
    decreases k,
{
    if k > 0 {
        lemma_null_bits_bound(values, b, k - 1);
    }
}

/// A tuple of one field of variable length, as it is written for the
/// entries of a run, has the bytes of a tuple with that one value.
pub proof fn lemma_var_bytes_tuple(bytes: Seq<u8>)
    ensures
        tuple_bytes(seq![TupleValueView::VarBytes(bytes)]) == var_bytes_tuple(bytes),
{
    let values = seq![TupleValueView::VarBytes(bytes)];
    reveal_with_fuel(null_bits, 9);
    assert(bitmap(values) =~= seq![0u8]);
    assert(values.drop_last() =~= Seq::<TupleValueView>::empty());
    assert(values.last() == TupleValueView::VarBytes(bytes));
    assert(values_bytes(values.drop_last()) =~= Seq::<u8>::empty());
    assert(values_bytes(values) =~= value_bytes(values.last()));
    assert(tuple_bytes(values) =~= var_bytes_tuple(bytes));
}

impl<'a> Tuple<'a> {
    /// The tuple with these values.
    pub fn new(values: Vec<TupleValue<'a>>) -> (tuple: Self)
        ensures
            tuple.values == values,
    {
        Tuple { values }
    }

    /// The number of bytes of the tuple in a cell.
    pub fn len(&self) -> (len: usize)
        requires
            tuple_bytes(value_views(self.values@)).len() <= usize::MAX,
        ensures
            len == tuple_bytes(value_views(self.values@)).len(),
    {
        let ghost views = value_views(self.values@);
        let fields: usize = self.values.len();
        let mut len: usize = fields / 8 + if fields % 8 != 0 {
            1
        } else {
            0
        };
        let mut i: usize = 0;
        proof {
            assert(views.take(0) =~= Seq::<TupleValueView>::empty());
            lemma_values_bytes_prefix(views, views.len() as int);
        }
        while i < self.values.len()
            invariant
                i <= self.values.len(),
                views == value_views(self.values@),
                bitmap(views).len() + values_bytes(views).len() <= usize::MAX,
                len == bitmap(views).len() + values_bytes(views.take(i as int)).len(),
            decreases self.values.len() - i,
        {
            proof {
                assert(views.take(i as int + 1).drop_last() =~= views.take(i as int));
                assert(views.take(i as int + 1).last() == self.values@[i as int]@);
                lemma_values_bytes_prefix(views, i as int + 1);
            }
            len += self.values[i].len();
            i += 1;
        }
        assert(views.take(i as int) =~= views);
        len
    }

    /// Appends the bytes of the tuple to `stream` and returns their
    /// number.
    pub fn write_to_stream(&self, stream: &mut Vec<u8>) -> (res: Result<usize, StoreError>)
        requires
            tuple_bytes(value_views(self.values@)).len() <= usize::MAX,
        ensures
            res is Ok,
            final(stream)@ == old(stream)@ + tuple_bytes(value_views(self.values@)),
            res.unwrap() == tuple_bytes(value_views(self.values@)).len(),
    {
        let ghost views = value_views(self.values@);
        let ghost map = bitmap(views);
        let mut null_byte: u8 = 0;
        let mut bytes_written: usize = 0;
        let mut i: usize = 0;
        proof {
            assert(map.take(0) =~= Seq::<u8>::empty());
            assert(stream@ + map.take(0) =~= stream@);
        }
        while i < self.values.len()
            invariant
                i <= self.values.len(),
                views == value_views(self.values@),
                map == bitmap(views),
                bytes_written == i / 8,
                stream@ == old(stream)@ + map.take((i / 8) as int),
                null_byte == null_bits(views, (i / 8) as int, (i % 8) as int),
            decreases self.values.len() - i,
        {
            let ghost b = (i / 8) as int;
            let ghost k = (i % 8) as int;
            proof {
                lemma_null_bits_bound(views, b, k);
                lemma_null_bits_bound(views, b, k + 1);
                assert(views[i as int] == self.values@[i as int]@);
            }
            let is_null: bool = match self.values[i] {
                TupleValue::Null => true,
                _ => false,
            };
            if is_null {
                let bit: u8 = if i % 8 == 0 {
                    1
                } else if i % 8 == 1 {
                    2
                } else if i % 8 == 2 {
                    4
                } else if i % 8 == 3 {
                    8
                } else if i % 8 == 4 {
                    16
                } else if i % 8 == 5 {
                    32
                } else if i % 8 == 6 {
                    64
                } else {
                    128
                };
                null_byte = null_byte + bit;
            }
            if i % 8 == 7 {
                proof {
                    assert(map[b] == null_bits(views, b, 8) as u8);
                    assert(map.take(b + 1) =~= map.take(b).push(map[b]));
                    assert(stream@.push(null_byte) =~= old(stream)@ + map.take(b + 1));
                }
                stream.push(null_byte);
                bytes_written += 1;
                null_byte = 0;
            }
            i += 1;
        }
        if self.values.len() % 8 != 0 {
            proof {
                let b = (i / 8) as int;
                lemma_null_bits_tail(views, b, (i % 8) as int);
                assert(map[b] == null_bits(views, b, 8) as u8);
                assert(map.take(b + 1) =~= map.take(b).push(map[b]));
                assert(map.take(b + 1) =~= map);
                assert(stream@.push(null_byte) =~= old(stream)@ + map);
            }
            stream.push(null_byte);
            bytes_written += 1;
        } else {
            assert(map.take((i / 8) as int) =~= map);
        }
        let mut n: usize = 0;
        proof {
            assert(views.take(0) =~= Seq::<TupleValueView>::empty());
            assert(stream@ + values_bytes(views.take(0)) =~= stream@);
            lemma_values_bytes_prefix(views, views.len() as int);
        }
        while n < self.values.len()
            invariant
                n <= self.values.len(),
                views == value_views(self.values@),
                map == bitmap(views),
                map.len() + values_bytes(views).len() <= usize::MAX,
                stream@ == old(stream)@ + map + values_bytes(views.take(n as int)),
                bytes_written == map.len() + values_bytes(views.take(n as int)).len(),
            decreases self.values.len() - n,
        {
            proof {
                assert(views.take(n as int + 1).drop_last() =~= views.take(n as int));
                assert(views.take(n as int + 1).last() == self.values@[n as int]@);
                lemma_values_bytes_prefix(views, n as int + 1);
            }
            let ghost before = stream@;
            match self.values[n] {
                TupleValue::Null => {
                    assert(before + value_bytes(views[n as int]) =~= before);
                },
                value => {
                    match value.write_to_stream(stream) {
                        Ok(written) => {
                            bytes_written += written;
                        },
                        Err(e) => {
                            assert(false);
                        },
                    }
                },
            }
            proof {
                assert(old(stream)@ + map + values_bytes(views.take(n as int)) + value_bytes(
                    views[n as int],
                ) =~= old(stream)@ + map + (values_bytes(views.take(n as int)) + value_bytes(
                    views[n as int],
                )));
            }
            n += 1;
        }
        proof {
            assert(views.take(n as int) =~= views);
            assert(old(stream)@ + map + values_bytes(views) =~= old(stream)@ + tuple_bytes(views));
        }
        Ok(bytes_written)
    }
}

/// The bytes of the first values are not more than the bytes of them all.
proof fn lemma_values_bytes_prefix(values: Seq<TupleValueView>, n: int)
    requires
        0 <= n <= values.len(),
    ensures
        values_bytes(values.take(n)).len() <= values_bytes(values).len(),
    decreases values.len() - n,
{
    if n < values.len() {
        lemma_values_bytes_prefix(values, n + 1);
        assert(values.take(n + 1).drop_last() =~= values.take(n));
    } else {
        assert(values.take(n) =~= values);
    }
}

/// The fields behind the last field of a tuple add no bits to the bitmap.
proof fn lemma_null_bits_tail(values: Seq<TupleValueView>, b: int, k: int)
    requires
        0 <= k <= 8,
        8 * b + k >= values.len(),
    ensures
        null_bits(values, b, 8) == null_bits(values, b, k),
    decreases 8 - k,
{
    reveal_with_fuel(null_bits, 9);
    if k < 8 {
        lemma_null_bits_tail(values, b, k + 1);
    }
}

/// Where field `i` of a tuple starts in `data`: behind the bitmap and the
/// fields before it that are not null. `None` where a field before it does
/// not lie in `data`.
pub open spec fn field_offset(data: Seq<u8>, types: Seq<TupleFieldType>, i: int) -> Option<int>
    decreases i,
{
    if i <= 0 {
        Some((types.len() as int + 7) / 8)
    } else {
        match field_offset(data, types, i - 1) {
            None => None,
            Some(offset) => if (i - 1) / 8 >= data.len() || offset > data.len() {
                None
            } else if null_bit(data, i - 1) {
                Some(offset)
            } else {
                match field_len(types[i - 1], data.skip(offset)) {
                    Some(len) => if offset + len <= usize::MAX {
                        Some(offset + len)
                    } else {
                        None
                    },
                    None => None,
                }
            },
        }
    }
}

/// The value of type `field_type` at `offset` in `data`; `None` where it
/// does not lie in `data`.
pub open spec fn value_at(data: Seq<u8>, field_type: TupleFieldType, offset: int) -> Option<
    TupleValueView,
> {
    if offset > data.len() {
        None
    } else {
        match field_type {
            TupleFieldType::Bool => if data.len() - offset < 1 {
                None
            } else {
                Some(TupleValueView::Bool(data[offset] == 1))
            },
            TupleFieldType::Int32 => if data.len() - offset < 4 {
                None
            } else {
                Some(
                    TupleValueView::Int32(
                        from_bits32(spec_u32_from_le_bytes(data.subrange(offset, offset + 4))),
                    ),
                )
            },
            TupleFieldType::Int64 => if data.len() - offset < 8 {
                None
            } else {
                Some(
                    TupleValueView::Int64(
                        from_bits64(spec_u64_from_le_bytes(data.subrange(offset, offset + 8))),
                    ),
                )
            },
            TupleFieldType::Float32 => if data.len() - offset < 4 {
                None
            } else {
                Some(
                    TupleValueView::Float32(
                        spec_u32_from_le_bytes(data.subrange(offset, offset + 4)),
                    ),
                )
            },
            TupleFieldType::Float64 => if data.len() - offset < 8 {
                None
            } else {
                Some(
                    TupleValueView::Float64(
                        spec_u64_from_le_bytes(data.subrange(offset, offset + 8)),
                    ),
                )
            },
            TupleFieldType::VarBytes => match decode_varint_spec(data.skip(offset)) {
                Some((length, length_len)) => if data.len() - offset - length_len < length {
                    None
                } else {
                    Some(
                        TupleValueView::VarBytes(
                            data.subrange(offset + length_len, offset + length_len + length),
                        ),
                    )
                },
                None => None,
            },
        }
    }
}

/// Field `i` of a tuple with fields of these types: null where its bit in
/// the bitmap is set, else the value where the field starts.
pub open spec fn field_value(data: Seq<u8>, types: Seq<TupleFieldType>, i: int) -> Option<
    TupleValueView,
> {
    if i / 8 >= data.len() {
        None
    } else if null_bit(data, i) {
        Some(TupleValueView::Null)
    } else {
        match field_offset(data, types, i) {
            Some(offset) => value_at(data, types[i], offset),
            None => None,
        }
    }
}

impl<'a> TupleOnDisk<'a> {
    /// The value of field `field_index` of a tuple with the fields of
    /// `descriptor`. Fails where the field does not lie in the tuple's
    /// bytes.
    pub fn read_field(&self, descriptor: &TupleDescriptor, field_index: usize) -> (res: Result<
        TupleValue<'a>,
        StoreError,
    >)
        requires
            field_index < descriptor.fields@.len(),
        ensures
            match res {
                Ok(value) => field_value(self.data@, descriptor.types(), field_index as int)
                    == Some(value@),
                Err(e) => e == StoreError::Corruption && field_value(
                    self.data@,
                    descriptor.types(),
                    field_index as int,
                ) is None,
            },
    {
        let data = self.data;
        let ghost types = descriptor.types();
        if field_index / 8 >= data.len() {
            return Err(StoreError::Corruption);
        }
        if self.is_null(field_index) {
            return Ok(TupleValue::Null);
        }
        let fields: usize = descriptor.fields.len();
        let null_bitmap_len: usize = fields / 8 + if fields % 8 != 0 {
            1
        } else {
            0
        };
        let mut offset: usize = null_bitmap_len;
        let mut i: usize = 0;
        while i < field_index
            invariant
                i <= field_index < descriptor.fields@.len(),
                data == self.data,
                types == descriptor.types(),
                field_index / 8 < data@.len(),
                !null_bit(data@, field_index as int),
                field_offset(data@, types, i as int) == Some(offset as int),
            decreases field_index - i,
        {
            assert(types[i as int] == descriptor.fields@[i as int].field_type);
            if offset > data.len() {
                proof {
                    lemma_no_offset(data@, types, i as int + 1, field_index as int);
                }
                return Err(StoreError::Corruption);
            }
            if !self.is_null(i) {
                let field = descriptor.get_field(i);
                let rest = slice_subrange(data, offset, data.len());
                assert(rest@ =~= data@.skip(offset as int));
                let len = match field.value_len(rest) {
                    Ok(len) => len,
                    Err(e) => {
                        proof {
                            lemma_no_offset(data@, types, i as int + 1, field_index as int);
                        }
                        return Err(StoreError::Corruption);
                    },
                };
                if len > usize::MAX - offset {
                    proof {
                        lemma_no_offset(data@, types, i as int + 1, field_index as int);
                    }
                    return Err(StoreError::Corruption);
                }
                offset += len;
            }
            i += 1;
        }
        let field = descriptor.get_field(field_index);
        assert(types[field_index as int] == field.field_type);
        if offset > data.len() {
            return Err(StoreError::Corruption);
        }
        let left: usize = data.len() - offset;
        match field.field_type {
            TupleFieldType::Bool => {
                if left < 1 {
                    return Err(StoreError::Corruption);
                }
                Ok(TupleValue::Bool(data[offset] == 1))
            },
            TupleFieldType::Int32 => {
                if left < 4 {
                    return Err(StoreError::Corruption);
                }
                let bits = u32_from_le_bytes(slice_subrange(data, offset, offset + 4));
                Ok(TupleValue::Int32(int32_of_bits(bits)))
            },
            TupleFieldType::Int64 => {
                if left < 8 {
                    return Err(StoreError::Corruption);
                }
                let bits = u64_from_le_bytes(slice_subrange(data, offset, offset + 8));
                Ok(TupleValue::Int64(int64_of_bits(bits)))
            },
            TupleFieldType::Float32 => {
                if left < 4 {
                    return Err(StoreError::Corruption);
                }
                Ok(TupleValue::Float32(u32_from_le_bytes(slice_subrange(data, offset, offset + 4))))
            },
            TupleFieldType::Float64 => {
                if left < 8 {
                    return Err(StoreError::Corruption);
                }
                Ok(TupleValue::Float64(u64_from_le_bytes(slice_subrange(data, offset, offset + 8))))
            },
            TupleFieldType::VarBytes => {
                let rest = slice_subrange(data, offset, data.len());
                assert(rest@ =~= data@.skip(offset as int));
                let (length, length_len) = match decode_varint(rest) {
                    Ok(pair) => pair,
                    Err(e) => {
                        return Err(e);
                    },
                };
                if ((left - length_len) as u64) < length {
                    return Err(StoreError::Corruption);
                }
                let start: usize = offset + length_len;
                Ok(TupleValue::VarBytes(slice_subrange(data, start, start + length as usize)))
            },
        }
    }
}

/// A field behind a field that does not lie in the tuple's bytes has no
/// place.
proof fn lemma_no_offset(data: Seq<u8>, types: Seq<TupleFieldType>, i: int, n: int)
    requires
        0 <= i <= n,
        field_offset(data, types, i) is None,
    ensures
        field_offset(data, types, n) is None,
    decreases n - i,
{
    if i < n {
        lemma_no_offset(data, types, i, n - 1);
    }
}

} // verus!
