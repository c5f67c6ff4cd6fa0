//! The fields of a tuple: their types, their values and how a value lies
//! in a cell. A value of one, four or eight bytes is written little-endian;
//! a value of variable length stands behind its length as a varint. A
//! floating-point value is held as the bits of its IEEE 754 form.

use crate::bytes::append_bytes;
use crate::error::StoreError;
use crate::tuple::varint::{
    decode_varint, decode_varint_spec, encode_varint, lemma_varint_bytes_len, varint_bytes,
    varint_len,
};
use vstd::bytes::{
    lemma_auto_spec_u32_to_from_le_bytes, lemma_auto_spec_u64_to_from_le_bytes,
    spec_u32_to_le_bytes, spec_u64_to_le_bytes, u32_to_le_bytes, u64_to_le_bytes,
};
use vstd::prelude::*;

verus! {

/// The types a field can have.
#[derive(Debug, Clone, Copy, PartialEq, Eq, Structural)]
pub enum TupleFieldType {
    Bool,
    Int32,
    Int64,
    Float32,
    Float64,
    /// Bytes behind their length as a varint.
    VarBytes,
}

/// The value of a field.
#[derive(Debug, Clone, Copy, PartialEq, Eq)]
pub enum TupleValue<'a> {
    Null,
    Bool(bool),
    Int32(i32),
    Int64(i64),
    /// The bits of a 32-bit floating-point number.
    Float32(u32),
    /// The bits of a 64-bit floating-point number.
    Float64(u64),
    VarBytes(&'a [u8]),
}

/// A value as plain data.
pub enum TupleValueView {
    Null,
    Bool(bool),
    Int32(i32),
    Int64(i64),
    Float32(u32),
    Float64(u64),
    VarBytes(Seq<u8>),
}

impl<'a> View for TupleValue<'a> {
    type V = TupleValueView;

    open spec fn view(&self) -> TupleValueView {
        match *self {
            TupleValue::Null => TupleValueView::Null,
            TupleValue::Bool(b) => TupleValueView::Bool(b),
            TupleValue::Int32(v) => TupleValueView::Int32(v),
            TupleValue::Int64(v) => TupleValueView::Int64(v),
            TupleValue::Float32(v) => TupleValueView::Float32(v),
            TupleValue::Float64(v) => TupleValueView::Float64(v),
            TupleValue::VarBytes(bytes) => TupleValueView::VarBytes(bytes@),
        }
    }
}

/// The bits of a 32-bit integer in two's complement.
pub open spec fn bits32(v: i32) -> u32 {
    if v >= 0 {
        v as u32
    } else {
        (v + 0x1_0000_0000) as u32
    }
}

/// The bits of a 64-bit integer in two's complement.
pub open spec fn bits64(v: i64) -> u64 {
    if v >= 0 {
        v as u64
    } else {
        (v + 0x1_0000_0000_0000_0000) as u64
    }
}

/// The bytes of a value in a cell. A null value has none: it is marked in
/// the tuple's bitmap.
pub open spec fn value_bytes(value: TupleValueView) -> Seq<u8> {
    match value {
        TupleValueView::Null => Seq::empty(),
        TupleValueView::Bool(b) => seq![if b {
            1u8
        } else {
            0u8
        }],
        TupleValueView::Int32(v) => spec_u32_to_le_bytes(bits32(v)),
        TupleValueView::Int64(v) => spec_u64_to_le_bytes(bits64(v)),
        TupleValueView::Float32(v) => spec_u32_to_le_bytes(v),
        TupleValueView::Float64(v) => spec_u64_to_le_bytes(v),
        TupleValueView::VarBytes(bytes) => varint_bytes(bytes.len() as u64) + bytes,
    }
}

/// The number of bytes that a value of type `field_type` takes at the
/// start of `data`; `None` where the length of a value of variable length
/// does not decode.
pub open spec fn field_len(field_type: TupleFieldType, data: Seq<u8>) -> Option<int> {
    match field_type {
        TupleFieldType::Bool => Some(1),
        TupleFieldType::Int32 => Some(4),
        TupleFieldType::Int64 => Some(8),
        TupleFieldType::Float32 => Some(4),
        TupleFieldType::Float64 => Some(8),
        TupleFieldType::VarBytes => match decode_varint_spec(data) {
            Some((length, length_len)) => Some(length_len + length),
            None => None,
        },
    }
}

/// The 32-bit integer with these bits in two's complement.
pub open spec fn from_bits32(bits: u32) -> i32 {
    if bits < 0x8000_0000 {
        bits as i32
    } else {
        (bits - 0x1_0000_0000) as i32
    }
}

/// The 64-bit integer with these bits in two's complement.
pub open spec fn from_bits64(bits: u64) -> i64 {
    if bits < 0x8000_0000_0000_0000 {
        bits as i64
    } else {
        (bits - 0x1_0000_0000_0000_0000) as i64
    }
}

/// The 32-bit integer with these bits in two's complement.
pub fn int32_of_bits(bits: u32) -> (v: i32)
    ensures
        v == from_bits32(bits),
        bits32(v) == bits,
{
    if bits < 0x8000_0000 {
        bits as i32
    } else {
        (bits as i64 - 0x1_0000_0000) as i32
    }
}

/// The 64-bit integer with these bits in two's complement.
pub fn int64_of_bits(bits: u64) -> (v: i64)
    ensures
        v == from_bits64(bits),
        bits64(v) == bits,
{
    if bits < 0x8000_0000_0000_0000 {
        bits as i64
    } else {
        (bits as i128 - 0x1_0000_0000_0000_0000) as i64
    }
}

/// The bits of a 32-bit integer in two's complement.
pub fn int32_bits(v: i32) -> (bits: u32)
    ensures
        bits == bits32(v),
{
    if v >= 0 {
        v as u32
    } else {
        (v as i64 + 0x1_0000_0000) as u32
    }
}

/// The bits of a 64-bit integer in two's complement.
pub fn int64_bits(v: i64) -> (bits: u64)
    ensures
        bits == bits64(v),
{
    if v >= 0 {
        v as u64
    } else {
        (v as i128 + 0x1_0000_0000_0000_0000) as u64
    }
}

/// What a field is called and what type it has.
pub struct TupleFieldDescriptor {
    pub name: String,
    pub field_type: TupleFieldType,
}

/// The fields of a tuple, in order.
pub struct TupleDescriptor {
    pub fields: Vec<TupleFieldDescriptor>,
}

impl TupleFieldDescriptor {
    /// A field with this name and this type.
    pub fn new(name: String, field_type: TupleFieldType) -> (field: Self)
        ensures
            field.name == name,
            field.field_type == field_type,
    {
        TupleFieldDescriptor { name, field_type }
    }

    /// What the field is called.
    pub fn name(&self) -> (name: &str)
        ensures
            name@ == self.name@,
    {
        self.name.as_str()
    }

    /// The number of bytes that the field's value takes at the start of
    /// `data`. Fails where the length of a value of variable length does
    /// not decode, or is beyond what can be counted.
    pub fn value_len(&self, data: &[u8]) -> (res: Result<usize, StoreError>)
        ensures
            match res {
                Ok(len) => field_len(self.field_type, data@) == Some(len as int),
                Err(e) => e == StoreError::Corruption && (field_len(self.field_type, data@) matches Some(
                    len,
                ) ==> len > usize::MAX),
            },
    {
        match self.field_type {
            TupleFieldType::Bool => Ok(1),
            TupleFieldType::Int32 => Ok(4),
            TupleFieldType::Int64 => Ok(8),
            TupleFieldType::Float32 => Ok(4),
            TupleFieldType::Float64 => Ok(8),
            TupleFieldType::VarBytes => {
                let (length, length_len) = match decode_varint(data) {
                    Ok(pair) => pair,
                    Err(e) => {
                        return Err(e);
                    },
                };
                if length > (usize::MAX - length_len) as u64 {
                    return Err(StoreError::Corruption);
                }
                Ok(length_len + length as usize)
            },
        }
    }
}

impl TupleDescriptor {
    /// A tuple without fields.
    pub fn new() -> (descriptor: Self)
        ensures
            descriptor.fields@.len() == 0,
    {
        TupleDescriptor { fields: Vec::new() }
    }

    /// Adds a field behind the fields that are there.
    pub fn add_field(&mut self, field: TupleFieldDescriptor)
        ensures
            final(self).fields@ == old(self).fields@.push(field),
    {
        self.fields.push(field);
    }

    /// Field `field_index`.
    pub fn get_field(&self, field_index: usize) -> (field: &TupleFieldDescriptor)
        requires
            field_index < self.fields@.len(),
        ensures
            *field == self.fields@[field_index as int],
    {
        &self.fields[field_index]
    }

    /// The types of the fields.
    pub open spec fn types(&self) -> Seq<TupleFieldType> {
        self.fields@.map_values(|f: TupleFieldDescriptor| f.field_type)
    }
}

impl<'a> TupleValue<'a> {
    /// The number of bytes of the value in a cell.
    pub fn len(&self) -> (len: usize)
        requires
            value_bytes(self@).len() <= usize::MAX,
        ensures
            len == value_bytes(self@).len(),
    {
        proof {
            lemma_auto_spec_u32_to_from_le_bytes();
            lemma_auto_spec_u64_to_from_le_bytes();
        }
        match self {
            TupleValue::Null => 0,
            TupleValue::Bool(_) => 1,
            TupleValue::Int32(_) => 4,
            TupleValue::Int64(_) => 8,
            TupleValue::Float32(_) => 4,
            TupleValue::Float64(_) => 8,
            TupleValue::VarBytes(value) => {
                proof {
                    lemma_varint_bytes_len(value@.len() as u64);
                }
                varint_len(value.len() as u64) + value.len()
            },
        }
    }

    /// Appends the bytes of the value to `stream` and returns their number.
    /// A null value has no bytes and cannot be written.
    pub fn write_to_stream(&self, stream: &mut Vec<u8>) -> (res: Result<usize, StoreError>)
        requires
            value_bytes(self@).len() <= usize::MAX,
        ensures
            match res {
                Ok(written) => !(self@ is Null) && final(stream)@ == old(stream)@ + value_bytes(
                    self@,
                ) && written == value_bytes(self@).len(),
                Err(e) => self@ is Null && e == StoreError::InvalidArgument && final(stream)@
                    == old(stream)@,
            },
    {
        proof {
            lemma_auto_spec_u32_to_from_le_bytes();
            lemma_auto_spec_u64_to_from_le_bytes();
        }
        match self {
            TupleValue::Null => Err(StoreError::InvalidArgument),
            TupleValue::Bool(value) => {
                stream.push(if *value {
                    1u8
                } else {
                    0u8
                });
                assert(stream@ =~= old(stream)@ + value_bytes(self@));
                Ok(1)
            },
            TupleValue::Int32(value) => {
                append_bytes(stream, u32_to_le_bytes(int32_bits(*value)).as_slice());
                Ok(4)
            },
            TupleValue::Int64(value) => {
                append_bytes(stream, u64_to_le_bytes(int64_bits(*value)).as_slice());
                Ok(8)
            },
            TupleValue::Float32(value) => {
                append_bytes(stream, u32_to_le_bytes(*value).as_slice());
                Ok(4)
            },
            TupleValue::Float64(value) => {
                append_bytes(stream, u64_to_le_bytes(*value).as_slice());
                Ok(8)
            },
            TupleValue::VarBytes(value) => {
                proof {
                    lemma_varint_bytes_len(value@.len() as u64);
                }
                let length = value.len();
                let length_len = match encode_varint(length as u64, stream) {
                    Ok(n) => n,
                    Err(e) => {
                        assert(false);
                        return Err(e);
                    },
                };
                append_bytes(stream, value);
                assert(stream@ =~= old(stream)@ + value_bytes(self@));
                Ok(length_len + length)
            },
        }
    }
}

} // verus!
