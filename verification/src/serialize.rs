//! Numbers as bytes, little-endian.

use crate::error::StoreError;
use vstd::bytes::{
    spec_u32_from_le_bytes, spec_u32_to_le_bytes, spec_u64_from_le_bytes, spec_u64_to_le_bytes,
    u32_from_le_bytes, u32_to_le_bytes, u64_from_le_bytes, u64_to_le_bytes,
};
use vstd::prelude::*;
use vstd::slice::slice_subrange;

verus! {

/// A value that is written into the first bytes of a buffer and read from
/// them.
pub trait BinarySerializable: Sized {
    /// The bytes of the value.
    spec fn encoded(&self) -> Seq<u8>;

    /// The value that a buffer starts with; `None` where the buffer is too
    /// short.
    spec fn decoded(buffer: Seq<u8>) -> Option<Self>;

    /// Writes the value into the first bytes of `buffer`, which must have
    /// room for them.
    fn write_to(&self, buffer: &mut Vec<u8>)
        requires
            old(buffer)@.len() >= self.encoded().len(),
        ensures
            final(buffer)@ == self.encoded() + old(buffer)@.skip(self.encoded().len() as int),
    ;

    /// Reads a value from the first bytes of `buffer`.
    fn read_from(buffer: &[u8]) -> (res: Result<Self, StoreError>)
        ensures
            match res {
                Ok(value) => Self::decoded(buffer@) == Some(value),
                Err(e) => e == StoreError::Corruption && Self::decoded(buffer@) is None,
            },
    ;
}

/// Writes `bytes` over the first bytes of `buffer`.
fn overwrite_start(buffer: &mut Vec<u8>, bytes: &[u8])
    requires
        old(buffer)@.len() >= bytes@.len(),
    ensures
        final(buffer)@ == bytes@ + old(buffer)@.skip(bytes@.len() as int),
{
    let mut i: usize = 0;
    assert(buffer@ =~= bytes@.take(0) + old(buffer)@.skip(0));
    while i < bytes.len()
        invariant
            i <= bytes.len(),
            buffer@.len() == old(buffer)@.len(),
            bytes@.len() <= buffer@.len(),
            buffer@ == bytes@.take(i as int) + old(buffer)@.skip(i as int),
        decreases bytes.len() - i,
    {
        buffer.set(i, bytes[i]);
        i += 1;
        assert(buffer@ =~= bytes@.take(i as int) + old(buffer)@.skip(i as int));
    }
    assert(bytes@.take(i as int) =~= bytes@);
}

impl BinarySerializable for u64 {
    open spec fn encoded(&self) -> Seq<u8> {
        spec_u64_to_le_bytes(*self)
    }

    open spec fn decoded(buffer: Seq<u8>) -> Option<u64> {
        if buffer.len() < 8 {
            None
        } else {
            Some(spec_u64_from_le_bytes(buffer.subrange(0, 8)))
        }
    }

    fn write_to(&self, buffer: &mut Vec<u8>) {
        let bytes = u64_to_le_bytes(*self);
        overwrite_start(buffer, bytes.as_slice());
    }

    fn read_from(buffer: &[u8]) -> (res: Result<Self, StoreError>) {
        if buffer.len() < 8 {
            return Err(StoreError::Corruption);
        }
        Ok(u64_from_le_bytes(slice_subrange(buffer, 0, 8)))
    }
}

impl BinarySerializable for u32 {
    open spec fn encoded(&self) -> Seq<u8> {
        spec_u32_to_le_bytes(*self)
    }

    open spec fn decoded(buffer: Seq<u8>) -> Option<u32> {
        if buffer.len() < 4 {
            None
        } else {
            Some(spec_u32_from_le_bytes(buffer.subrange(0, 4)))
        }
    }

    fn write_to(&self, buffer: &mut Vec<u8>) {
        let bytes = u32_to_le_bytes(*self);
        overwrite_start(buffer, bytes.as_slice());
    }

    fn read_from(buffer: &[u8]) -> (res: Result<Self, StoreError>) {
        if buffer.len() < 4 {
            return Err(StoreError::Corruption);
        }
        Ok(u32_from_le_bytes(slice_subrange(buffer, 0, 4)))
    }
}

} // verus!
