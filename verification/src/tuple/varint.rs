//! Little-endian base-128 integers: seven payload bits per byte, the high bit
//! set on every byte but the last.

use crate::error::StoreError;
use vstd::arithmetic::div_mod::*;
use vstd::prelude::*;

verus! {

/// The encoding of `v`.
pub open spec fn varint_bytes(v: u64) -> Seq<u8>
    decreases v,
{
    if v < 128 {
        seq![v as u8]
    } else {
        seq![(v % 128 + 128) as u8] + varint_bytes(v / 128)
    }
}

/// How many bytes at the start of `bytes` have the continuation bit set.
pub open spec fn continuation_run(bytes: Seq<u8>) -> nat
    decreases bytes.len(),
{
    if bytes.len() == 0 || bytes[0] < 128 {
        0
    } else {
        1 + continuation_run(bytes.drop_first())
    }
}

/// The number whose base-128 digits, lowest first, are the low seven bits of
/// the first `n` bytes.
pub open spec fn varint_value(bytes: Seq<u8>, n: nat) -> nat
    decreases n,
{
    if n == 0 || bytes.len() == 0 {
        0
    } else {
        (bytes[0] % 128) as nat + 128 * varint_value(bytes.drop_first(), (n - 1) as nat)
    }
}

/// What decoding the start of `bytes` gives: the value, reduced to 64 bits,
/// and the number of bytes read; or `None` where no byte among the first ten
/// ends the number.
pub open spec fn decode_varint_spec(bytes: Seq<u8>) -> Option<(u64, usize)> {
    let run = continuation_run(bytes);
    if run < bytes.len() && run < 10 {
        Some(
            (
                (varint_value(bytes, run + 1) % 0x1_0000_0000_0000_0000) as u64,
                (run + 1) as usize,
            ),
        )
    } else {
        None
    }
}

/// An encoding has from one to ten bytes, and one byte for the numbers
/// below 128 only.
pub proof fn lemma_varint_bytes_len(v: u64)
    ensures
        1 <= varint_bytes(v).len() <= 10,
        v < 128 <==> varint_bytes(v).len() == 1,
{
    lemma_varint_bytes_len_bound(v, 10);
}

proof fn lemma_varint_bytes_len_bound(v: u64, k: nat)
    requires
        1 <= k <= 10,
        k < 10 ==> (v as int) < pow128(k),
    ensures
        1 <= varint_bytes(v).len() <= k,
        v < 128 <==> varint_bytes(v).len() == 1,
    decreases v,
{
    reveal_with_fuel(pow128, 11);
    if v >= 128 {
        lemma_varint_bytes_len_bound(v / 128, (k - 1) as nat);
    }
}

spec fn pow128(k: nat) -> int
    decreases k,
{
    if k == 0 {
        1
    } else {
        128 * pow128((k - 1) as nat)
    }
}

/// Length of the encoding of `value`.
pub fn varint_len(value: u64) -> (len: usize)
    ensures
        len == varint_bytes(value).len(),
        1 <= len <= 10,
{
    let mut len: usize = 0;
    let mut rest: u64 = value;
    proof {
        lemma_varint_bytes_len(value);
    }
    while rest >= 0x80
        invariant
            varint_bytes(value).len() == len + varint_bytes(rest).len(),
            len + varint_bytes(rest).len() <= 10,
        decreases rest,
    {
        len += 1;
        rest = rest / 128;
    }
    len + 1
}

/// Appends the encoding of `value` to `stream` and returns its length.
pub fn encode_varint(value: u64, stream: &mut Vec<u8>) -> (written: Result<usize, StoreError>)
    ensures
        final(stream)@ == old(stream)@ + varint_bytes(value),
        written == Ok::<usize, StoreError>(varint_bytes(value).len() as usize),
{
    let mut bytes_written: usize = 0;
    let mut rest: u64 = value;
    proof {
        lemma_varint_bytes_len(value);
    }
    while rest >= 0x80
        invariant
            stream@ + varint_bytes(rest) == old(stream)@ + varint_bytes(value),
            varint_bytes(value).len() == bytes_written + varint_bytes(rest).len(),
            bytes_written + varint_bytes(rest).len() <= 10,
        decreases rest,
    {
        let ghost before = stream@;
        stream.push((rest % 128 + 128) as u8);
        bytes_written += 1;
        assert(stream@ + varint_bytes(rest / 128) =~= before + varint_bytes(rest));
        rest = rest / 128;
    }
    let ghost before = stream@;
    stream.push(rest as u8);
    assert(stream@ =~= before + varint_bytes(rest));
    Ok(bytes_written + 1)
}

/// Reads one number from the start of `bytes`: its value and the number of
/// bytes it took. Fails where the input ends, or ten bytes have passed,
/// before a byte without the continuation bit.
pub fn decode_varint(bytes: &[u8]) -> (decoded: Result<(u64, usize), StoreError>)
    ensures
        match decode_varint_spec(bytes@) {
            Some(pair) => decoded == Ok::<(u64, usize), StoreError>(pair),
            None => decoded == Err::<(u64, usize), StoreError>(StoreError::Corruption),
        },
{
    let mut end: usize = 0;
    assert(bytes@.skip(0) =~= bytes@);
    loop
        invariant_except_break
            end <= bytes.len(),
            end <= 9,
            continuation_run(bytes@) == end + continuation_run(bytes@.skip(end as int)),
        ensures
            end < bytes.len(),
            end <= 9,
            continuation_run(bytes@) == end,
        decreases 10 - end,
    {
        if end >= bytes.len() {
            return Err(StoreError::Corruption);
        }
        if bytes[end] < 0x80 {
            break ;
        }
        assert(bytes@.skip(end as int).drop_first() =~= bytes@.skip(end as int + 1));
        if end == 9 {
            proof {
                let tail = bytes@.skip(end as int + 1);
                assert(continuation_run(tail) >= 0);
            }
            return Err(StoreError::Corruption);
        }
        end += 1;
    }
    let count: usize = end + 1;
    let mut value: u64 = 0;
    let mut i: usize = count;
    assert(bytes@.skip(count as int).len() == bytes@.len() - count);
    while i > 0
        invariant
            i <= count <= bytes.len(),
            value as nat == varint_value(bytes@.skip(i as int), (count - i) as nat)
                % 0x1_0000_0000_0000_0000,
        decreases i,
    {
        i -= 1;
        let digit: u64 = (bytes[i] % 128) as u64;
        let ghost prev = varint_value(bytes@.skip(i as int + 1), (count - i - 1) as nat);
        proof {
            assert(bytes@.skip(i as int).drop_first() =~= bytes@.skip(i as int + 1));
            assert(bytes@.skip(i as int)[0] == bytes@[i as int]);
            assert(varint_value(bytes@.skip(i as int), (count - i) as nat) == digit + 128 * prev);
            lemma_mul_mod_noop_right(128, prev as int, 0x1_0000_0000_0000_0000);
            lemma_add_mod_noop_right(
                digit as int,
                128 * (prev as int),
                0x1_0000_0000_0000_0000,
            );
            lemma_add_mod_noop_right(
                digit as int,
                128 * (value as int),
                0x1_0000_0000_0000_0000,
            );
        }
        value = value.wrapping_mul(128).wrapping_add(digit);
    }
    assert(bytes@.skip(0) =~= bytes@);
    Ok((value, count))
}

/// Decoding the encoding of `v`, whatever follows it, gives `v` back and
/// stops right behind it.
pub proof fn lemma_varint_round_trip(v: u64, rest: Seq<u8>)
    ensures
        decode_varint_spec(varint_bytes(v) + rest) == Some((v, varint_bytes(v).len() as usize)),
{
    lemma_varint_bytes_len(v);
    lemma_varint_decode_parts(v, rest, 10);
    assert((v as nat) % 0x1_0000_0000_0000_0000 == v as nat);
}

proof fn lemma_varint_decode_parts(v: u64, rest: Seq<u8>, k: nat)
    requires
        varint_bytes(v).len() <= k,
    ensures
        continuation_run(varint_bytes(v) + rest) == varint_bytes(v).len() - 1,
        varint_value(varint_bytes(v) + rest, varint_bytes(v).len()) == v as nat,
    decreases v,
{
    let all = varint_bytes(v) + rest;
    if v < 128 {
        assert(all[0] == v as u8);
        assert(varint_value(all.drop_first(), 0) == 0);
    } else {
        let tail = varint_bytes(v / 128);
        lemma_varint_bytes_len(v / 128);
        lemma_varint_decode_parts(v / 128, rest, (k - 1) as nat);
        assert(all.drop_first() =~= tail + rest);
        assert(all[0] == (v % 128 + 128) as u8);
        assert(all[0] % 128 == v % 128);
    }
}

} // verus!
