//! The manifest: the ids of the runs that are live, in ASCII decimal, one
//! on each line.

use vstd::prelude::*;

verus! {

/// The byte that ends a line.
pub const NEWLINE: u8 = 10;

/// `n` in ASCII decimal.
pub open spec fn decimal(n: u64) -> Seq<u8>
    decreases n,
{
    if n < 10 {
        seq![(48 + n) as u8]
    } else {
        decimal(n / 10).push((48 + n % 10) as u8)
    }
}

/// The number that a string of ASCII digits stands for; `None` where the
/// string is empty or holds a byte that is not a digit.
pub open spec fn digits_value(digits: Seq<u8>) -> Option<nat>
    decreases digits.len(),
{
    if digits.len() == 0 {
        None
    } else if !(48 <= digits.last() <= 57) {
        None
    } else if digits.len() == 1 {
        Some((digits.last() - 48) as nat)
    } else {
        match digits_value(digits.drop_last()) {
            Some(v) => Some(v * 10 + (digits.last() - 48) as nat),
            None => None,
        }
    }
}

/// The id on a line: the line is a string of digits whose number fits in
/// 64 bits. Every other line holds no id.
pub open spec fn line_value(line: Seq<u8>) -> Option<u64> {
    match digits_value(line) {
        Some(v) => if v <= u64::MAX {
            Some(v as u64)
        } else {
            None
        },
        None => None,
    }
}

/// Length of the first line: up to the first newline.
pub open spec fn first_line_len(bytes: Seq<u8>) -> int
    decreases bytes.len(),
{
    if bytes.len() == 0 || bytes[0] == NEWLINE {
        0
    } else {
        1 + first_line_len(bytes.drop_first())
    }
}

/// The ids in a manifest: those of its lines that hold one, in order.
pub open spec fn parse_manifest(bytes: Seq<u8>) -> Seq<u64>
    decreases bytes.len(),
{
    if bytes.len() == 0 {
        Seq::empty()
    } else {
        let n = first_line_len(bytes);
        let here = match line_value(bytes.take(n)) {
            Some(v) => seq![v],
            None => Seq::empty(),
        };
        if 0 <= n < bytes.len() {
            here + parse_manifest(bytes.skip(n + 1))
        } else {
            here
        }
    }
}

/// The manifest of some ids: one on each line, no newline behind the last.
pub open spec fn manifest_bytes(ids: Seq<u64>) -> Seq<u8>
    decreases ids.len(),
{
    if ids.len() == 0 {
        Seq::empty()
    } else if ids.len() == 1 {
        decimal(ids[0])
    } else {
        decimal(ids[0]) + seq![NEWLINE] + manifest_bytes(ids.drop_first())
    }
}

/// The first line ends where the first newline is.
pub proof fn lemma_first_line_at(bytes: Seq<u8>, n: int)
    requires
        0 <= n <= bytes.len(),
        forall|i: int| 0 <= i < n ==> bytes[i] != NEWLINE,
        n < bytes.len() ==> bytes[n] == NEWLINE,
    ensures
        first_line_len(bytes) == n,
    decreases bytes.len(),
{
    if n > 0 {
        assert(bytes[0] != NEWLINE);
        let rest = bytes.drop_first();
        assert forall|i: int| 0 <= i < n - 1 implies rest[i] != NEWLINE by {
            assert(rest[i] == bytes[i + 1]);
        }
        lemma_first_line_at(rest, n - 1);
    }
}

/// A number in decimal is a string of digits that stands for the number.
pub proof fn lemma_decimal(n: u64)
    ensures
        decimal(n).len() >= 1,
        digits_value(decimal(n)) == Some(n as nat),
        forall|i: int| 0 <= i < decimal(n).len() ==> 48 <= #[trigger] decimal(n)[i] <= 57,
    decreases n,
{
    if n >= 10 {
        lemma_decimal(n / 10);
        let d = decimal(n);
        assert(d.drop_last() =~= decimal(n / 10));
        assert(d.last() == (48 + n % 10) as u8);
    }
}

/// Reading the manifest of some ids gives the ids back.
pub proof fn lemma_manifest_round_trip(ids: Seq<u64>)
    ensures
        parse_manifest(manifest_bytes(ids)) == ids,
    decreases ids.len(),
{
    if ids.len() == 0 {
        assert(parse_manifest(manifest_bytes(ids)) =~= ids);
    } else {
        let first = decimal(ids[0]);
        lemma_decimal(ids[0]);
        let bytes = manifest_bytes(ids);
        let n = first.len() as int;
        if ids.len() == 1 {
            assert(bytes == first);
            lemma_first_line_at(bytes, n);
            assert(bytes.take(n) =~= first);
            assert(parse_manifest(bytes) =~= ids);
        } else {
            let rest = manifest_bytes(ids.drop_first());
            assert(bytes == first + seq![NEWLINE] + rest);
            assert forall|i: int| 0 <= i < n implies bytes[i] != NEWLINE by {
                assert(bytes[i] == first[i]);
            }
            assert(bytes[n] == NEWLINE);
            lemma_first_line_at(bytes, n);
            assert(bytes.take(n) =~= first);
            assert(bytes.skip(n + 1) =~= rest);
            lemma_manifest_round_trip(ids.drop_first());
            assert(seq![ids[0]] + ids.drop_first() =~= ids);
        }
    }
}

/// Appends `n` in ASCII decimal to `out`.
pub fn write_decimal(n: u64, out: &mut Vec<u8>)
    ensures
        final(out)@ == old(out)@ + decimal(n),
{
    let mut digits: Vec<u8> = Vec::new();
    let mut rest: u64 = n;
    assert(decimal(rest) + digits@.reverse() =~= decimal(n));
    // The digits from the last to the first.
    while rest >= 10
        invariant
            decimal(n) == decimal(rest) + digits@.reverse(),
        decreases rest,
    {
        let digit: u8 = (48 + rest % 10) as u8;
        proof {
            let before = digits@;
            assert(before.push(digit).reverse() =~= seq![digit] + before.reverse());
            assert(decimal(rest) == decimal((rest / 10) as u64).push(digit));
            assert(decimal((rest / 10) as u64).push(digit) + before.reverse() =~= decimal(
                (rest / 10) as u64,
            ) + (seq![digit] + before.reverse()));
        }
        digits.push(digit);
        rest = rest / 10;
    }
    let ghost start = out@;
    out.push((48 + rest) as u8);
    let ghost head = decimal(rest);
    assert(out@ =~= start + head);
    let mut i: usize = digits.len();
    while i > 0
        invariant
            i <= digits.len(),
            out@ == start + head + digits@.reverse().take(digits.len() - i),
        decreases i,
    {
        i -= 1;
        let ghost before = out@;
        out.push(digits[i]);
        proof {
            let r = digits@.reverse();
            let k = digits.len() - i - 1;
            assert(r[k] == digits@[i as int]);
            assert(r.take(k + 1) =~= r.take(k).push(r[k]));
            assert(out@ =~= start + head + r.take(k + 1));
        }
    }
    proof {
        let r = digits@.reverse();
        assert(r.take(digits.len() as int) =~= r);
        assert(start + head + r =~= start + (head + r));
    }
}

/// The manifest of `ids`.
pub fn render_manifest(ids: &Vec<u64>) -> (bytes: Vec<u8>)
    ensures
        bytes@ == manifest_bytes(ids@),
{
    let mut out: Vec<u8> = Vec::new();
    let mut i: usize = ids.len();
    // From the last id to the first, each put before what is there.
    let mut done: Vec<u8> = Vec::new();
    assert(ids@.skip(ids.len() as int) =~= Seq::<u64>::empty());
    while i > 0
        invariant
            i <= ids.len(),
            done@ == manifest_bytes(ids@.skip(i as int)),
        decreases i,
    {
        i -= 1;
        let mut line: Vec<u8> = Vec::new();
        write_decimal(ids[i], &mut line);
        assert(line@ =~= decimal(ids@[i as int]));
        let ghost tail = ids@.skip(i as int + 1);
        proof {
            assert(ids@.skip(i as int).drop_first() =~= tail);
            assert(ids@.skip(i as int)[0] == ids@[i as int]);
        }
        if i + 1 < ids.len() {
            line.push(NEWLINE);
            crate::bytes::append_bytes(&mut line, done.as_slice());
            assert(line@ =~= decimal(ids@[i as int]) + seq![NEWLINE] + done@);
        } else {
            assert(ids@.skip(i as int).len() == 1);
        }
        done = line;
    }
    assert(ids@.skip(0) =~= ids@);
    out = done;
    out
}

/// The id on a line, if it holds one.
pub fn parse_line(line: &[u8]) -> (id: Option<u64>)
    ensures
        id == line_value(line@),
{
    if line.len() == 0 {
        return None;
    }
    let mut value: u64 = 0;
    let mut i: usize = 0;
    let mut overflow: bool = false;
    while i < line.len()
        invariant
            i <= line.len(),
            i == 0 ==> value == 0 && !overflow,
            i > 0 ==> digits_value(line@.take(i as int)) is Some,
            i > 0 && !overflow ==> digits_value(line@.take(i as int)) == Some(value as nat),
            i > 0 && overflow ==> digits_value(line@.take(i as int)).unwrap() > u64::MAX,
        decreases line.len() - i,
    {
        let byte: u8 = line[i];
        let ghost prefix = line@.take(i as int + 1);
        proof {
            assert(prefix.drop_last() =~= line@.take(i as int));
            assert(prefix.last() == byte);
        }
        if byte < 48 || byte > 57 {
            proof {
                lemma_bad_digit(line@, i as int);
            }
            return None;
        }
        let digit: u64 = (byte - 48) as u64;
        proof {
            if i > 0 {
                let v = digits_value(line@.take(i as int)).unwrap();
                assert(digits_value(prefix) == Some(v * 10 + digit as nat));
                if overflow {
                    assert(v * 10 + digit > u64::MAX) by (nonlinear_arith)
                        requires
                            v > u64::MAX,
                            digit >= 0,
                    ;
                }
            } else {
                assert(digits_value(prefix) == Some(digit as nat));
            }
        }
        if !overflow {
            if value > (u64::MAX - digit) / 10 {
                assert(value * 10 + digit > u64::MAX) by (nonlinear_arith)
                    requires
                        value > (u64::MAX - digit) / 10,
                        0 <= digit <= 9,
                ;
                overflow = true;
            } else {
                assert(value * 10 + digit <= u64::MAX) by (nonlinear_arith)
                    requires
                        value <= (u64::MAX - digit) / 10,
                        0 <= digit <= 9,
                ;
                value = value * 10 + digit;
            }
        }
        i += 1;
    }
    assert(line@.take(i as int) =~= line@);
    if overflow {
        None
    } else {
        Some(value)
    }
}

/// A string with a byte that is not a digit stands for no number.
proof fn lemma_bad_digit(line: Seq<u8>, i: int)
    requires
        0 <= i < line.len(),
        !(48 <= line[i] <= 57),
    ensures
        digits_value(line) is None,
    decreases line.len(),
{
    if i < line.len() - 1 {
        lemma_bad_digit(line.drop_last(), i);
    }
}

/// The ids in a manifest.
pub fn read_manifest(bytes: &[u8]) -> (ids: Vec<u64>)
    ensures
        ids@ == parse_manifest(bytes@),
{
    let mut ids: Vec<u64> = Vec::new();
    let mut start: usize = 0;
    assert(bytes@.skip(0) =~= bytes@);
    assert(ids@ + parse_manifest(bytes@) =~= parse_manifest(bytes@));
    while start < bytes.len()
        invariant
            start <= bytes.len(),
            ids@ + parse_manifest(bytes@.skip(start as int)) == parse_manifest(bytes@),
        decreases bytes.len() - start,
    {
        let ghost rest = bytes@.skip(start as int);
        let mut end: usize = start;
        while end < bytes.len() && bytes[end] != NEWLINE
            invariant
                start <= end <= bytes.len(),
                forall|i: int| start <= i < end ==> bytes@[i] != NEWLINE,
            decreases bytes.len() - end,
        {
            end += 1;
        }
        let line = vstd::slice::slice_subrange(bytes, start, end);
        let ghost found = ids@;
        proof {
            let n = end - start;
            assert forall|i: int| 0 <= i < n implies rest[i] != NEWLINE by {
                assert(rest[i] == bytes@[start + i]);
            }
            lemma_first_line_at(rest, n as int);
            assert(rest.take(n as int) =~= line@);
        }
        match parse_line(line) {
            Some(id) => {
                ids.push(id);
            },
            None => {},
        }
        proof {
            let n = end - start;
            let here = match line_value(line@) {
                Some(v) => seq![v],
                None => Seq::<u64>::empty(),
            };
            assert(ids@ =~= found + here);
            if end < bytes.len() {
                assert(rest.skip(n + 1) =~= bytes@.skip(end as int + 1));
                assert(found + (here + parse_manifest(rest.skip(n + 1))) =~= (found + here)
                    + parse_manifest(rest.skip(n + 1)));
            } else {
                assert(bytes@.skip(bytes.len() as int) =~= Seq::<u8>::empty());
                assert(found + here + Seq::<u64>::empty() =~= found + here);
            }
        }
        if end < bytes.len() {
            start = end + 1;
        } else {
            start = end;
        }
    }
    proof {
        assert(bytes@.skip(start as int) =~= Seq::<u8>::empty());
        assert(ids@ + Seq::<u64>::empty() =~= ids@);
    }
    ids
}

} // verus!
