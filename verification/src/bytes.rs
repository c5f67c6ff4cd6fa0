//! Byte strings: lexicographic order, comparison and copying.

use vstd::prelude::*;
use vstd::slice::slice_subrange;

verus! {

/// Lexicographic order on byte strings: at the first position where they
/// differ the smaller byte decides, and a proper prefix comes first.
pub open spec fn bytes_lt(a: Seq<u8>, b: Seq<u8>) -> bool
    decreases a.len(),
{
    if b.len() == 0 {
        false
    } else if a.len() == 0 {
        true
    } else if a[0] != b[0] {
        a[0] < b[0]
    } else {
        bytes_lt(a.drop_first(), b.drop_first())
    }
}

/// Lexicographic order, or equality.
pub open spec fn bytes_le(a: Seq<u8>, b: Seq<u8>) -> bool {
    a == b || bytes_lt(a, b)
}

/// How two byte strings compare.
#[derive(Clone, Copy, Debug, PartialEq, Eq, Structural)]
pub enum ByteOrder {
    Less,
    Equal,
    Greater,
}

/// No byte string is smaller than itself.
pub proof fn lemma_bytes_lt_irreflexive(a: Seq<u8>)
    ensures
        !bytes_lt(a, a),
    decreases a.len(),
{
    if a.len() > 0 {
        lemma_bytes_lt_irreflexive(a.drop_first());
    }
}

/// Of two byte strings not each is smaller than the other.
pub proof fn lemma_bytes_lt_asymmetric(a: Seq<u8>, b: Seq<u8>)
    requires
        bytes_lt(a, b),
    ensures
        !bytes_lt(b, a),
        a != b,
    decreases a.len(),
{
    lemma_bytes_lt_irreflexive(a);
    if a.len() > 0 && b.len() > 0 && a[0] == b[0] {
        lemma_bytes_lt_asymmetric(a.drop_first(), b.drop_first());
    }
}

/// What is smaller than the smaller is smaller.
pub proof fn lemma_bytes_lt_transitive(a: Seq<u8>, b: Seq<u8>, c: Seq<u8>)
    requires
        bytes_lt(a, b),
        bytes_lt(b, c),
    ensures
        bytes_lt(a, c),
    decreases a.len(),
{
    if a.len() > 0 && b.len() > 0 && c.len() > 0 && a[0] == b[0] && b[0] == c[0] {
        lemma_bytes_lt_transitive(a.drop_first(), b.drop_first(), c.drop_first());
    }
}

/// Of two byte strings exactly one holds: the first is smaller, they are
/// equal, or the second is smaller.
pub proof fn lemma_bytes_lt_total(a: Seq<u8>, b: Seq<u8>)
    ensures
        bytes_lt(a, b) || a == b || bytes_lt(b, a),
    decreases a.len(),
{
    if a.len() > 0 && b.len() > 0 && a[0] == b[0] {
        lemma_bytes_lt_total(a.drop_first(), b.drop_first());
        if a.drop_first() == b.drop_first() {
            assert(a =~= seq![a[0]] + a.drop_first());
            assert(b =~= seq![b[0]] + b.drop_first());
        }
    } else if a.len() == 0 && b.len() == 0 {
        assert(a =~= b);
    }
}

/// What is not greater than the smaller is smaller.
pub proof fn lemma_bytes_le_lt_transitive(a: Seq<u8>, b: Seq<u8>, c: Seq<u8>)
    requires
        bytes_le(a, b),
        bytes_lt(b, c),
    ensures
        bytes_lt(a, c),
{
    if a != b {
        lemma_bytes_lt_transitive(a, b, c);
    }
}

/// What is smaller than what is not greater is smaller.
pub proof fn lemma_bytes_lt_le_transitive(a: Seq<u8>, b: Seq<u8>, c: Seq<u8>)
    requires
        bytes_lt(a, b),
        bytes_le(b, c),
    ensures
        bytes_lt(a, c),
{
    if b != c {
        lemma_bytes_lt_transitive(a, b, c);
    }
}

/// Compares two byte strings lexicographically.
pub fn bytes_compare(a: &[u8], b: &[u8]) -> (order: ByteOrder)
    ensures
        order == ByteOrder::Less <==> bytes_lt(a@, b@),
        order == ByteOrder::Equal <==> a@ == b@,
        order == ByteOrder::Greater <==> bytes_lt(b@, a@),
{
    let mut i: usize = 0;
    proof {
        assert(a@.skip(0) =~= a@);
        assert(b@.skip(0) =~= b@);
    }
    while i < a.len() && i < b.len()
        invariant
            i <= a.len(),
            i <= b.len(),
            a@.take(i as int) == b@.take(i as int),
            bytes_lt(a@, b@) == bytes_lt(a@.skip(i as int), b@.skip(i as int)),
            bytes_lt(b@, a@) == bytes_lt(b@.skip(i as int), a@.skip(i as int)),
        decreases a.len() - i,
    {
        let x: u8 = a[i];
        let y: u8 = b[i];
        proof {
            assert(a@.skip(i as int).drop_first() =~= a@.skip(i as int + 1));
            assert(b@.skip(i as int).drop_first() =~= b@.skip(i as int + 1));
            assert(a@.skip(i as int)[0] == x);
            assert(b@.skip(i as int)[0] == y);
        }
        if x < y {
            proof {
                lemma_bytes_lt_asymmetric(a@, b@);
            }
            return ByteOrder::Less;
        }
        if x > y {
            proof {
                lemma_bytes_lt_asymmetric(b@, a@);
            }
            return ByteOrder::Greater;
        }
        assert(a@.take(i as int + 1) =~= a@.take(i as int).push(x));
        assert(b@.take(i as int + 1) =~= b@.take(i as int).push(y));
        i += 1;
    }
    if i < b.len() {
        proof {
            assert(a@.skip(i as int).len() == 0);
            lemma_bytes_lt_asymmetric(a@, b@);
        }
        ByteOrder::Less
    } else if i < a.len() {
        proof {
            assert(b@.skip(i as int).len() == 0);
            lemma_bytes_lt_asymmetric(b@, a@);
        }
        ByteOrder::Greater
    } else {
        proof {
            assert(a@.take(i as int) =~= a@);
            assert(b@.take(i as int) =~= b@);
            lemma_bytes_lt_irreflexive(a@);
        }
        ByteOrder::Equal
    }
}

/// Whether two byte strings hold the same bytes.
pub fn bytes_equal(a: &[u8], b: &[u8]) -> (same: bool)
    ensures
        same == (a@ == b@),
{
    if a.len() != b.len() {
        return false;
    }
    let mut i: usize = 0;
    while i < a.len()
        invariant
            i <= a.len(),
            a.len() == b.len(),
            a@.take(i as int) == b@.take(i as int),
        decreases a.len() - i,
    {
        if a[i] != b[i] {
            return false;
        }
        assert(a@.take(i as int + 1) =~= a@.take(i as int).push(a@[i as int]));
        assert(b@.take(i as int + 1) =~= b@.take(i as int).push(b@[i as int]));
        i += 1;
    }
    proof {
        assert(a@.take(i as int) =~= a@);
        assert(b@.take(i as int) =~= b@);
    }
    true
}

/// Appends `src` to `dst`.
pub fn append_bytes(dst: &mut Vec<u8>, src: &[u8])
    ensures
        final(dst)@ == old(dst)@ + src@,
{
    let mut i: usize = 0;
    while i < src.len()
        invariant
            i <= src.len(),
            dst@ == old(dst)@ + src@.take(i as int),
        decreases src.len() - i,
    {
        let ghost before = dst@;
        dst.push(src[i]);
        assert(dst@ =~= old(dst)@ + src@.take(i as int + 1));
        i += 1;
    }
    assert(src@.take(i as int) =~= src@);
}

/// A fresh vector holding `src[from..to]`.
pub fn copy_range(src: &[u8], from: usize, to: usize) -> (out: Vec<u8>)
    requires
        from <= to <= src.len(),
    ensures
        out@ == src@.subrange(from as int, to as int),
{
    vstd::slice::slice_to_vec(slice_subrange(src, from, to))
}

/// A vector of `n` zero bytes.
pub fn zero_bytes(n: usize) -> (out: Vec<u8>)
    ensures
        out@ == Seq::new(n as nat, |i: int| 0u8),
{
    let mut out: Vec<u8> = Vec::new();
    let mut i: usize = 0;
    while i < n
        invariant
            i <= n,
            out@ == Seq::new(i as nat, |j: int| 0u8),
        decreases n - i,
    {
        out.push(0u8);
        i += 1;
        assert(out@ =~= Seq::new(i as nat, |j: int| 0u8));
    }
    out
}

} // verus!
