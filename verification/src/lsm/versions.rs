//! The versions of a store in layers: how the sequence numbers of the
//! in-memory table and of the runs lie to one another, and what follows
//! for the versions of one key.

use crate::lsm::lsm::runs_matching;
use crate::lsm::memtable::{lemma_position_exists, position, same_version, seqs_below, with_entry};
use crate::lsm::sstable::{entries_sorted, matching};
use crate::lsm::types::{entry_lt, EntryView};
use vstd::prelude::*;

verus! {

/// Whether the versions lie in layers under `bound`: every sequence number
/// is below `bound`; every entry of the table is newer than every entry of
/// the runs; and every entry of a run is newer than every entry of the
/// runs behind it.
pub open spec fn layered(table: Seq<EntryView>, runs: Seq<Seq<EntryView>>, bound: u64) -> bool {
    &&& seqs_below(table, bound)
    &&& forall|i: int| 0 <= i < runs.len() ==> seqs_below(#[trigger] runs[i], bound)
    &&& forall|i: int| 0 <= i < runs.len() ==> above(table, #[trigger] runs[i])
    &&& forall|i: int, j: int|
        0 <= i < j < runs.len() ==> above(#[trigger] runs[i], #[trigger] runs[j])
}

/// Whether every entry of `newer` has a higher sequence number than every
/// entry of `older`.
pub open spec fn above(newer: Seq<EntryView>, older: Seq<EntryView>) -> bool {
    forall|a: int, b: int|
        0 <= a < newer.len() && 0 <= b < older.len() ==> (#[trigger] newer[a]).seq_num > (
        #[trigger] older[b]).seq_num
}

/// Whether the sequence numbers go down from each entry to the next.
pub open spec fn seqs_descend(entries: Seq<EntryView>) -> bool {
    forall|x: int, y: int|
        0 <= x < y < entries.len() ==> (#[trigger] entries[x]).seq_num > (
        #[trigger] entries[y]).seq_num
}

/// Every entry of a table with an entry put in is that entry or an entry
/// of the table.
pub proof fn lemma_with_entry_members(table: Seq<EntryView>, e: EntryView)
    requires
        entries_sorted(table),
    ensures
        forall|j: int|
            0 <= j < with_entry(table, e).len() ==> (#[trigger] with_entry(table, e)[j]) == e
                || table.contains(with_entry(table, e)[j]),
{
    lemma_position_exists(table, e);
    let i = position(table, e);
    let after = with_entry(table, e);
    assert forall|j: int| 0 <= j < after.len() implies (#[trigger] after[j]) == e || table.contains(
        after[j],
    ) by {
        if same_version(table, i, e) {
            if j != i {
                assert(after[j] == table[j]);
            }
        } else {
            if j < i {
                assert(after[j] == table[j]);
            } else if j > i {
                assert(after[j] == table[j - 1]);
            }
        }
    }
}

/// A write with the next sequence number keeps the versions in layers,
/// under the number that comes next.
pub proof fn lemma_write_keeps_layers(
    table: Seq<EntryView>,
    runs: Seq<Seq<EntryView>>,
    bound: u64,
    e: EntryView,
)
    requires
        entries_sorted(table),
        layered(table, runs, bound),
        e.seq_num == bound,
        bound < u64::MAX,
    ensures
        layered(with_entry(table, e), runs, (bound + 1) as u64),
{
    let after = with_entry(table, e);
    let next = (bound + 1) as u64;
    lemma_with_entry_members(table, e);
    assert forall|j: int| 0 <= j < after.len() implies (#[trigger] after[j]).seq_num < next by {
        if after[j] != e {
            let a = choose|a: int| 0 <= a < table.len() && table[a] == after[j];
            assert(table[a].seq_num < bound);
        }
    }
    assert forall|i: int| 0 <= i < runs.len() implies seqs_below(#[trigger] runs[i], next) by {
        assert(seqs_below(runs[i], bound));
    }
    assert forall|i: int| 0 <= i < runs.len() implies above(after, #[trigger] runs[i]) by {
        assert(seqs_below(runs[i], bound));
        assert(above(table, runs[i]));
        assert forall|a: int, b: int| 0 <= a < after.len() && 0 <= b < runs[i].len() implies (
        #[trigger] after[a]).seq_num > (#[trigger] runs[i][b]).seq_num by {
            if after[a] != e {
                let t = choose|t: int| 0 <= t < table.len() && table[t] == after[a];
                assert(table[t].seq_num > runs[i][b].seq_num);
            }
        }
    }
}

/// A flush keeps the versions in layers: the table becomes the newest run.
pub proof fn lemma_flush_keeps_layers(
    table: Seq<EntryView>,
    runs: Seq<Seq<EntryView>>,
    bound: u64,
)
    requires
        layered(table, runs, bound),
    ensures
        layered(Seq::empty(), seq![table] + runs, bound),
{
    let after = seq![table] + runs;
    let none = Seq::<EntryView>::empty();
    assert forall|i: int| 0 <= i < after.len() implies seqs_below(#[trigger] after[i], bound) by {
        if i > 0 {
            assert(after[i] == runs[i - 1]);
        }
    }
    assert forall|i: int| 0 <= i < after.len() implies above(none, #[trigger] after[i]) by {}
    assert forall|i: int, j: int| 0 <= i < j < after.len() implies above(
        #[trigger] after[i],
        #[trigger] after[j],
    ) by {
        assert(after[j] == runs[j - 1]);
        if i > 0 {
            assert(after[i] == runs[i - 1]);
        }
    }
}

/// The versions of a key in entries that stand in their order are among
/// the entries, and their sequence numbers go down from each to the next.
pub proof fn lemma_matching_descends(entries: Seq<EntryView>, key: Seq<u8>)
    requires
        entries_sorted(entries),
    ensures
        seqs_descend(matching(entries, key)),
        forall|x: int|
            0 <= x < matching(entries, key).len() ==> entries.contains(
                #[trigger] matching(entries, key)[x],
            ) && matching(entries, key)[x].key == key,
    decreases entries.len(),
{
    if entries.len() > 0 {
        let front = entries.drop_last();
        let last = entries.last();
        let n = front.len() as int;
        assert forall|i: int, j: int| 0 <= i < j < front.len() implies entry_lt(
            #[trigger] front[i],
            #[trigger] front[j],
        ) by {
            assert(front[i] == entries[i]);
            assert(front[j] == entries[j]);
        }
        lemma_matching_descends(front, key);
        let found = matching(entries, key);
        let before = matching(front, key);
        assert forall|x: int| 0 <= x < found.len() implies entries.contains(#[trigger] found[x])
            && found[x].key == key by {
            if x < before.len() {
                assert(found[x] == before[x]);
                let a = choose|a: int| 0 <= a < front.len() && front[a] == before[x];
                assert(entries[a] == found[x]);
            } else {
                assert(entries[n] == found[x]);
            }
        }
        assert forall|x: int, y: int| 0 <= x < y < found.len() implies (#[trigger] found[x]).seq_num
            > (#[trigger] found[y]).seq_num by {
            assert(found[x] == before[x]);
            if y < before.len() {
                assert(found[y] == before[y]);
            } else {
                let a = choose|a: int| 0 <= a < front.len() && front[a] == before[x];
                assert(entry_lt(entries[a], entries[n]));
                crate::bytes::lemma_bytes_lt_irreflexive(key);
            }
        }
    }
}

/// Where the versions lie in layers, the versions of a key, taken from the
/// table and then from the first `n` runs, stand from the newest to the
/// oldest: their sequence numbers go down from each to the next, and each
/// is newer than every entry of the runs behind the first `n`.
pub proof fn lemma_versions_descend(
    table: Seq<EntryView>,
    runs: Seq<Seq<EntryView>>,
    bound: u64,
    key: Seq<u8>,
    n: int,
)
    requires
        entries_sorted(table),
        forall|i: int| 0 <= i < runs.len() ==> entries_sorted(#[trigger] runs[i]),
        layered(table, runs, bound),
        0 <= n <= runs.len(),
    ensures
        seqs_descend(matching(table, key) + runs_matching(runs.take(n), key)),
        forall|x: int|
            0 <= x < (matching(table, key) + runs_matching(runs.take(n), key)).len() ==> (
            #[trigger] (matching(table, key) + runs_matching(runs.take(n), key))[x]).key == key,
        forall|m: int|
            n <= m < runs.len() ==> above(
                matching(table, key) + runs_matching(runs.take(n), key),
                #[trigger] runs[m],
            ),
    decreases n,
{
    let all = matching(table, key) + runs_matching(runs.take(n), key);
    if n == 0 {
        assert(runs.take(0) =~= Seq::<Seq<EntryView>>::empty());
        assert(all =~= matching(table, key));
        lemma_matching_descends(table, key);
        assert forall|m: int| n <= m < runs.len() implies above(all, #[trigger] runs[m]) by {
            assert(above(table, runs[m]));
            assert forall|a: int, b: int| 0 <= a < all.len() && 0 <= b < runs[m].len() implies (
            #[trigger] all[a]).seq_num > (#[trigger] runs[m][b]).seq_num by {
                let t = choose|t: int| 0 <= t < table.len() && table[t] == all[a];
                assert(table[t].seq_num > runs[m][b].seq_num);
            }
        }
    } else {
        lemma_versions_descend(table, runs, bound, key, n - 1);
        let run = runs[n - 1];
        let prev = matching(table, key) + runs_matching(runs.take(n - 1), key);
        let here = matching(run, key);
        assert(runs.take(n).drop_last() =~= runs.take(n - 1));
        assert(runs.take(n).last() == run);
        assert(all =~= prev + here);
        lemma_matching_descends(run, key);
        assert(above(prev, run));
        assert forall|x: int, y: int| 0 <= x < y < all.len() implies (#[trigger] all[x]).seq_num > (
        #[trigger] all[y]).seq_num by {
            if y < prev.len() {
                assert(all[x] == prev[x] && all[y] == prev[y]);
            } else if x < prev.len() {
                let b = choose|b: int| 0 <= b < run.len() && run[b] == here[y - prev.len()];
                assert(prev[x].seq_num > run[b].seq_num);
            } else {
                assert(all[x] == here[x - prev.len()] && all[y] == here[y - prev.len()]);
            }
        }
        assert forall|x: int| 0 <= x < all.len() implies (#[trigger] all[x]).key == key by {
            if x < prev.len() {
                assert(all[x] == prev[x]);
            } else {
                assert(all[x] == here[x - prev.len()]);
            }
        }
        assert forall|m: int| n <= m < runs.len() implies above(all, #[trigger] runs[m]) by {
            assert(above(prev, runs[m]));
            assert(above(run, runs[m]));
            assert forall|a: int, b: int| 0 <= a < all.len() && 0 <= b < runs[m].len() implies (
            #[trigger] all[a]).seq_num > (#[trigger] runs[m][b]).seq_num by {
                if a < prev.len() {
                    assert(all[a] == prev[a]);
                    assert(prev[a].seq_num > runs[m][b].seq_num);
                } else {
                    let t = choose|t: int| 0 <= t < run.len() && run[t] == here[a - prev.len()];
                    assert(run[t].seq_num > runs[m][b].seq_num);
                }
            }
        }
    }
}

} // verus!
