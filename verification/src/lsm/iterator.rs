//! Merging sorted streams of entries, and the two filters over a merged
//! stream: the newest version of each key only, and live entries only.

use crate::bytes::ByteOrder;
use crate::bytes::{
    bytes_le, bytes_lt, lemma_bytes_lt_asymmetric, lemma_bytes_lt_irreflexive,
    lemma_bytes_lt_le_transitive, lemma_bytes_lt_total, lemma_bytes_lt_transitive,
};
use crate::lsm::types::{
    entry_lt, entry_views, lemma_entry_lt_asymmetric, lemma_entry_lt_total,
    lemma_entry_lt_transitive, lemma_entry_views_push, Entry, EntryView, Key,
};
use vstd::prelude::*;

verus! {

/// Number of entries in all the streams together.
pub open spec fn total_len(streams: Seq<Seq<EntryView>>) -> nat
    decreases streams.len(),
{
    if streams.len() == 0 {
        0
    } else {
        total_len(streams.drop_last()) + streams.last().len()
    }
}

/// Whether stream `j` is the one to take from: it is not empty, its first
/// entry comes before the first entry of every stream before it, and no
/// stream behind it starts with an entry that comes before its first.
pub open spec fn is_pick(streams: Seq<Seq<EntryView>>, j: int) -> bool {
    &&& 0 <= j < streams.len()
    &&& streams[j].len() > 0
    &&& forall|i: int|
        0 <= i < j && (#[trigger] streams[i]).len() > 0 ==> entry_lt(streams[j][0], streams[i][0])
    &&& forall|i: int|
        j < i < streams.len() && (#[trigger] streams[i]).len() > 0 ==> !entry_lt(
            streams[i][0],
            streams[j][0],
        )
}

/// The streams once the first entry of stream `j` is taken.
pub open spec fn without_head(streams: Seq<Seq<EntryView>>, j: int) -> Seq<Seq<EntryView>> {
    streams.update(j, streams[j].drop_first())
}

/// The merge of the streams: again and again the first entry of the stream
/// to take from, until every stream is empty. Of entries that are equal in
/// the order the one of the earlier stream comes first.
pub open spec fn merge_all(streams: Seq<Seq<EntryView>>) -> Seq<EntryView>
    decreases total_len(streams),
    via merge_all_decreases
{
    if exists|j: int| is_pick(streams, j) {
        let j = choose|j: int| is_pick(streams, j);
        seq![streams[j][0]] + merge_all(without_head(streams, j))
    } else {
        Seq::empty()
    }
}

#[via_fn]
proof fn merge_all_decreases(streams: Seq<Seq<EntryView>>) {
    if exists|j: int| is_pick(streams, j) {
        let j = choose|j: int| is_pick(streams, j);
        lemma_total_len_without_head(streams, j);
    }
}

/// Taking the first entry of a stream leaves one entry less.
pub proof fn lemma_total_len_without_head(streams: Seq<Seq<EntryView>>, j: int)
    requires
        0 <= j < streams.len(),
        streams[j].len() > 0,
    ensures
        total_len(without_head(streams, j)) == total_len(streams) - 1,
    decreases streams.len(),
{
    let after = without_head(streams, j);
    if j == streams.len() - 1 {
        assert(after.drop_last() =~= streams.drop_last());
    } else {
        lemma_total_len_without_head(streams.drop_last(), j);
        assert(after.drop_last() =~= without_head(streams.drop_last(), j));
    }
}

/// At most one stream is the one to take from.
pub proof fn lemma_pick_unique(streams: Seq<Seq<EntryView>>, a: int, b: int)
    requires
        is_pick(streams, a),
        is_pick(streams, b),
    ensures
        a == b,
{
    if a < b {
        assert(streams[a].len() > 0);
        assert(entry_lt(streams[b][0], streams[a][0]));
    }
    if b < a {
        assert(streams[b].len() > 0);
        assert(entry_lt(streams[a][0], streams[b][0]));
    }
}

/// Where no stream is the one to take from, every stream is empty.
pub open spec fn all_empty(streams: Seq<Seq<EntryView>>) -> bool {
    forall|i: int| 0 <= i < streams.len() ==> (#[trigger] streams[i]).len() == 0
}

/// The newest versions in a stream: the entries whose key differs from the
/// key of the entry before them, and from `last` for the first entry.
pub open spec fn latest_of(stream: Seq<EntryView>, last: Option<Seq<u8>>) -> Seq<EntryView>
    decreases stream.len(),
{
    if stream.len() == 0 {
        Seq::empty()
    } else if last == Some(stream[0].key) {
        latest_of(stream.drop_first(), last)
    } else {
        seq![stream[0]] + latest_of(stream.drop_first(), Some(stream[0].key))
    }
}

/// The live entries of a stream: those that are not tombstones.
pub open spec fn live_of(stream: Seq<EntryView>) -> Seq<EntryView>
    decreases stream.len(),
{
    if stream.len() == 0 {
        Seq::empty()
    } else if stream[0].value is None {
        live_of(stream.drop_first())
    } else {
        seq![stream[0]] + live_of(stream.drop_first())
    }
}

/// The streams as plain data.
pub open spec fn stream_views(sources: Seq<Vec<Entry>>) -> Seq<Seq<EntryView>> {
    sources.map_values(|s: Vec<Entry>| entry_views(s@))
}

/// Merges sorted streams of entries into one. For each stream a cursor
/// counts the entries that were taken from it.
pub struct MergeIterator {
    pub sources: Vec<Vec<Entry>>,
    pub cursors: Vec<usize>,
    pub initialized: bool,
}

impl MergeIterator {
    /// Whether the cursors fit the streams.
    pub open spec fn wf(&self) -> bool {
        self.initialized ==> self.cursors.len() == self.sources.len() && forall|i: int|
            0 <= i < self.sources.len() ==> (#[trigger] self.cursors[i]) <= self.sources[i].len()
    }

    /// What is left of each stream.
    pub open spec fn remaining(&self) -> Seq<Seq<EntryView>> {
        Seq::new(
            self.sources.len() as nat,
            |i: int|
                if self.initialized {
                    entry_views(self.sources[i]@).skip(self.cursors[i] as int)
                } else {
                    entry_views(self.sources[i]@)
                },
        )
    }

    /// A merge of `sources`, each of which must be in order.
    pub fn new(sources: Vec<Vec<Entry>>) -> (merge: Self)
        ensures
            merge.wf(),
            merge.remaining() == stream_views(sources@),
            merge.sources == sources,
            !merge.initialized,
    {
        let merge = MergeIterator { sources, cursors: Vec::new(), initialized: false };
        assert(merge.remaining() =~= stream_views(sources@));
        merge
    }

    /// Puts a cursor at the start of each stream, once.
    fn initialize(&mut self)
        requires
            old(self).wf(),
        ensures
            final(self).wf(),
            final(self).initialized,
            final(self).sources == old(self).sources,
            final(self).remaining() == old(self).remaining(),
            old(self).initialized ==> final(self).cursors == old(self).cursors,
    {
        if self.initialized {
            return ;
        }
        self.initialized = true;
        self.cursors = Vec::new();
        let mut idx: usize = 0;
        while idx < self.sources.len()
            invariant
                idx <= self.sources.len(),
                self.sources == old(self).sources,
                self.initialized,
                self.cursors.len() == idx,
                forall|i: int| 0 <= i < idx ==> #[trigger] self.cursors[i] == 0,
            decreases self.sources.len() - idx,
        {
            self.cursors.push(0);
            idx += 1;
        }
        proof {
            assert forall|i: int| 0 <= i < self.sources.len() implies #[trigger] self.remaining()[i]
                == old(self).remaining()[i] by {
                assert(self.cursors[i] == 0);
                assert(entry_views(self.sources[i]@).skip(0) =~= entry_views(self.sources[i]@));
            }
            assert(self.remaining() =~= old(self).remaining());
        }
    }

    /// The next entry of the merge: the first entry of the stream to take
    /// from; `None` once every stream is through.
    pub fn next(&mut self) -> (res: Option<Entry>)
        requires
            old(self).wf(),
        ensures
            final(self).wf(),
            final(self).sources == old(self).sources,
            match res {
                Some(entry) => exists|j: int|
                    is_pick(old(self).remaining(), j) && entry@ == old(self).remaining()[j][0]
                        && final(self).remaining() == without_head(old(self).remaining(), j),
                None => all_empty(old(self).remaining()) && final(self).remaining() == old(
                    self,
                ).remaining(),
            },
    {
        self.initialize();
        let ghost rem = self.remaining();
        let mut best: Option<usize> = None;
        let mut idx: usize = 0;
        while idx < self.sources.len()
            invariant
                self.wf(),
                self.initialized,
                rem == self.remaining(),
                idx <= self.sources.len(),
                rem.len() == self.sources.len(),
                match best {
                    Some(b) => {
                        &&& b < idx
                        &&& rem[b as int].len() > 0
                        &&& forall|i: int|
                            0 <= i < b && (#[trigger] rem[i]).len() > 0 ==> entry_lt(
                                rem[b as int][0],
                                rem[i][0],
                            )
                        &&& forall|i: int|
                            b < i < idx && (#[trigger] rem[i]).len() > 0 ==> !entry_lt(
                                rem[i][0],
                                rem[b as int][0],
                            )
                    },
                    None => forall|i: int| 0 <= i < idx ==> (#[trigger] rem[i]).len() == 0,
                },
            decreases self.sources.len() - idx,
        {
            let cursor = self.cursors[idx];
            assert(rem[idx as int] == entry_views(self.sources[idx as int]@).skip(cursor as int));
            if cursor < self.sources[idx].len() {
                assert(rem[idx as int][0] == self.sources[idx as int]@[cursor as int]@);
                match best {
                    None => {
                        best = Some(idx);
                    },
                    Some(b) => {
                        let head_cursor = self.cursors[b];
                        assert(rem[b as int] == entry_views(self.sources[b as int]@).skip(
                            head_cursor as int,
                        ));
                        assert(rem[b as int][0] == self.sources[b as int]@[head_cursor as int]@);
                        match self.sources[idx][cursor].compare(&self.sources[b][head_cursor]) {
                            ByteOrder::Less => {
                                proof {
                                    let new_head = rem[idx as int][0];
                                    let old_head = rem[b as int][0];
                                    assert forall|i: int|
                                        0 <= i < idx && (#[trigger] rem[i]).len() > 0 implies entry_lt(
                                        new_head,
                                        rem[i][0],
                                    ) by {
                                        if i < b {
                                            crate::lsm::types::lemma_entry_lt_transitive(
                                                new_head,
                                                old_head,
                                                rem[i][0],
                                            );
                                        } else if i > b {
                                            crate::lsm::types::lemma_entry_lt_total(
                                                new_head,
                                                rem[i][0],
                                            );
                                            if !entry_lt(new_head, rem[i][0]) {
                                                if entry_lt(rem[i][0], new_head) {
                                                    crate::lsm::types::lemma_entry_lt_transitive(
                                                        rem[i][0],
                                                        new_head,
                                                        old_head,
                                                    );
                                                } else {
                                                    assert(entry_lt(rem[i][0], old_head));
                                                }
                                            }
                                        }
                                    }
                                }
                                best = Some(idx);
                            },
                            _ => {
                                proof {
                                    crate::lsm::types::lemma_entry_lt_total(
                                        rem[idx as int][0],
                                        rem[b as int][0],
                                    );
                                }
                            },
                        }
                    },
                }
            }
            idx += 1;
        }
        match best {
            None => None,
            Some(b) => {
                let cursor = self.cursors[b];
                let entry = self.sources[b][cursor].clone();
                self.cursors.set(b, cursor + 1);
                proof {
                    assert(is_pick(rem, b as int));
                    assert(rem[b as int] == entry_views(self.sources[b as int]@).skip(
                        cursor as int,
                    ));
                    assert forall|i: int| 0 <= i < rem.len() implies #[trigger] self.remaining()[i]
                        == without_head(rem, b as int)[i] by {
                        if i == b {
                            assert(entry_views(self.sources[i]@).skip(cursor as int + 1)
                                =~= entry_views(self.sources[i]@).skip(cursor as int).drop_first());
                        }
                    }
                    assert(self.remaining() =~= without_head(rem, b as int));
                }
                Some(entry)
            },
        }
    }

    /// Every entry that is left, merged.
    pub fn collect(self) -> (all: Vec<Entry>)
        requires
            self.wf(),
        ensures
            entry_views(all@) == merge_all(self.remaining()),
    {
        let mut merge = self;
        let mut all: Vec<Entry> = Vec::new();
        let ghost start = merge.remaining();
        assert(entry_views(all@) + merge_all(start) =~= merge_all(start));
        loop
            invariant
                merge.wf(),
                entry_views(all@) + merge_all(merge.remaining()) == merge_all(start),
            ensures
                entry_views(all@) == merge_all(start),
            decreases total_len(merge.remaining()),
        {
            let ghost rem = merge.remaining();
            let ghost found = entry_views(all@);
            match merge.next() {
                Some(entry) => {
                    proof {
                        let j = choose|j: int|
                            is_pick(rem, j) && entry@ == rem[j][0] && merge.remaining()
                                == without_head(rem, j);
                        let k = choose|k: int| is_pick(rem, k);
                        lemma_pick_unique(rem, j, k);
                        lemma_total_len_without_head(rem, j);
                        lemma_entry_views_push(all@, entry);
                        assert(found.push(entry@) + merge_all(without_head(rem, j)) =~= found + (
                        seq![entry@] + merge_all(without_head(rem, j))));
                    }
                    all.push(entry);
                },
                None => {
                    proof {
                        assert forall|j: int| !is_pick(rem, j) by {
                            if 0 <= j < rem.len() {
                                assert(rem[j].len() == 0);
                            }
                        }
                        assert(found + Seq::<EntryView>::empty() =~= found);
                    }
                    break ;
                },
            }
        }
        all
    }
}

/// Lets through the newest version of each key only: of the entries of a
/// sorted stream, the first with each key.
pub struct LatestVersionIterator {
    pub inner: Vec<Entry>,
    pub position: usize,
    pub last_key: Option<Key>,
}

impl LatestVersionIterator {
    pub open spec fn wf(&self) -> bool {
        self.position <= self.inner.len()
    }

    /// The entries that the filter has not looked at yet.
    pub open spec fn remaining(&self) -> Seq<EntryView> {
        entry_views(self.inner@).skip(self.position as int)
    }

    /// The key of the entry that was let through last.
    pub open spec fn last(&self) -> Option<Seq<u8>> {
        match self.last_key {
            Some(k) => Some(k@),
            None => None,
        }
    }

    /// A filter over `inner`, which must be in order.
    pub fn new(inner: Vec<Entry>) -> (filter: Self)
        ensures
            filter.wf(),
            filter.remaining() == entry_views(inner@),
            filter.last() is None,
    {
        let filter = LatestVersionIterator { inner, position: 0, last_key: None };
        assert(filter.remaining() =~= entry_views(inner@));
        filter
    }

    /// The next entry whose key is not the key of the entry that was let
    /// through last.
    pub fn next(&mut self) -> (res: Option<Entry>)
        requires
            old(self).wf(),
        ensures
            final(self).wf(),
            latest_of(old(self).remaining(), old(self).last()) == (match res {
                Some(entry) => seq![entry@] + latest_of(final(self).remaining(), final(self).last()),
                None => Seq::empty(),
            }),
            res matches Some(entry) ==> final(self).last() == Some(entry@.key) && old(self).last()
                != Some(entry@.key),
            res is None ==> final(self).remaining().len() == 0,
            res is Some ==> final(self).remaining().len() < old(self).remaining().len(),
    {
        loop
            invariant
                self.wf(),
                self.inner == old(self).inner,
                self.position >= old(self).position,
                self.last() == old(self).last(),
                latest_of(self.remaining(), self.last()) == latest_of(
                    old(self).remaining(),
                    old(self).last(),
                ),
            decreases self.inner.len() - self.position,
        {
            if self.position >= self.inner.len() {
                return None;
            }
            let ghost rem = self.remaining();
            let entry = self.inner[self.position].clone();
            self.position += 1;
            proof {
                assert(rem[0] == entry@);
                assert(self.remaining() =~= rem.drop_first());
            }
            let skip: bool = match &self.last_key {
                Some(last) => last.same_as(&entry.key),
                None => false,
            };
            if skip {
                continue ;
            }
            self.last_key = Some(entry.key.clone());
            return Some(entry);
        }
    }

    /// Every entry that the filter lets through.
    pub fn collect(self) -> (all: Vec<Entry>)
        requires
            self.wf(),
        ensures
            entry_views(all@) == latest_of(self.remaining(), self.last()),
    {
        let mut filter = self;
        let mut all: Vec<Entry> = Vec::new();
        let ghost whole = latest_of(filter.remaining(), filter.last());
        assert(entry_views(all@) + whole =~= whole);
        loop
            invariant
                filter.wf(),
                entry_views(all@) + latest_of(filter.remaining(), filter.last()) == whole,
            ensures
                entry_views(all@) == whole,
            decreases filter.remaining().len(),
        {
            let ghost found = entry_views(all@);
            match filter.next() {
                Some(entry) => {
                    proof {
                        lemma_entry_views_push(all@, entry);
                        let rest = latest_of(filter.remaining(), filter.last());
                        assert(found.push(entry@) + rest =~= found + (seq![entry@] + rest));
                    }
                    all.push(entry);
                },
                None => {
                    assert(found + Seq::<EntryView>::empty() =~= found);
                    break ;
                },
            }
        }
        all
    }
}

/// Lets through live entries only: those that are not tombstones.
pub struct LiveEntriesIterator {
    pub inner: Vec<Entry>,
    pub position: usize,
}

impl LiveEntriesIterator {
    pub open spec fn wf(&self) -> bool {
        self.position <= self.inner.len()
    }

    /// The entries that the filter has not looked at yet.
    pub open spec fn remaining(&self) -> Seq<EntryView> {
        entry_views(self.inner@).skip(self.position as int)
    }

    /// A filter over `inner`.
    pub fn new(inner: Vec<Entry>) -> (filter: Self)
        ensures
            filter.wf(),
            filter.remaining() == entry_views(inner@),
    {
        let filter = LiveEntriesIterator { inner, position: 0 };
        assert(filter.remaining() =~= entry_views(inner@));
        filter
    }

    /// The next entry that is not a tombstone.
    pub fn next(&mut self) -> (res: Option<Entry>)
        requires
            old(self).wf(),
        ensures
            final(self).wf(),
            live_of(old(self).remaining()) == (match res {
                Some(entry) => seq![entry@] + live_of(final(self).remaining()),
                None => Seq::empty(),
            }),
            res matches Some(entry) ==> entry@.value is Some,
            res is None ==> final(self).remaining().len() == 0,
            final(self).remaining().len() <= old(self).remaining().len(),
            res is Some ==> final(self).remaining().len() < old(self).remaining().len(),
    {
        loop
            invariant
                self.wf(),
                self.inner == old(self).inner,
                self.position >= old(self).position,
                live_of(self.remaining()) == live_of(old(self).remaining()),
            decreases self.inner.len() - self.position,
        {
            if self.position >= self.inner.len() {
                return None;
            }
            let ghost rem = self.remaining();
            let entry = self.inner[self.position].clone();
            self.position += 1;
            proof {
                assert(rem[0] == entry@);
                assert(self.remaining() =~= rem.drop_first());
            }
            if entry.is_tombstone() {
                continue ;
            }
            return Some(entry);
        }
    }

    /// Every entry that the filter lets through.
    pub fn collect(self) -> (all: Vec<Entry>)
        requires
            self.wf(),
        ensures
            entry_views(all@) == live_of(self.remaining()),
    {
        let mut filter = self;
        let mut all: Vec<Entry> = Vec::new();
        let ghost whole = live_of(filter.remaining());
        assert(entry_views(all@) + whole =~= whole);
        loop
            invariant
                filter.wf(),
                entry_views(all@) + live_of(filter.remaining()) == whole,
            ensures
                entry_views(all@) == whole,
            decreases filter.remaining().len(),
        {
            let ghost found = entry_views(all@);
            match filter.next() {
                Some(entry) => {
                    proof {
                        lemma_entry_views_push(all@, entry);
                        let rest = live_of(filter.remaining());
                        assert(found.push(entry@) + rest =~= found + (seq![entry@] + rest));
                    }
                    all.push(entry);
                },
                None => {
                    assert(found + Seq::<EntryView>::empty() =~= found);
                    break ;
                },
            }
        }
        all
    }
}

/// Whether no entry comes before an entry that stands before it.
pub open spec fn in_order(stream: Seq<EntryView>) -> bool {
    forall|i: int, j: int|
        0 <= i < j < stream.len() ==> !entry_lt(#[trigger] stream[j], #[trigger] stream[i])
}

/// Whether `e` is an entry of one of the streams.
pub open spec fn in_streams(streams: Seq<Seq<EntryView>>, e: EntryView) -> bool {
    exists|j: int, k: int|
        0 <= j < streams.len() && 0 <= k < streams[j].len() && #[trigger] streams[j][k] == e
}

/// Where some stream is not empty, one stream is the one to take from.
pub proof fn lemma_pick_exists(streams: Seq<Seq<EntryView>>) -> (j: int)
    requires
        !all_empty(streams),
    ensures
        is_pick(streams, j),
    decreases streams.len(),
{
    let n = streams.len() as int;
    let front = streams.drop_last();
    if all_empty(front) {
        assert(streams[n - 1].len() > 0) by {
            if streams[n - 1].len() == 0 {
                assert forall|i: int| 0 <= i < n implies (#[trigger] streams[i]).len() == 0 by {
                    if i < n - 1 {
                        assert(front[i] == streams[i]);
                    }
                }
            }
        }
        assert forall|i: int| 0 <= i < n - 1 implies (#[trigger] streams[i]).len() == 0 by {
            assert(front[i] == streams[i]);
        }
        n - 1
    } else {
        let b = lemma_pick_exists(front);
        assert(front[b] == streams[b]);
        assert forall|i: int| 0 <= i < n - 1 implies front[i] == #[trigger] streams[i] by {}
        if streams[n - 1].len() > 0 && entry_lt(streams[n - 1][0], streams[b][0]) {
            let new_head = streams[n - 1][0];
            let old_head = streams[b][0];
            assert forall|i: int| 0 <= i < n - 1 && (#[trigger] streams[i]).len() > 0 implies entry_lt(
                new_head,
                streams[i][0],
            ) by {
                assert(front[i] == streams[i]);
                if i < b {
                    lemma_entry_lt_transitive(new_head, old_head, streams[i][0]);
                } else if i > b {
                    lemma_entry_lt_total(new_head, streams[i][0]);
                    if !entry_lt(new_head, streams[i][0]) {
                        if entry_lt(streams[i][0], new_head) {
                            lemma_entry_lt_transitive(streams[i][0], new_head, old_head);
                        }
                    }
                }
            }
            n - 1
        } else {
            b
        }
    }
}

/// The merge holds the entries of the streams, and no others.
pub proof fn lemma_merge_members(streams: Seq<Seq<EntryView>>, e: EntryView)
    ensures
        merge_all(streams).contains(e) <==> in_streams(streams, e),
    decreases total_len(streams),
{
    let merged = merge_all(streams);
    if exists|j: int| is_pick(streams, j) {
        let j = choose|j: int| is_pick(streams, j);
        let rest = without_head(streams, j);
        let head = streams[j][0];
        lemma_total_len_without_head(streams, j);
        lemma_merge_members(rest, e);
        let tail = merge_all(rest);
        assert(merged == seq![head] + tail);
        if merged.contains(e) {
            let i = choose|i: int| 0 <= i < merged.len() && merged[i] == e;
            if i == 0 {
                assert(streams[j][0] == e);
            } else {
                assert(tail[i - 1] == e);
                assert(tail.contains(e));
                let (a, b) = choose|a: int, b: int|
                    0 <= a < rest.len() && 0 <= b < rest[a].len() && #[trigger] rest[a][b] == e;
                if a == j {
                    assert(streams[j][b + 1] == e);
                } else {
                    assert(streams[a][b] == e);
                }
            }
        }
        if in_streams(streams, e) {
            let (a, b) = choose|a: int, b: int|
                0 <= a < streams.len() && 0 <= b < streams[a].len() && #[trigger] streams[a][b]
                    == e;
            if a == j && b == 0 {
                assert(merged[0] == e);
            } else {
                if a == j {
                    assert(rest[j][b - 1] == e);
                } else {
                    assert(rest[a][b] == e);
                }
                assert(in_streams(rest, e));
                let i = choose|i: int| 0 <= i < tail.len() && tail[i] == e;
                assert(merged[i + 1] == e);
            }
        }
    } else {
        if in_streams(streams, e) {
            let (a, b) = choose|a: int, b: int|
                0 <= a < streams.len() && 0 <= b < streams[a].len() && #[trigger] streams[a][b]
                    == e;
            assert(!all_empty(streams));
            let j = lemma_pick_exists(streams);
        }
    }
}

/// The merge of streams that are in order is in order.
pub proof fn lemma_merge_in_order(streams: Seq<Seq<EntryView>>)
    requires
        forall|j: int| 0 <= j < streams.len() ==> in_order(#[trigger] streams[j]),
    ensures
        in_order(merge_all(streams)),
    decreases total_len(streams),
{
    let merged = merge_all(streams);
    if exists|j: int| is_pick(streams, j) {
        let j = choose|j: int| is_pick(streams, j);
        let rest = without_head(streams, j);
        let head = streams[j][0];
        lemma_total_len_without_head(streams, j);
        assert forall|a: int| 0 <= a < rest.len() implies in_order(#[trigger] rest[a]) by {
            assert(in_order(streams[a]));
            if a == j {
                assert forall|x: int, y: int| 0 <= x < y < rest[a].len() implies !entry_lt(
                    #[trigger] rest[a][y],
                    #[trigger] rest[a][x],
                ) by {
                    assert(rest[a][y] == streams[a][y + 1]);
                    assert(rest[a][x] == streams[a][x + 1]);
                }
            }
        }
        lemma_merge_in_order(rest);
        let tail = merge_all(rest);
        assert forall|x: int, y: int| 0 <= x < y < merged.len() implies !entry_lt(
            #[trigger] merged[y],
            #[trigger] merged[x],
        ) by {
            if x > 0 {
                assert(merged[x] == tail[x - 1]);
                assert(merged[y] == tail[y - 1]);
            } else {
                let e = tail[y - 1];
                assert(merged[y] == e);
                assert(tail.contains(e));
                lemma_merge_members(rest, e);
                let (a, b) = choose|a: int, b: int|
                    0 <= a < rest.len() && 0 <= b < rest[a].len() && #[trigger] rest[a][b] == e;
                // The first entry of stream `a` does not come before `head`,
                // and `e` does not come before the first entry of its stream.
                let first = streams[a][0];
                assert(in_order(streams[a]));
                if a == j {
                    assert(streams[a][b + 1] == e);
                    assert(!entry_lt(streams[a][b + 1], streams[a][0]));
                } else {
                    assert(streams[a][b] == e);
                    if b > 0 {
                        assert(!entry_lt(streams[a][b], streams[a][0]));
                    }
                    if a < j {
                        lemma_entry_lt_asymmetric(head, first);
                    }
                    if entry_lt(e, head) {
                        lemma_entry_lt_total(first, e);
                        if entry_lt(first, e) {
                            lemma_entry_lt_transitive(first, e, head);
                        }
                    }
                }
            }
        }
    }
}

/// The entries that the filter for live entries lets through are entries
/// of the stream, and none of them is a tombstone.
pub proof fn lemma_live_of(stream: Seq<EntryView>, e: EntryView)
    requires
        live_of(stream).contains(e),
    ensures
        stream.contains(e),
        e.value is Some,
    decreases stream.len(),
{
    let live = live_of(stream);
    let i = choose|i: int| 0 <= i < live.len() && live[i] == e;
    let rest = stream.drop_first();
    if stream[0].value is None {
        lemma_live_of(rest, e);
        let k = choose|k: int| 0 <= k < rest.len() && rest[k] == e;
        assert(stream[k + 1] == e);
    } else if i == 0 {
        assert(stream[0] == e);
    } else {
        assert(live_of(rest)[i - 1] == e);
        assert(live_of(rest).contains(e));
        lemma_live_of(rest, e);
        let k = choose|k: int| 0 <= k < rest.len() && rest[k] == e;
        assert(stream[k + 1] == e);
    }
}

/// Whether no key in the stream is below `last`.
pub open spec fn keys_from(stream: Seq<EntryView>, last: Option<Seq<u8>>) -> bool {
    last matches Some(k) ==> forall|i: int|
        0 <= i < stream.len() ==> bytes_le(k, (#[trigger] stream[i]).key)
}

/// What is left of a stream that is in order once its first entry is
/// taken: it is in order, and none of its keys is below the first entry's.
proof fn lemma_rest_in_order(stream: Seq<EntryView>)
    requires
        in_order(stream),
        stream.len() > 0,
    ensures
        in_order(stream.drop_first()),
        keys_from(stream.drop_first(), Some(stream[0].key)),
{
    let rest = stream.drop_first();
    assert forall|x: int, y: int| 0 <= x < y < rest.len() implies !entry_lt(
        #[trigger] rest[y],
        #[trigger] rest[x],
    ) by {
        assert(rest[y] == stream[y + 1]);
        assert(rest[x] == stream[x + 1]);
    }
    assert forall|i: int| 0 <= i < rest.len() implies bytes_le(
        stream[0].key,
        (#[trigger] rest[i]).key,
    ) by {
        assert(rest[i] == stream[i + 1]);
        assert(!entry_lt(stream[i + 1], stream[0]));
        lemma_bytes_lt_total(stream[0].key, rest[i].key);
    }
}

/// The entries that the filter for the newest versions lets through are
/// entries of the stream.
pub proof fn lemma_latest_members(stream: Seq<EntryView>, last: Option<Seq<u8>>, e: EntryView)
    requires
        latest_of(stream, last).contains(e),
    ensures
        stream.contains(e),
    decreases stream.len(),
{
    let latest = latest_of(stream, last);
    let i = choose|i: int| 0 <= i < latest.len() && latest[i] == e;
    let rest = stream.drop_first();
    if last == Some(stream[0].key) {
        lemma_latest_members(rest, last, e);
        let k = choose|k: int| 0 <= k < rest.len() && rest[k] == e;
        assert(stream[k + 1] == e);
    } else if i == 0 {
        assert(stream[0] == e);
    } else {
        let tail = latest_of(rest, Some(stream[0].key));
        assert(tail[i - 1] == e);
        assert(tail.contains(e));
        lemma_latest_members(rest, Some(stream[0].key), e);
        let k = choose|k: int| 0 <= k < rest.len() && rest[k] == e;
        assert(stream[k + 1] == e);
    }
}

/// The keys of the entries that the filter for the newest versions lets
/// through, of a stream that is in order and whose keys are not below
/// `last`: they are above `last` and go up from each entry to the next, so
/// that no key comes twice.
pub proof fn lemma_latest_keys(stream: Seq<EntryView>, last: Option<Seq<u8>>)
    requires
        in_order(stream),
        keys_from(stream, last),
    ensures
        forall|i: int, j: int|
            0 <= i < j < latest_of(stream, last).len() ==> bytes_lt(
                (#[trigger] latest_of(stream, last)[i]).key,
                (#[trigger] latest_of(stream, last)[j]).key,
            ),
        last matches Some(k) ==> forall|i: int|
            0 <= i < latest_of(stream, last).len() ==> bytes_lt(
                k,
                (#[trigger] latest_of(stream, last)[i]).key,
            ),
    decreases stream.len(),
{
    let latest = latest_of(stream, last);
    if stream.len() > 0 {
        let first = stream[0];
        let rest = stream.drop_first();
        lemma_rest_in_order(stream);
        if last == Some(first.key) {
            lemma_latest_keys(rest, last);
        } else {
            lemma_latest_keys(rest, Some(first.key));
            let tail = latest_of(rest, Some(first.key));
            assert(latest == seq![first] + tail);
            assert forall|i: int, j: int| 0 <= i < j < latest.len() implies bytes_lt(
                (#[trigger] latest[i]).key,
                (#[trigger] latest[j]).key,
            ) by {
                assert(latest[j] == tail[j - 1]);
                if i > 0 {
                    assert(latest[i] == tail[i - 1]);
                }
            }
            if let Some(k) = last {
                assert forall|i: int| 0 <= i < latest.len() implies bytes_lt(
                    k,
                    (#[trigger] latest[i]).key,
                ) by {
                    assert(bytes_le(k, stream[0].key));
                    lemma_bytes_lt_total(k, first.key);
                    if i > 0 {
                        assert(latest[i] == tail[i - 1]);
                        lemma_bytes_lt_transitive(k, first.key, latest[i].key);
                    }
                }
            }
        }
    }
}

/// Each entry that the filter for the newest versions lets through, of a
/// stream that is in order and whose keys are not below `last`, has the
/// highest sequence number that its key has in the stream.
pub proof fn lemma_latest_newest(
    stream: Seq<EntryView>,
    last: Option<Seq<u8>>,
    e: EntryView,
    other: EntryView,
)
    requires
        in_order(stream),
        keys_from(stream, last),
        latest_of(stream, last).contains(e),
        stream.contains(other),
        other.key == e.key,
    ensures
        other.seq_num <= e.seq_num,
    decreases stream.len(),
{
    let latest = latest_of(stream, last);
    let i = choose|i: int| 0 <= i < latest.len() && latest[i] == e;
    let n = choose|n: int| 0 <= n < stream.len() && stream[n] == other;
    let first = stream[0];
    let rest = stream.drop_first();
    lemma_rest_in_order(stream);
    lemma_bytes_lt_irreflexive(e.key);
    if last == Some(first.key) {
        lemma_latest_keys(rest, last);
        assert(bytes_lt(first.key, latest_of(rest, last)[i].key));
        assert(n > 0);
        assert(rest[n - 1] == other);
        lemma_latest_newest(rest, last, e, other);
    } else if i == 0 {
        if n > 0 {
            assert(!entry_lt(stream[n], stream[0]));
        }
    } else {
        let tail = latest_of(rest, Some(first.key));
        assert(tail[i - 1] == e);
        lemma_latest_keys(rest, Some(first.key));
        assert(bytes_lt(first.key, tail[i - 1].key));
        assert(n > 0);
        assert(rest[n - 1] == other);
        lemma_latest_newest(rest, Some(first.key), e, other);
    }
}

/// Every key of the stream, but `last`, is the key of an entry that the
/// filter for the newest versions lets through.
pub proof fn lemma_latest_covers(stream: Seq<EntryView>, last: Option<Seq<u8>>, n: int) -> (i: int)
    requires
        0 <= n < stream.len(),
        last != Some(stream[n].key),
    ensures
        0 <= i < latest_of(stream, last).len(),
        latest_of(stream, last)[i].key == stream[n].key,
    decreases stream.len(),
{
    let first = stream[0];
    let rest = stream.drop_first();
    if last == Some(first.key) {
        assert(rest[n - 1] == stream[n]);
        lemma_latest_covers(rest, last, n - 1)
    } else if n == 0 || stream[n].key == first.key {
        0
    } else {
        assert(rest[n - 1] == stream[n]);
        let i = lemma_latest_covers(rest, Some(first.key), n - 1);
        i + 1
    }
}

} // verus!
