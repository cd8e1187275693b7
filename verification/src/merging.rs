//! The merging iterator: one stream out of the streams of several tables,
//! smallest key first.

use vstd::prelude::*;
use crate::block::EntryView;
use crate::error::HummockError;
use crate::key::{full_key_less, full_key_lt, valid_full_key};
use crate::table::TableView;
use crate::table_iterator::{
    empty_stream, landing_result, landing_stream, lemma_head_valid, Stream, stream_tail,
    table_seek_stream, table_stream, TableIterator,
};
use crate::value::HummockValue;

verus! {

/// The stream among the first `n` that stands at the smallest key; of equal
/// keys the first stream wins. `None` where none of them has an entry.
pub open spec fn pick_min_upto(streams: Seq<Stream>, n: int) -> Option<int>
    decreases n,
{
    if n <= 0 {
        None
    } else {
        match pick_min_upto(streams, n - 1) {
            None => if streams[n - 1].items.len() > 0 {
                Some(n - 1)
            } else {
                None
            },
            Some(c) => if streams[n - 1].items.len() > 0 && full_key_lt(
                streams[n - 1].items[0].0,
                streams[c].items[0].0,
            ) {
                Some(n - 1)
            } else {
                Some(c)
            },
        }
    }
}

/// The stream that stands at the smallest key.
pub open spec fn pick_min(streams: Seq<Stream>) -> Option<int> {
    pick_min_upto(streams, streams.len() as int)
}

/// The number of entries in all streams together.
pub open spec fn total_len(streams: Seq<Stream>) -> nat
    decreases streams.len(),
{
    if streams.len() == 0 {
        0
    } else {
        total_len(streams.drop_last()) + streams.last().items.len()
    }
}

/// The stream picked is one of the streams and has an entry.
pub proof fn lemma_pick_min_valid(streams: Seq<Stream>, n: int)
    requires
        n <= streams.len(),
    ensures
        pick_min_upto(streams, n) matches Some(c) ==> 0 <= c < n && streams[c].items.len() > 0,
        pick_min_upto(streams, n) is None ==> forall|i: int|
            0 <= i < n ==> (#[trigger] streams[i]).items.len() == 0,
    decreases n,
{
    if n > 0 {
        lemma_pick_min_valid(streams, n - 1);
    }
}

/// Replacing one stream changes the total by the difference in length.
pub proof fn lemma_total_len_update(streams: Seq<Stream>, c: int, s: Stream)
    requires
        0 <= c < streams.len(),
    ensures
        total_len(streams.update(c, s)) == total_len(streams) - streams[c].items.len() + s.items.len(),
    decreases streams.len(),
{
    let up = streams.update(c, s);
    if c == streams.len() - 1 {
        assert(up.drop_last() =~= streams.drop_last());
    } else {
        assert(up.drop_last() =~= streams.drop_last().update(c, s));
        lemma_total_len_update(streams.drop_last(), c, s);
    }
}

/// The merge of several streams: again and again the entry of the stream
/// that stands at the smallest key. The merge ends with a fault where the
/// stream that gave the last entry has nothing behind it but a fault.
pub open spec fn merged(streams: Seq<Stream>) -> Stream
    decreases total_len(streams),
    via merged_decreases
{
    match pick_min(streams) {
        None => empty_stream(),
        Some(c) => if streams[c].items.len() == 1 && streams[c].fault is Some {
            Stream { items: seq![streams[c].items[0]], fault: streams[c].fault }
        } else {
            Stream {
                items: seq![streams[c].items[0]] + merged(
                    streams.update(c, stream_tail(streams[c])),
                ).items,
                fault: merged(streams.update(c, stream_tail(streams[c]))).fault,
            }
        },
    }
}

#[via_fn]
proof fn merged_decreases(streams: Seq<Stream>) {
    lemma_pick_min_valid(streams, streams.len() as int);
    match pick_min(streams) {
        None => {},
        Some(c) => {
            lemma_total_len_update(streams, c, stream_tail(streams[c]));
        },
    }
}

/// The fault of the first of the first `n` streams that begins with a fault.
pub open spec fn first_fault_upto(sources: Seq<Stream>, n: int) -> Option<HummockError>
    decreases n,
{
    if n <= 0 {
        None
    } else {
        match first_fault_upto(sources, n - 1) {
            Some(e) => Some(e),
            None => match landing_result(sources[n - 1]) {
                Err(e) => Some(e),
                Ok(_) => None,
            },
        }
    }
}

/// Where each stream stands after an iterator moved onto it.
pub open spec fn landed(sources: Seq<Stream>) -> Seq<Stream> {
    Seq::new(sources.len(), |i: int| landing_stream(sources[i]))
}

/// The merge of `sources` as an iterator meets it: a source that begins
/// with a fault stops the merge before its first entry.
pub open spec fn merge_of(sources: Seq<Stream>) -> Stream {
    match first_fault_upto(sources, sources.len() as int) {
        Some(e) => Stream { items: Seq::empty(), fault: Some(e) },
        None => merged(landed(sources)),
    }
}

/// The tables of some iterators, as plain values.
pub open spec fn iterator_tables(children: Seq<TableIterator>) -> Seq<TableView> {
    Seq::new(children.len(), |i: int| children[i].table@)
}

/// The streams of some iterators.
pub open spec fn iterator_streams(children: Seq<TableIterator>) -> Seq<Stream> {
    Seq::new(children.len(), |i: int| children[i].stream())
}

/// The streams of some tables from their first entry on.
pub open spec fn rewind_sources(tables: Seq<TableView>) -> Seq<Stream> {
    Seq::new(tables.len(), |i: int| table_stream(tables[i]))
}

/// The streams of some tables from `target` on.
pub open spec fn seek_sources(tables: Seq<TableView>, target: Seq<u8>) -> Seq<Stream> {
    Seq::new(tables.len(), |i: int| table_seek_stream(tables[i], target))
}

/// The first fault found among the first streams is the first fault among all.
pub proof fn lemma_first_fault_stable(sources: Seq<Stream>, i: int, n: int)
    requires
        0 <= i <= n,
        first_fault_upto(sources, i) is Some,
    ensures
        first_fault_upto(sources, n) == first_fault_upto(sources, i),
    decreases n,
{
    if i < n {
        lemma_first_fault_stable(sources, i, n - 1);
    }
}

/// Every fault among `streams` is one that bytes are refused with.
pub open spec fn faults_of_reading(streams: Seq<Stream>) -> bool {
    forall|i: int|
        0 <= i < streams.len() ==> ((#[trigger] streams[i]).fault matches Some(e)
            ==> crate::error::read_fault(e))
}

/// A merge meets no fault but those of its streams.
pub proof fn lemma_merged_fault(streams: Seq<Stream>)
    requires
        faults_of_reading(streams),
    ensures
        merged(streams).fault matches Some(e) ==> crate::error::read_fault(e),
    decreases total_len(streams),
{
    lemma_pick_min_valid(streams, streams.len() as int);
    match pick_min(streams) {
        None => {},
        Some(c) => {
            if !(streams[c].items.len() == 1 && streams[c].fault is Some) {
                let next = streams.update(c, stream_tail(streams[c]));
                lemma_total_len_update(streams, c, stream_tail(streams[c]));
                assert(faults_of_reading(next)) by {
                    assert forall|i: int| 0 <= i < next.len() implies ((#[trigger] next[i]).fault matches Some(e)
                        ==> crate::error::read_fault(e)) by {
                        if i != c {
                            assert(next[i] == streams[i]);
                        } else {
                            assert(next[i].fault == streams[c].fault);
                        }
                    }
                }
                lemma_merged_fault(next);
            }
        },
    }
}

/// The first fault among streams of reading is one that bytes are refused with.
pub proof fn lemma_first_fault_kind(sources: Seq<Stream>, n: int)
    requires
        faults_of_reading(sources),
        0 <= n <= sources.len(),
    ensures
        first_fault_upto(sources, n) matches Some(e) ==> crate::error::read_fault(e),
    decreases n,
{
    if n > 0 {
        lemma_first_fault_kind(sources, n - 1);
    }
}

/// A merge of streams of reading meets no fault but those that bytes are
/// refused with.
pub proof fn lemma_merge_fault(sources: Seq<Stream>)
    requires
        faults_of_reading(sources),
    ensures
        merge_of(sources).fault matches Some(e) ==> crate::error::read_fault(e),
{
    lemma_first_fault_kind(sources, sources.len() as int);
    let streams = landed(sources);
    assert(faults_of_reading(streams)) by {
        assert forall|i: int| 0 <= i < streams.len() implies ((#[trigger] streams[i]).fault matches Some(e)
            ==> crate::error::read_fault(e)) by {
            assert(streams[i] == landing_stream(sources[i]));
        }
    }
    lemma_merged_fault(streams);
}

/// A merge of tables from their first entries on meets no fault but those
/// that bytes are refused with.
pub proof fn lemma_merge_of_fault(tables: Seq<TableView>)
    ensures
        merge_of(rewind_sources(tables)).fault matches Some(e) ==> crate::error::read_fault(e),
{
    let sources = rewind_sources(tables);
    assert(faults_of_reading(sources)) by {
        assert forall|i: int| 0 <= i < sources.len() implies ((#[trigger] sources[i]).fault matches Some(e)
            ==> crate::error::read_fault(e)) by {
            crate::table_iterator::lemma_table_stream_fault(tables[i], 0);
        }
    }
    lemma_merge_fault(sources);
}

/// A merge of tables from a key on meets no fault but those that bytes are
/// refused with.
pub proof fn lemma_seek_merge_fault(tables: Seq<TableView>, target: Seq<u8>)
    ensures
        merge_of(seek_sources(tables, target)).fault matches Some(e) ==> crate::error::read_fault(e),
{
    let sources = seek_sources(tables, target);
    assert(faults_of_reading(sources)) by {
        assert forall|i: int| 0 <= i < sources.len() implies ((#[trigger] sources[i]).fault matches Some(e)
            ==> crate::error::read_fault(e)) by {
            crate::table_iterator::lemma_seek_stream_fault(tables[i], target);
        }
    }
    lemma_merge_fault(sources);
}

/// A merge without entries is the empty stream: a merge meets no fault
/// before its first entry.
pub proof fn lemma_merged_landing(streams: Seq<Stream>)
    ensures
        landing_stream(merged(streams)) == merged(streams),
        landing_result(merged(streams)) is Ok,
        merged(streams).items.len() > 0 <==> pick_min(streams) is Some,
        pick_min(streams) matches Some(c) ==> merged(streams).items[0] == streams[c].items[0],
{
}

/// An iterator over several tables at once: it stands at the smallest key
/// among the keys that its tables' iterators stand at.
pub struct MergingIterator {
    pub children: Vec<TableIterator>,
    pub current: Option<usize>,
}

impl MergingIterator {
    /// The iterators are well formed, and `current` is the one that stands
    /// at the smallest key.
    pub open spec fn wf(&self) -> bool {
        &&& forall|i: int| 0 <= i < self.children@.len() ==> (#[trigger] self.children@[i]).wf()
        &&& match self.current {
            None => pick_min(self.streams()) is None,
            Some(c) => pick_min(self.streams()) == Some(c as int),
        }
    }

    /// The tables that the iterator reads.
    pub open spec fn tables(&self) -> Seq<TableView> {
        iterator_tables(self.children@)
    }

    /// The streams that the iterator merges.
    pub open spec fn streams(&self) -> Seq<Stream> {
        iterator_streams(self.children@)
    }

    /// What the iterator has before it.
    pub open spec fn stream(&self) -> Stream {
        merged(self.streams())
    }

    /// An iterator over the tables of `children`.
    pub fn new(children: Vec<TableIterator>) -> (r: MergingIterator)
        requires
            forall|i: int| 0 <= i < children@.len() ==> (#[trigger] children@[i]).wf(),
        ensures
            r.wf(),
            r.children == children,
    {
        let mut r = MergingIterator { children, current: None };
        r.find_min();
        r
    }

    /// Whether the iterator stands at an entry.
    pub fn is_valid(&self) -> (r: bool)
        requires
            self.wf(),
        ensures
            r == (self.stream().items.len() > 0),
    {
        proof {
            lemma_merged_landing(self.streams());
        }
        self.current.is_some()
    }

    /// The full key at the iterator.
    pub fn key(&self) -> (r: &[u8])
        requires
            self.wf(),
            self.stream().items.len() > 0,
        ensures
            r@ == self.stream().items[0].0,
            valid_full_key(r@),
    {
        proof {
            lemma_merged_landing(self.streams());
            lemma_pick_min_valid(self.streams(), self.streams().len() as int);
            lemma_head_valid(self.children@[self.current.unwrap() as int]);
        }
        match self.current {
            Some(c) => self.children[c].key(),
            None => {
                let e: &[u8] = &[];
                e
            },
        }
    }

    /// The value at the iterator.
    pub fn value(&self) -> (r: &HummockValue)
        requires
            self.wf(),
            self.stream().items.len() > 0,
        ensures
            r@ == self.stream().items[0].1,
    {
        proof {
            lemma_merged_landing(self.streams());
            lemma_pick_min_valid(self.streams(), self.streams().len() as int);
        }
        match self.current {
            Some(c) => self.children[c].value(),
            None => &HummockValue::Delete,
        }
    }

    /// Finds the iterator that stands at the smallest key.
    fn find_min(&mut self)
        requires
            forall|i: int| 0 <= i < old(self).children@.len() ==> (#[trigger] old(self).children@[i]).wf(),
        ensures
            final(self).wf(),
            final(self).children == old(self).children,
    {
        let ghost streams = self.streams();
        let mut best: Option<usize> = None;
        let mut i: usize = 0;
        while i < self.children.len()
            invariant
                i <= self.children@.len(),
                self.children == old(self).children,
                streams == self.streams(),
                forall|k: int| 0 <= k < self.children@.len() ==> (#[trigger] self.children@[k]).wf(),
                match best {
                    None => pick_min_upto(streams, i as int) is None,
                    Some(c) => pick_min_upto(streams, i as int) == Some(c as int) && c < i,
                },
            decreases self.children@.len() - i,
        {
            proof {
                lemma_pick_min_valid(streams, i as int);
                assert(self.children@[i as int].wf());
            }
            if self.children[i].is_valid() {
                match best {
                    None => {
                        best = Some(i);
                    },
                    Some(c) => {
                        proof {
                            assert(self.children@[c as int].wf());
                            lemma_head_valid(self.children@[i as int]);
                            lemma_head_valid(self.children@[c as int]);
                        }
                        if full_key_less(self.children[i].key(), self.children[c].key()) {
                            best = Some(i);
                        }
                    },
                }
            }
            i += 1;
        }
        self.current = best;
    }

    /// Moves the iterator of table `i` to its first entry.
    fn rewind_child(&mut self, i: usize) -> (r: Result<(), HummockError>)
        requires
            i < old(self).children@.len(),
            forall|k: int| 0 <= k < old(self).children@.len() ==> (#[trigger] old(self).children@[k]).wf(),
        ensures
            final(self).children@.len() == old(self).children@.len(),
            forall|k: int| 0 <= k < final(self).children@.len() ==> (#[trigger] final(self).children@[k]).wf(),
            forall|k: int|
                0 <= k < final(self).children@.len() && k != i ==> #[trigger] final(self).children@[k]
                    == old(self).children@[k],
            final(self).tables() == old(self).tables(),
            r == landing_result(table_stream(old(self).tables()[i as int])),
            final(self).children@[i as int].stream() == landing_stream(
                table_stream(old(self).tables()[i as int]),
            ),
    {
        let ghost before = self.children@;
        assert(before[i as int].wf());
        let res: Result<(), HummockError> = self.children[i].rewind();
        proof {
            assert forall|k: int| 0 <= k < before.len() implies (#[trigger] self.children@[k]).wf() by {
                if k != i {
                    assert(self.children@[k] == before[k]);
                }
            }
            assert(self.tables() =~= old(self).tables());
        }
        res
    }

    /// Moves the iterator of table `i` to its first entry whose key does not
    /// sort before `target`.
    fn seek_child(&mut self, i: usize, target: &[u8]) -> (r: Result<(), HummockError>)
        requires
            i < old(self).children@.len(),
            target@.len() >= 8,
            forall|k: int| 0 <= k < old(self).children@.len() ==> (#[trigger] old(self).children@[k]).wf(),
        ensures
            final(self).children@.len() == old(self).children@.len(),
            forall|k: int| 0 <= k < final(self).children@.len() ==> (#[trigger] final(self).children@[k]).wf(),
            forall|k: int|
                0 <= k < final(self).children@.len() && k != i ==> #[trigger] final(self).children@[k]
                    == old(self).children@[k],
            final(self).tables() == old(self).tables(),
            r == landing_result(table_seek_stream(old(self).tables()[i as int], target@)),
            final(self).children@[i as int].stream() == landing_stream(
                table_seek_stream(old(self).tables()[i as int], target@),
            ),
    {
        let ghost before = self.children@;
        assert(before[i as int].wf());
        let res: Result<(), HummockError> = self.children[i].seek(target);
        proof {
            assert forall|k: int| 0 <= k < before.len() implies (#[trigger] self.children@[k]).wf() by {
                if k != i {
                    assert(self.children@[k] == before[k]);
                }
            }
            assert(self.tables() =~= old(self).tables());
        }
        res
    }

    /// Moves every table's iterator to its first entry.
    pub fn rewind(&mut self) -> (r: Result<(), HummockError>)
        requires
            old(self).wf(),
        ensures
            final(self).wf(),
            final(self).tables() == old(self).tables(),
            r == landing_result(merge_of(rewind_sources(old(self).tables()))),
            r is Ok ==> final(self).stream() == landing_stream(
                merge_of(rewind_sources(old(self).tables())),
            ),
    {
        let ghost tables = self.tables();
        let ghost sources = rewind_sources(tables);
        let n: usize = self.children.len();
        let mut i: usize = 0;
        while i < n
            invariant
                i <= n,
                n == self.children@.len(),
                self.tables() == tables,
                tables == old(self).tables(),
                sources == rewind_sources(tables),
                forall|k: int| 0 <= k < n ==> (#[trigger] self.children@[k]).wf(),
                first_fault_upto(sources, i as int) is None,
                forall|k: int|
                    0 <= k < i ==> (#[trigger] self.children@[k]).stream() == landing_stream(sources[k]),
            decreases n - i,
        {
            let res: Result<(), HummockError> = self.rewind_child(i);
            assert(sources[i as int] == table_stream(tables[i as int]));
            match res {
                Err(e) => {
                    proof {
                        assert(first_fault_upto(sources, i + 1) == Some(e));
                        lemma_first_fault_stable(sources, i + 1, n as int);
                    }
                    self.find_min();
                    assert(self.tables() =~= tables);
                    return Err(e);
                },
                Ok(_) => {},
            }
            i += 1;
        }
        proof {
            assert(self.streams() =~= landed(sources));
        }
        self.find_min();
        proof {
            assert(self.tables() =~= tables);
            lemma_merged_landing(self.streams());
        }
        Ok(())
    }

    /// Moves every table's iterator to its first entry whose key does not
    /// sort before `target`.
    pub fn seek(&mut self, target: &[u8]) -> (r: Result<(), HummockError>)
        requires
            old(self).wf(),
            target@.len() >= 8,
        ensures
            final(self).wf(),
            final(self).tables() == old(self).tables(),
            r == landing_result(merge_of(seek_sources(old(self).tables(), target@))),
            r is Ok ==> final(self).stream() == landing_stream(
                merge_of(seek_sources(old(self).tables(), target@)),
            ),
    {
        let ghost tables = self.tables();
        let ghost sources = seek_sources(tables, target@);
        let n: usize = self.children.len();
        let mut i: usize = 0;
        while i < n
            invariant
                i <= n,
                n == self.children@.len(),
                self.tables() == tables,
                tables == old(self).tables(),
                sources == seek_sources(tables, target@),
                target@.len() >= 8,
                forall|k: int| 0 <= k < n ==> (#[trigger] self.children@[k]).wf(),
                first_fault_upto(sources, i as int) is None,
                forall|k: int|
                    0 <= k < i ==> (#[trigger] self.children@[k]).stream() == landing_stream(sources[k]),
            decreases n - i,
        {
            let res: Result<(), HummockError> = self.seek_child(i, target);
            assert(sources[i as int] == table_seek_stream(tables[i as int], target@));
            match res {
                Err(e) => {
                    proof {
                        assert(first_fault_upto(sources, i + 1) == Some(e));
                        lemma_first_fault_stable(sources, i + 1, n as int);
                    }
                    self.find_min();
                    assert(self.tables() =~= tables);
                    return Err(e);
                },
                Ok(_) => {},
            }
            i += 1;
        }
        proof {
            assert(self.streams() =~= landed(sources));
        }
        self.find_min();
        proof {
            assert(self.tables() =~= tables);
            lemma_merged_landing(self.streams());
        }
        Ok(())
    }

    /// Moves to the next entry.
    pub fn next(&mut self) -> (r: Result<(), HummockError>)
        requires
            old(self).wf(),
            old(self).stream().items.len() > 0,
        ensures
            final(self).wf(),
            final(self).tables() == old(self).tables(),
            r == landing_result(stream_tail(old(self).stream())),
            r is Ok ==> final(self).stream() == landing_stream(stream_tail(old(self).stream())),
    {
        let ghost olds = self.streams();
        let ghost tables = self.tables();
        proof {
            lemma_merged_landing(olds);
            lemma_pick_min_valid(olds, olds.len() as int);
        }
        let c: usize = match self.current {
            Some(c) => c,
            None => {
                return Ok(());
            },
        };
        let ghost before = self.children@;
        assert(before[c as int].wf());
        let res: Result<(), HummockError> = self.children[c].next();
        proof {
            assert forall|k: int| 0 <= k < before.len() implies (#[trigger] self.children@[k]).wf()
                && self.children@[k].table@ == tables[k] by {
                if k != c {
                    assert(self.children@[k] == before[k]);
                }
                assert(before[k].table@ == tables[k]);
            }
            assert(self.tables() =~= tables);
        }
        let ghost news = self.streams();
        self.find_min();
        proof {
            assert(self.tables() =~= tables);
            let tail = stream_tail(olds[c as int]);
            if res is Ok {
                if tail.items.len() == 0 {
                    assert(tail.items =~= Seq::<EntryView>::empty());
                }
                assert(news =~= olds.update(c as int, tail)) by {
                    assert forall|k: int| 0 <= k < news.len() implies news[k] == olds.update(
                        c as int,
                        tail,
                    )[k] by {
                        if k != c {
                            assert(self.children@[k] == before[k]);
                        }
                    }
                }
                let rest = merged(news);
                lemma_merged_landing(news);
                assert(stream_tail(merged(olds)).items =~= rest.items);
            } else {
                assert(stream_tail(merged(olds)).items =~= Seq::<EntryView>::empty());
            }
        }
        res
    }
}

} // verus!
