//! Streams of entries, and the iterator over one table.
//!
//! An iterator stands on a stream: the entries still to come, and the fault,
//! if there is one, that ends them. A fault is met when the iterator moves
//! beyond the last entry before it.

use vstd::prelude::*;
use crate::block::{BlockIterator, EntryView, lemma_lower_bound_props, lower_bound};
use crate::error::HummockError;
use crate::table::{
    block_lower_bound, lemma_block_lower_bound_props, spec_block_entries, Table, TableView,
};
use crate::value::HummockValue;

verus! {

/// What an iterator has before it: the entries still to come, and the fault
/// that ends them, if there is one.
pub struct Stream {
    pub items: Seq<EntryView>,
    pub fault: Option<HummockError>,
}

/// The stream without entries and without a fault.
pub open spec fn empty_stream() -> Stream {
    Stream { items: Seq::empty(), fault: None }
}

/// The stream behind the first entry of `s`.
pub open spec fn stream_tail(s: Stream) -> Stream {
    Stream { items: s.items.drop_first(), fault: s.fault }
}

/// What an iterator returns when it moves onto `s`: the fault, where no entry
/// comes before it.
pub open spec fn landing_result(s: Stream) -> Result<(), HummockError> {
    if s.items.len() == 0 && s.fault is Some {
        Err(s.fault.unwrap())
    } else {
        Ok(())
    }
}

/// Where an iterator stands after it moved onto `s`.
pub open spec fn landing_stream(s: Stream) -> Stream {
    if s.items.len() == 0 {
        empty_stream()
    } else {
        s
    }
}

/// The stream of a table from block `b` on: the entries of the blocks up to
/// the first block that is refused, and that refusal.
#[verifier::opaque]
pub open spec fn table_stream_from(t: TableView, b: int) -> Stream
    decreases t.meta.index.len() - b,
{
    if b < 0 || b >= t.meta.index.len() {
        empty_stream()
    } else {
        match spec_block_entries(t.data, t.meta, b) {
            Err(e) => Stream { items: Seq::empty(), fault: Some(e) },
            Ok(es) => Stream {
                items: es + table_stream_from(t, b + 1).items,
                fault: table_stream_from(t, b + 1).fault,
            },
        }
    }
}

/// The stream of a table from its first entry on.
pub open spec fn table_stream(t: TableView) -> Stream {
    table_stream_from(t, 0)
}

/// The stream of a table ends as bytes are refused, where it meets a fault.
pub proof fn lemma_table_stream_fault(t: TableView, b: int)
    ensures
        table_stream_from(t, b).fault matches Some(e) ==> crate::error::read_fault(e),
    decreases t.meta.index.len() - b,
{
    reveal_with_fuel(table_stream_from, 2);
    if 0 <= b < t.meta.index.len() {
        crate::table::lemma_block_fault(t.data, t.meta, b);
        lemma_table_stream_fault(t, b + 1);
    }
}

/// The stream of a table from the first entry on whose key does not sort
/// before `target`.
#[verifier::opaque]
pub open spec fn table_seek_stream(t: TableView, target: Seq<u8>) -> Stream {
    let b = block_lower_bound(t.meta.index, target);
    if b >= t.meta.index.len() {
        empty_stream()
    } else {
        match spec_block_entries(t.data, t.meta, b) {
            Err(e) => Stream { items: Seq::empty(), fault: Some(e) },
            Ok(es) => Stream {
                items: es.skip(lower_bound(es, target)) + table_stream_from(t, b + 1).items,
                fault: table_stream_from(t, b + 1).fault,
            },
        }
    }
}

/// The stream of a table from a key on ends as bytes are refused, where it
/// meets a fault.
pub proof fn lemma_seek_stream_fault(t: TableView, target: Seq<u8>)
    ensures
        table_seek_stream(t, target).fault matches Some(e) ==> crate::error::read_fault(e),
{
    reveal(table_seek_stream);
    let b = block_lower_bound(t.meta.index, target);
    if b < t.meta.index.len() {
        crate::table::lemma_block_fault(t.data, t.meta, b);
        lemma_table_stream_fault(t, b + 1);
    }
}

/// An iterator over the entries of one table. It reads a block when it
/// enters it.
pub struct TableIterator {
    pub table: Table,
    pub block_idx: usize,
    pub cursor: Option<BlockIterator>,
}

impl TableIterator {
    /// The table is well formed, and a cursor stands at an entry of the
    /// block that the iterator is in.
    pub closed spec fn wf(&self) -> bool {
        &&& self.table.wf()
        &&& self.table.loaded()
        &&& (self.cursor matches Some(c) ==> {
            &&& c.wf()
            &&& self.block_idx < self.table@.meta.index.len()
            &&& spec_block_entries(self.table@.data, self.table@.meta, self.block_idx as int) == Ok::<
                Seq<EntryView>,
                HummockError,
            >(c.block@)
            &&& c.remaining().len() > 0
        })
    }

    /// What the iterator has before it.
    pub closed spec fn stream(&self) -> Stream {
        match self.cursor {
            None => empty_stream(),
            Some(c) => Stream {
                items: c.remaining() + table_stream_from(self.table@, self.block_idx + 1).items,
                fault: table_stream_from(self.table@, self.block_idx + 1).fault,
            },
        }
    }

    /// An iterator over `table` that stands nowhere yet.
    pub fn new(table: Table) -> (r: TableIterator)
        requires
            table.wf(),
            table.loaded(),
        ensures
            r.wf(),
            r.table == table,
            r.table@ == table@,
            r.stream() == empty_stream(),
    {
        TableIterator { table, block_idx: 0, cursor: None }
    }

    /// Whether the iterator stands at an entry.
    pub fn is_valid(&self) -> (r: bool)
        requires
            self.wf(),
        ensures
            r == (self.stream().items.len() > 0),
    {
        self.cursor.is_some()
    }

    /// The full key at the iterator.
    pub fn key(&self) -> (r: &[u8])
        requires
            self.wf(),
            self.stream().items.len() > 0,
        ensures
            r@ == self.stream().items[0].0,
    {
        match &self.cursor {
            Some(c) => c.key(),
            None => {
                let e: &[u8] = &[];
                e
            },
        }
    }

    /// The value at the iterator.
    pub fn value(&self) -> (r: &HummockValue)
        requires
            self.wf(),
            self.stream().items.len() > 0,
        ensures
            r@ == self.stream().items[0].1,
    {
        match &self.cursor {
            Some(c) => c.value(),
            None => &HummockValue::Delete,
        }
    }

    /// Moves to the first entry of block `b`, or beyond the last block.
    fn enter_block(&mut self, b: usize) -> (r: Result<(), HummockError>)
        requires
            old(self).table.wf(),
            old(self).table.loaded(),
            b <= old(self).table@.meta.index.len(),
        ensures
            final(self).wf(),
            final(self).table@ == old(self).table@,
            r == landing_result(table_stream_from(old(self).table@, b as int)),
            final(self).stream() == landing_stream(table_stream_from(old(self).table@, b as int)),
    {
        reveal_with_fuel(table_stream_from, 2);
        if b >= self.table.block_count() {
            self.cursor = None;
            return Ok(());
        }
        match self.table.read_block(b) {
            Err(e) => {
                self.cursor = None;
                Err(e)
            },
            Ok(block) => {
                self.block_idx = b;
                self.cursor = Some(BlockIterator::new(block));
                Ok(())
            },
        }
    }

    /// Moves to the first entry of the table.
    pub fn rewind(&mut self) -> (r: Result<(), HummockError>)
        requires
            old(self).wf(),
        ensures
            final(self).wf(),
            final(self).table@ == old(self).table@,
            r == landing_result(table_stream(old(self).table@)),
            final(self).stream() == landing_stream(table_stream(old(self).table@)),
    {
        self.enter_block(0)
    }

    /// Moves to the first entry whose key does not sort before `target`.
    pub fn seek(&mut self, target: &[u8]) -> (r: Result<(), HummockError>)
        requires
            old(self).wf(),
            target@.len() >= 8,
        ensures
            final(self).wf(),
            final(self).table@ == old(self).table@,
            r == landing_result(table_seek_stream(old(self).table@, target@)),
            final(self).stream() == landing_stream(table_seek_stream(old(self).table@, target@)),
    {
        reveal(table_seek_stream);
        let b: usize = self.table.find_block(target);
        if b >= self.table.block_count() {
            self.cursor = None;
            return Ok(());
        }
        match self.table.read_block(b) {
            Err(e) => {
                self.cursor = None;
                Err(e)
            },
            Ok(block) => {
                let mut c: BlockIterator = BlockIterator::new(block);
                c.seek(target);
                proof {
                    lemma_block_lower_bound_props(self.table@.meta.index, target@, 0);
                    lemma_lower_bound_props(c.block@, target@, 0);
                    let lb = lower_bound(c.block@, target@);
                    if lb == c.block@.len() {
                        assert(crate::key::full_key_lt(c.block@[c.block@.len() - 1].0, target@));
                    }
                }
                self.block_idx = b;
                self.cursor = Some(c);
                Ok(())
            },
        }
    }

    /// Moves to the next entry.
    pub fn next(&mut self) -> (r: Result<(), HummockError>)
        requires
            old(self).wf(),
            old(self).stream().items.len() > 0,
        ensures
            final(self).wf(),
            final(self).table@ == old(self).table@,
            r == landing_result(stream_tail(old(self).stream())),
            final(self).stream() == landing_stream(stream_tail(old(self).stream())),
    {
        let ghost rest = table_stream_from(self.table@, self.block_idx + 1);
        let mut c: BlockIterator = match self.cursor.take() {
            Some(c) => c,
            None => {
                return Ok(());
            },
        };
        let ghost before = c.remaining();
        c.next();
        if c.is_valid() {
            assert(c.remaining() + rest.items =~= (before + rest.items).drop_first());
            self.cursor = Some(c);
            Ok(())
        } else {
            assert(before.drop_first() =~= Seq::<EntryView>::empty());
            assert((before + rest.items).drop_first() =~= rest.items);
            let b: usize = self.block_idx;
            let n: usize = self.table.block_count();
            self.enter_block(b + 1)
        }
    }
}

/// The key at which a well-formed iterator stands is well formed, and the
/// table of a well-formed iterator is well formed.
pub proof fn lemma_head_valid(it: TableIterator)
    requires
        it.wf(),
    ensures
        it.table.wf(),
        it.stream().items.len() > 0 ==> crate::key::valid_full_key(it.stream().items[0].0),
{
    if it.stream().items.len() > 0 {
        let c = it.cursor.unwrap();
        assert(c.remaining()[0] == c.block@[c.idx as int]);
        assert(crate::key::valid_full_key(c.block@[c.idx as int].0));
    }
}

} // verus!
