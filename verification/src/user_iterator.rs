//! The user-key iterator: what a snapshot sees of a merged stream. Of each
//! user key it takes the newest entry that the snapshot can see, and yields
//! the key with its bytes unless that entry is a tombstone.

use vstd::prelude::*;
use crate::block::EntryView;
use crate::coding::{bytes_eq, clone_bytes, compare_bytes, KeyOrder, lex_lt};
use crate::error::HummockError;
use crate::key::{
    epoch_of, full_key_of, spec_epoch_of, spec_key_with_epoch, spec_user_key, user_key,
};
use crate::merging::{lemma_merged_landing, merge_of, MergingIterator, rewind_sources, seek_sources};
use crate::table::TableView;
use crate::table_iterator::{landing_result, landing_stream, Stream, stream_tail};
use crate::value::HummockValue;

verus! {

/// One end of a range of user keys, as plain values.
pub enum BoundView {
    Unbounded,
    Included(Seq<u8>),
    Excluded(Seq<u8>),
}

/// One end of a range of user keys.
#[derive(Debug)]
pub enum KeyBound {
    Unbounded,
    Included(Vec<u8>),
    Excluded(Vec<u8>),
}

impl View for KeyBound {
    type V = BoundView;

    open spec fn view(&self) -> BoundView {
        match self {
            KeyBound::Unbounded => BoundView::Unbounded,
            KeyBound::Included(k) => BoundView::Included(k@),
            KeyBound::Excluded(k) => BoundView::Excluded(k@),
        }
    }
}

/// A range of user keys, as plain values.
pub struct RangeView {
    pub start: BoundView,
    pub end: BoundView,
}

/// A range of user keys.
#[derive(Debug)]
pub struct KeyRange {
    pub start: KeyBound,
    pub end: KeyBound,
}

impl View for KeyRange {
    type V = RangeView;

    open spec fn view(&self) -> RangeView {
        RangeView { start: self.start@, end: self.end@ }
    }
}

/// Whether `uk` lies before the start of a range.
pub open spec fn before_start(uk: Seq<u8>, start: BoundView) -> bool {
    match start {
        BoundView::Unbounded => false,
        BoundView::Included(s) => lex_lt(uk, s),
        BoundView::Excluded(s) => lex_lt(uk, s) || uk == s,
    }
}

/// Whether `uk` lies beyond the end of a range.
pub open spec fn beyond_end(uk: Seq<u8>, end: BoundView) -> bool {
    match end {
        BoundView::Unbounded => false,
        BoundView::Included(e) => lex_lt(e, uk),
        BoundView::Excluded(e) => !lex_lt(uk, e),
    }
}

/// Whether `uk` lies in a range.
pub open spec fn in_range(uk: Seq<u8>, range: RangeView) -> bool {
    !before_start(uk, range.start) && !beyond_end(uk, range.end)
}

/// What a user-key iterator has before it: the user keys with their bytes
/// still to come, and the fault that ends them, if there is one.
pub struct UserStream {
    pub items: Seq<(Seq<u8>, Seq<u8>)>,
    pub fault: Option<HummockError>,
}

/// The stream behind the first pair of `s`.
pub open spec fn user_tail(s: UserStream) -> UserStream {
    UserStream { items: s.items.drop_first(), fault: s.fault }
}

/// What an iterator returns when it moves onto `s`.
pub open spec fn user_landing_result(s: UserStream) -> Result<(), HummockError> {
    if s.items.len() == 0 && s.fault is Some {
        Err(s.fault.unwrap())
    } else {
        Ok(())
    }
}

/// What a snapshot at `epoch` sees of a stream of entries in key order, up
/// to the end of a range. Entries of the user key `skip` have been decided
/// already. Of every other user key the first entry whose epoch the snapshot
/// can see decides: a put is yielded, a tombstone hides the key.
pub open spec fn visible(
    items: Seq<EntryView>,
    fault: Option<HummockError>,
    epoch: u64,
    skip: Option<Seq<u8>>,
    end: BoundView,
) -> UserStream
    decreases items.len(),
{
    if items.len() == 0 {
        UserStream { items: Seq::empty(), fault: fault }
    } else {
        let uk = spec_user_key(items[0].0);
        if beyond_end(uk, end) {
            UserStream { items: Seq::empty(), fault: None }
        } else if skip == Some(uk) || spec_epoch_of(items[0].0) > epoch {
            visible(items.drop_first(), fault, epoch, skip, end)
        } else {
            match items[0].1 {
                None => visible(items.drop_first(), fault, epoch, Some(uk), end),
                Some(v) => UserStream {
                    items: seq![(uk, v)] + visible(items.drop_first(), fault, epoch, Some(uk), end).items,
                    fault: visible(items.drop_first(), fault, epoch, Some(uk), end).fault,
                },
            }
        }
    }
}

/// What a reader sees ends with the fault that the entries end with, if it
/// ends with one.
pub proof fn lemma_visible_fault(
    items: Seq<EntryView>,
    fault: Option<HummockError>,
    epoch: u64,
    skip: Option<Seq<u8>>,
    end: BoundView,
)
    ensures
        visible(items, fault, epoch, skip, end).fault is Some ==> visible(
            items,
            fault,
            epoch,
            skip,
            end,
        ).fault == fault,
    decreases items.len(),
{
    if items.len() > 0 {
        let uk = spec_user_key(items[0].0);
        lemma_visible_fault(items.drop_first(), fault, epoch, skip, end);
        lemma_visible_fault(items.drop_first(), fault, epoch, Some(uk), end);
    }
}

/// Whether a snapshot at `epoch` yields the entry `e` where it meets it: the
/// user key lies in the range and is not decided yet, the snapshot sees the
/// epoch, and the entry is a put.
pub open spec fn yields(e: EntryView, epoch: u64, skip: Option<Seq<u8>>, end: BoundView) -> bool {
    &&& !beyond_end(spec_user_key(e.0), end)
    &&& skip != Some(spec_user_key(e.0))
    &&& spec_epoch_of(e.0) <= epoch
    &&& e.1 is Some
}

/// The merged stream that a scan of a range begins with.
pub open spec fn scan_source(tables: Seq<TableView>, start: BoundView) -> Stream {
    match start {
        BoundView::Unbounded => merge_of(rewind_sources(tables)),
        BoundView::Included(s) => merge_of(seek_sources(tables, spec_key_with_epoch(s, u64::MAX))),
        BoundView::Excluded(s) => merge_of(seek_sources(tables, spec_key_with_epoch(s, u64::MAX))),
    }
}

/// The user key that a scan of a range passes over at its start.
pub open spec fn start_skip(start: BoundView) -> Option<Seq<u8>> {
    match start {
        BoundView::Excluded(s) => Some(s),
        _ => None,
    }
}

/// What a scan of `range` over `tables` yields to a snapshot at `epoch`.
pub open spec fn scan_stream(tables: Seq<TableView>, range: RangeView, epoch: u64) -> UserStream {
    visible(
        scan_source(tables, range.start).items,
        scan_source(tables, range.start).fault,
        epoch,
        start_skip(range.start),
        range.end,
    )
}

/// What a scan yields from the first user key on that is not smaller than `uk`.
pub open spec fn scan_seek_stream(tables: Seq<TableView>, range: RangeView, epoch: u64, uk: Seq<u8>) -> UserStream {
    if before_start(uk, range.start) {
        scan_stream(tables, range, epoch)
    } else {
        visible(
            merge_of(seek_sources(tables, spec_key_with_epoch(uk, u64::MAX))).items,
            merge_of(seek_sources(tables, spec_key_with_epoch(uk, u64::MAX))).fault,
            epoch,
            None,
            range.end,
        )
    }
}

/// Whether `uk` lies before the start `start`.
pub fn is_before_start(uk: &[u8], start: &KeyBound) -> (r: bool)
    ensures
        r == before_start(uk@, start@),
{
    match start {
        KeyBound::Unbounded => false,
        KeyBound::Included(s) => match compare_bytes(uk, s.as_slice()) {
            KeyOrder::Less => true,
            _ => false,
        },
        KeyBound::Excluded(s) => match compare_bytes(uk, s.as_slice()) {
            KeyOrder::Greater => false,
            _ => true,
        },
    }
}

/// Whether `uk` lies beyond the end `end`.
pub fn is_beyond_end(uk: &[u8], end: &KeyBound) -> (r: bool)
    ensures
        r == beyond_end(uk@, end@),
{
    match end {
        KeyBound::Unbounded => false,
        KeyBound::Included(e) => match compare_bytes(e.as_slice(), uk) {
            KeyOrder::Less => true,
            _ => false,
        },
        KeyBound::Excluded(e) => match compare_bytes(uk, e.as_slice()) {
            KeyOrder::Less => false,
            _ => true,
        },
    }
}

/// An iterator over the user keys that a snapshot sees in a range, in
/// ascending order, each with the bytes of its newest visible put.
pub struct UserKeyIterator {
    pub iter: MergingIterator,
    pub epoch: u64,
    pub range: KeyRange,
    pub skip: Option<Vec<u8>>,
    pub valid: bool,
}

impl UserKeyIterator {
    /// The user key that has been decided, as plain values.
    pub open spec fn skip_view(&self) -> Option<Seq<u8>> {
        match self.skip {
            Some(k) => Some(k@),
            None => None,
        }
    }

    /// What the iterator has before it.
    pub open spec fn stream(&self) -> UserStream {
        visible(
            self.iter.stream().items,
            self.iter.stream().fault,
            self.epoch,
            self.skip_view(),
            self.range@.end,
        )
    }

    /// The tables that the iterator reads.
    pub open spec fn tables(&self) -> Seq<TableView> {
        self.iter.tables()
    }

    /// The merging iterator is well formed, and `valid` says whether the
    /// iterator stands at a pair; then the merging iterator stands at the put
    /// that the pair is taken from.
    pub open spec fn wf(&self) -> bool {
        &&& self.iter.wf()
        &&& self.valid == (self.stream().items.len() > 0)
        &&& (self.valid ==> self.iter.stream().items.len() > 0 && yields(
            self.iter.stream().items[0],
            self.epoch,
            self.skip_view(),
            self.range@.end,
        ))
    }

    /// An iterator over `range` as a snapshot at `epoch` sees it. It stands
    /// nowhere until it is rewound or sought.
    pub fn new(iter: MergingIterator, range: KeyRange, epoch: u64) -> (r: UserKeyIterator)
        requires
            iter.wf(),
        ensures
            r.iter.wf(),
            r.tables() == iter.tables(),
            r.range@ == range@,
            r.epoch == epoch,
    {
        UserKeyIterator { iter, epoch, range, skip: None, valid: false }
    }

    /// Whether the iterator stands at a pair.
    pub fn is_valid(&self) -> (r: bool)
        requires
            self.wf(),
        ensures
            r == (self.stream().items.len() > 0),
    {
        self.valid
    }

    /// The user key at the iterator.
    pub fn key(&self) -> (r: &[u8])
        requires
            self.wf(),
            self.stream().items.len() > 0,
        ensures
            r@ == self.stream().items[0].0,
    {
        user_key(self.iter.key())
    }

    /// The bytes at the iterator.
    pub fn value(&self) -> (r: &[u8])
        requires
            self.wf(),
            self.stream().items.len() > 0,
        ensures
            r@ == self.stream().items[0].1,
    {
        match self.iter.value() {
            HummockValue::Put(bytes) => bytes.as_slice(),
            HummockValue::Delete => {
                let e: &[u8] = &[];
                e
            },
        }
    }

    /// Moves the merging iterator on until it stands at a put that the
    /// snapshot sees, or beyond the range, or at its end.
    fn settle(&mut self) -> (r: Result<(), HummockError>)
        requires
            old(self).iter.wf(),
        ensures
            final(self).iter.wf(),
            final(self).tables() == old(self).tables(),
            final(self).range == old(self).range,
            final(self).epoch == old(self).epoch,
            r == user_landing_result(old(self).stream()),
            r is Ok ==> final(self).wf() && final(self).stream() == old(self).stream(),
    {
        let ghost target = self.stream();
        loop
            invariant
                self.iter.wf(),
                self.tables() == old(self).tables(),
                self.range == old(self).range,
                self.epoch == old(self).epoch,
                self.stream() == target,
                target == old(self).stream(),
            decreases self.iter.stream().items.len(),
        {
            proof {
                lemma_merged_landing(self.iter.streams());
            }
            if !self.iter.is_valid() {
                self.valid = false;
                return Ok(());
            }
            let fk: &[u8] = self.iter.key();
            let uk: &[u8] = user_key(fk);
            if is_beyond_end(uk, &self.range.end) {
                self.valid = false;
                return Ok(());
            }
            let decided: bool = match &self.skip {
                Some(k) => bytes_eq(k.as_slice(), uk),
                None => false,
            };
            let ghost before = self.iter.stream();
            if decided || epoch_of(fk) > self.epoch {
                let res: Result<(), HummockError> = self.iter.next();
                proof {
                    lemma_settle_step(before, self.iter.stream(), res);
                    assert(target == visible(
                        before.items.drop_first(),
                        before.fault,
                        self.epoch,
                        self.skip_view(),
                        self.range@.end,
                    ));
                }
                match res {
                    Err(e) => {
                        self.valid = false;
                        return Err(e);
                    },
                    Ok(_) => {},
                }
            } else if self.iter.value().is_delete() {
                let ghost ukv = uk@;
                self.skip = Some(clone_bytes(uk));
                let res: Result<(), HummockError> = self.iter.next();
                proof {
                    lemma_settle_step(before, self.iter.stream(), res);
                    assert(target == visible(
                        before.items.drop_first(),
                        before.fault,
                        self.epoch,
                        Some(ukv),
                        self.range@.end,
                    ));
                }
                match res {
                    Err(e) => {
                        self.valid = false;
                        return Err(e);
                    },
                    Ok(_) => {},
                }
            } else {
                self.valid = true;
                return Ok(());
            }
        }
    }

    /// Moves to the first pair of the range.
    pub fn rewind(&mut self) -> (r: Result<(), HummockError>)
        requires
            old(self).iter.wf(),
        ensures
            final(self).iter.wf(),
            final(self).tables() == old(self).tables(),
            final(self).range == old(self).range,
            final(self).epoch == old(self).epoch,
            r == user_landing_result(scan_stream(old(self).tables(), old(self).range@, old(self).epoch)),
            r is Ok ==> final(self).wf() && final(self).stream() == scan_stream(
                old(self).tables(),
                old(self).range@,
                old(self).epoch,
            ),
    {
        let res: Result<(), HummockError> = match &self.range.start {
            KeyBound::Unbounded => {
                self.skip = None;
                self.iter.rewind()
            },
            KeyBound::Included(s) => {
                let target: Vec<u8> = full_key_of(s.as_slice(), u64::MAX);
                self.skip = None;
                self.iter.seek(target.as_slice())
            },
            KeyBound::Excluded(s) => {
                let target: Vec<u8> = full_key_of(s.as_slice(), u64::MAX);
                self.skip = Some(clone_bytes(s.as_slice()));
                self.iter.seek(target.as_slice())
            },
        };
        match res {
            Err(e) => {
                self.valid = false;
                Err(e)
            },
            Ok(_) => self.settle(),
        }
    }

    /// Moves to the first pair of the range whose user key is not smaller
    /// than `uk`.
    pub fn seek(&mut self, uk: &[u8]) -> (r: Result<(), HummockError>)
        requires
            old(self).iter.wf(),
        ensures
            final(self).iter.wf(),
            final(self).tables() == old(self).tables(),
            final(self).range == old(self).range,
            final(self).epoch == old(self).epoch,
            r == user_landing_result(
                scan_seek_stream(old(self).tables(), old(self).range@, old(self).epoch, uk@),
            ),
            r is Ok ==> final(self).wf() && final(self).stream() == scan_seek_stream(
                old(self).tables(),
                old(self).range@,
                old(self).epoch,
                uk@,
            ),
    {
        if is_before_start(uk, &self.range.start) {
            return self.rewind();
        }
        let target: Vec<u8> = full_key_of(uk, u64::MAX);
        self.skip = None;
        match self.iter.seek(target.as_slice()) {
            Err(e) => {
                self.valid = false;
                Err(e)
            },
            Ok(_) => self.settle(),
        }
    }

    /// Moves to the next pair.
    pub fn next(&mut self) -> (r: Result<(), HummockError>)
        requires
            old(self).wf(),
            old(self).stream().items.len() > 0,
        ensures
            final(self).iter.wf(),
            final(self).tables() == old(self).tables(),
            final(self).range == old(self).range,
            final(self).epoch == old(self).epoch,
            r == user_landing_result(user_tail(old(self).stream())),
            r is Ok ==> final(self).wf() && final(self).stream() == user_tail(old(self).stream()),
    {
        let ghost before = self.iter.stream();
        let ghost target = user_tail(self.stream());
        let uk: Vec<u8> = clone_bytes(user_key(self.iter.key()));
        self.skip = Some(uk);
        let res: Result<(), HummockError> = self.iter.next();
        proof {
            let rest = visible(
                before.items.drop_first(),
                before.fault,
                self.epoch,
                self.skip_view(),
                self.range@.end,
            );
            assert(target.items =~= rest.items);
            lemma_merged_landing(self.iter.streams());
            if res is Ok {
                if before.items.len() == 1 {
                    assert(before.items.drop_first() =~= Seq::<EntryView>::empty());
                }
            }
        }
        match res {
            Err(e) => {
                self.valid = false;
                Err(e)
            },
            Ok(_) => self.settle(),
        }
    }
}

/// What a step of the merging iterator leaves of a stream.
proof fn lemma_settle_step(before: Stream, after: Stream, res: Result<(), HummockError>)
    requires
        before.items.len() > 0,
        res == landing_result(stream_tail(before)),
        res is Ok ==> after == landing_stream(stream_tail(before)),
        after.items.len() == 0 ==> after.fault is None,
    ensures
        res is Ok ==> after.items == before.items.drop_first() && after.fault == before.fault
            && after.items.len() < before.items.len(),
        res matches Err(e) ==> before.items.drop_first().len() == 0 && before.fault == Some(e),
{
    if res is Ok {
        if before.items.len() == 1 {
            assert(before.items.drop_first() =~= Seq::<EntryView>::empty());
            assert(after.items =~= before.items.drop_first());
        }
    }
}

} // verus!
