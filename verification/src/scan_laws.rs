//! What a scan yields on intact tables: exactly the user keys of the range
//! whose newest visible entry is a put, in ascending order, each once.

use vstd::prelude::*;
use crate::block::{EntryView, keys_valid, lemma_lower_bound_props, lower_bound, sorted_entries};
use crate::coding::{
    lemma_lex_lt_asymmetric, lemma_lex_lt_irreflexive, lemma_lex_lt_total, lemma_lex_lt_transitive,
    lex_lt,
};
use crate::error::HummockError;
use crate::intact::{all_entries, table_entries, table_intact, tables_intact};
use crate::key::{
    full_key_lt, lemma_key_with_epoch_parts, spec_epoch_of, spec_key_with_epoch, spec_user_key,
    valid_full_key,
};
use crate::merge_laws::{
    first_seen, first_seen_in, in_streams, lemma_first_seen_is_seen, lemma_merged_first_seen,
    lemma_merged_sorted, lemma_order_is_epoch, sorted_loosely, stream_ok, streams_ok,
};
use crate::merging::{first_fault_upto, landed, merge_of, merged, rewind_sources, seek_sources};
use crate::read_laws::{
    lemma_newest_by_table, lemma_newest_is_largest, newest, newest_in_tables, seen_by, value_seen,
};
use crate::snapshot::spec_scan;
use crate::table::TableView;
use crate::table_iterator::{landing_stream, Stream};
use crate::table_order::{lemma_intact_sorted, lemma_seek_lands};
use crate::user_iterator::{
    beyond_end, BoundView, in_range, RangeView, scan_source, scan_stream, start_skip, visible,
};

verus! {

/// Whether a scan yields the user key `uk`.
pub open spec fn yields_key(out: Seq<(Seq<u8>, Seq<u8>)>, uk: Seq<u8>) -> bool {
    exists|k: int| 0 <= k < out.len() && (#[trigger] out[k]).0 == uk
}

/// The user keys increase strictly.
pub open spec fn ascending(out: Seq<(Seq<u8>, Seq<u8>)>) -> bool {
    forall|i: int, j: int| 0 <= i < j < out.len() ==> lex_lt((#[trigger] out[i]).0, (#[trigger] out[j]).0)
}

/// No user key among `items` is smaller than `k`.
pub open spec fn not_below(items: Seq<EntryView>, k: Seq<u8>) -> bool {
    forall|j: int| 0 <= j < items.len() ==> !lex_lt(spec_user_key(#[trigger] items[j].0), k)
}

/// Beyond the end of a range lies what is not smaller than a key beyond it.
pub proof fn lemma_beyond_monotone(a: Seq<u8>, b: Seq<u8>, end: BoundView)
    requires
        !lex_lt(b, a),
        beyond_end(a, end),
    ensures
        beyond_end(b, end),
{
    lemma_lex_lt_total(a, b);
    match end {
        BoundView::Unbounded => {},
        BoundView::Included(e) => {
            if a != b {
                lemma_lex_lt_transitive(e, a, b);
            }
        },
        BoundView::Excluded(e) => {
            if lex_lt(b, e) && a != b {
                lemma_lex_lt_transitive(a, b, e);
            }
        },
    }
}

/// The first entry seen of a user key, with its place: no entry before it
/// is seen.
pub proof fn lemma_first_seen_place(items: Seq<EntryView>, uk: Seq<u8>, epoch: u64) -> (k: int)
    requires
        first_seen(items, uk, epoch) is Some,
    ensures
        0 <= k < items.len(),
        items[k] == first_seen(items, uk, epoch).unwrap(),
        seen_by(items[k], uk, epoch),
        forall|j: int| 0 <= j < k ==> !seen_by(#[trigger] items[j], uk, epoch),
    decreases items.len(),
{
    if seen_by(items[0], uk, epoch) {
        0
    } else {
        let rest = items.drop_first();
        let k = lemma_first_seen_place(rest, uk, epoch);
        assert forall|j: int| 0 <= j < k + 1 implies !seen_by(#[trigger] items[j], uk, epoch) by {
            if j > 0 {
                assert(items[j] == rest[j - 1]);
            }
        }
        assert(items[k + 1] == rest[k]);
        k + 1
    }
}

/// What is met first behind entries that are not seen is what is met first.
pub proof fn lemma_first_seen_skip(items: Seq<EntryView>, uk: Seq<u8>, epoch: u64, p: int)
    requires
        0 <= p <= items.len(),
        forall|j: int| 0 <= j < p ==> !seen_by(#[trigger] items[j], uk, epoch),
    ensures
        first_seen(items.skip(p), uk, epoch) == first_seen(items, uk, epoch),
    decreases p,
{
    if p == 0 {
        assert(items.skip(0) =~= items);
    } else {
        let rest = items.drop_first();
        assert forall|j: int| 0 <= j < p - 1 implies !seen_by(#[trigger] rest[j], uk, epoch) by {
            assert(rest[j] == items[j + 1]);
        }
        lemma_first_seen_skip(rest, uk, epoch, p - 1);
        assert(rest.skip(p - 1) =~= items.skip(p));
        assert(!seen_by(items[0], uk, epoch));
    }
}

/// In entries in key order, the entry met first of a user key is the newest.
pub proof fn lemma_first_seen_newest(entries: Seq<EntryView>, uk: Seq<u8>, epoch: u64)
    requires
        keys_valid(entries),
        sorted_entries(entries),
    ensures
        first_seen(entries, uk, epoch) == newest(entries, uk, epoch),
{
    lemma_first_seen_is_seen(entries, uk, epoch);
    lemma_newest_is_largest(entries, uk, epoch, entries.len() as int);
    match first_seen(entries, uk, epoch) {
        Some(e) => {
            let k = lemma_first_seen_place(entries, uk, epoch);
            let n = newest(entries, uk, epoch).unwrap();
            let m = choose|m: int| 0 <= m < entries.len() && entries[m] == n;
            if m > k {
                assert(full_key_lt(entries[k].0, entries[m].0));
                lemma_order_is_epoch(entries[k], entries[m], uk, epoch);
            }
        },
        None => {},
    }
}

/// What a snapshot sees of entries in key order: the user keys come in
/// ascending order, none is beyond the end or decided already, and each
/// comes with the bytes of the entry that is met first of it.
pub proof fn lemma_visible_sound(
    items: Seq<EntryView>,
    epoch: u64,
    skip: Option<Seq<u8>>,
    end: BoundView,
)
    requires
        keys_valid(items),
        sorted_loosely(items),
        skip matches Some(k) ==> not_below(items, k),
    ensures
        visible(items, None, epoch, skip, end).fault is None,
        ascending(visible(items, None, epoch, skip, end).items),
        forall|k: int|
            0 <= k < visible(items, None, epoch, skip, end).items.len() ==> {
                let p = #[trigger] visible(items, None, epoch, skip, end).items[k];
                &&& !beyond_end(p.0, end)
                &&& skip != Some(p.0)
                &&& first_seen(items, p.0, epoch) matches Some(e) && e.1 == Some(p.1)
                &&& items.len() > 0 && !lex_lt(p.0, spec_user_key(items[0].0))
            },
    decreases items.len(),
{
    if items.len() > 0 {
        let e = items[0];
        let uk = spec_user_key(e.0);
        let rest = items.drop_first();
        let out = visible(items, None, epoch, skip, end).items;
        assert forall|j: int| 0 <= j < rest.len() implies valid_full_key(#[trigger] rest[j].0) by {
            assert(rest[j] == items[j + 1]);
        }
        assert forall|a: int, b: int| 0 <= a < b < rest.len() implies !full_key_lt(
            #[trigger] rest[b].0,
            #[trigger] rest[a].0,
        ) by {
            assert(rest[a] == items[a + 1] && rest[b] == items[b + 1]);
        }
        assert(not_below(rest, uk)) by {
            assert forall|j: int| 0 <= j < rest.len() implies !lex_lt(
                spec_user_key(#[trigger] rest[j].0),
                uk,
            ) by {
                assert(rest[j] == items[j + 1]);
                assert(!full_key_lt(items[j + 1].0, items[0].0));
            }
        }
        if rest.len() > 0 {
            assert(rest[0] == items[1]);
            assert(!full_key_lt(items[1].0, items[0].0));
        }
        lemma_lex_lt_irreflexive(uk);
        if beyond_end(uk, end) {
        } else if skip == Some(uk) || spec_epoch_of(e.0) > epoch {
            if skip is Some {
                let k0 = skip.unwrap();
                assert forall|j: int| 0 <= j < rest.len() implies !lex_lt(
                    spec_user_key(#[trigger] rest[j].0),
                    k0,
                ) by {
                    assert(rest[j] == items[j + 1]);
                }
            }
            lemma_visible_sound(rest, epoch, skip, end);
            assert forall|k: int| 0 <= k < out.len() implies {
                let p = #[trigger] out[k];
                &&& first_seen(items, p.0, epoch) matches Some(x) && x.1 == Some(p.1)
                &&& !lex_lt(p.0, uk)
            } by {
                let p = out[k];
                assert(!seen_by(e, p.0, epoch));
                if lex_lt(p.0, uk) {
                    lemma_lex_lt_total(spec_user_key(rest[0].0), uk);
                    if spec_user_key(rest[0].0) != uk {
                        lemma_lex_lt_transitive(p.0, uk, spec_user_key(rest[0].0));
                    }
                }
            }
        } else {
            lemma_visible_sound(rest, epoch, Some(uk), end);
            let behind = visible(rest, None, epoch, Some(uk), end).items;
            if skip is Some {
                assert(!lex_lt(spec_user_key(items[0].0), skip.unwrap()));
                lemma_lex_lt_total(uk, skip.unwrap());
            }
            // What comes behind belongs to larger user keys.
            assert forall|k: int| 0 <= k < behind.len() implies lex_lt(uk, (#[trigger] behind[k]).0)
                && !seen_by(e, behind[k].0, epoch) && skip != Some(behind[k].0) by {
                let p = behind[k];
                lemma_lex_lt_total(uk, p.0);
                lemma_lex_lt_total(spec_user_key(rest[0].0), uk);
                if lex_lt(p.0, uk) {
                    if spec_user_key(rest[0].0) != uk {
                        lemma_lex_lt_transitive(p.0, uk, spec_user_key(rest[0].0));
                    }
                }
                if skip is Some {
                    lemma_lex_lt_asymmetric(uk, skip.unwrap());
                }
            }
            match e.1 {
                None => {
                    assert(out == behind);
                    assert forall|k: int| 0 <= k < out.len() implies {
                        let p = #[trigger] out[k];
                        first_seen(items, p.0, epoch) matches Some(x) && x.1 == Some(p.1) && !lex_lt(
                            p.0,
                            uk,
                        )
                    } by {
                        let p = behind[k];
                        lemma_lex_lt_asymmetric(uk, p.0);
                    }
                },
                Some(v) => {
                    assert(out == seq![(uk, v)] + behind);
                    assert forall|k: int| 0 <= k < out.len() implies {
                        let p = #[trigger] out[k];
                        &&& !beyond_end(p.0, end)
                        &&& skip != Some(p.0)
                        &&& first_seen(items, p.0, epoch) matches Some(x) && x.1 == Some(p.1)
                        &&& !lex_lt(p.0, uk)
                    } by {
                        if k > 0 {
                            let p = behind[k - 1];
                            assert(out[k] == p);
                            lemma_lex_lt_asymmetric(uk, p.0);
                        }
                    }
                    assert forall|i: int, j: int| 0 <= i < j < out.len() implies lex_lt(
                        (#[trigger] out[i]).0,
                        (#[trigger] out[j]).0,
                    ) by {
                        assert(out[j] == behind[j - 1]);
                        if i > 0 {
                            assert(out[i] == behind[i - 1]);
                        }
                    }
                },
            }
        }
    }
}

/// A user key within the range whose entry met first is a put is yielded.
pub proof fn lemma_visible_complete(
    items: Seq<EntryView>,
    epoch: u64,
    skip: Option<Seq<u8>>,
    end: BoundView,
    uk: Seq<u8>,
)
    requires
        keys_valid(items),
        sorted_loosely(items),
        skip != Some(uk),
        !beyond_end(uk, end),
        first_seen(items, uk, epoch) matches Some(e) && e.1 is Some,
    ensures
        yields_key(visible(items, None, epoch, skip, end).items, uk),
    decreases items.len(),
{
    let e = items[0];
    let k0 = spec_user_key(e.0);
    let rest = items.drop_first();
    let out = visible(items, None, epoch, skip, end).items;
    assert forall|j: int| 0 <= j < rest.len() implies valid_full_key(#[trigger] rest[j].0) by {
        assert(rest[j] == items[j + 1]);
    }
    assert forall|a: int, b: int| 0 <= a < b < rest.len() implies !full_key_lt(
        #[trigger] rest[b].0,
        #[trigger] rest[a].0,
    ) by {
        assert(rest[a] == items[a + 1] && rest[b] == items[b + 1]);
    }
    let k = lemma_first_seen_place(items, uk, epoch);
    if beyond_end(k0, end) {
        // The entry of `uk` does not sort before the first entry.
        if k > 0 {
            assert(!full_key_lt(items[k].0, items[0].0));
        }
        lemma_beyond_monotone(k0, uk, end);
    } else if skip == Some(k0) || spec_epoch_of(e.0) > epoch {
        lemma_visible_complete(rest, epoch, skip, end, uk);
    } else {
        if k0 == uk {
            // The first entry is seen under `uk`, so it is the entry met first.
            assert(out[0].0 == uk);
        } else {
            lemma_visible_complete(rest, epoch, Some(k0), end, uk);
            let behind = visible(rest, None, epoch, Some(k0), end).items;
            let w = choose|w: int| 0 <= w < behind.len() && (#[trigger] behind[w]).0 == uk;
            match e.1 {
                None => {
                    assert(out[w].0 == uk);
                },
                Some(v) => {
                    assert(out == seq![(k0, v)] + behind);
                    assert(out[w + 1] == behind[w]);
                },
            }
        }
    }
}

/// Where a scan of `tables` from `start` begins in the entries of table `i`.
pub open spec fn scan_cut(t: TableView, start: BoundView) -> int {
    match start {
        BoundView::Unbounded => 0,
        BoundView::Included(s) => lower_bound(table_entries(t), spec_key_with_epoch(s, u64::MAX)),
        BoundView::Excluded(s) => lower_bound(table_entries(t), spec_key_with_epoch(s, u64::MAX)),
    }
}

/// The sources of a scan from `start`.
pub open spec fn scan_sources(tables: Seq<TableView>, start: BoundView) -> Seq<Stream> {
    match start {
        BoundView::Unbounded => rewind_sources(tables),
        BoundView::Included(s) => seek_sources(tables, spec_key_with_epoch(s, u64::MAX)),
        BoundView::Excluded(s) => seek_sources(tables, spec_key_with_epoch(s, u64::MAX)),
    }
}

/// No user key is smaller than the start of an unbounded range; else the
/// start's key.
pub open spec fn at_or_behind_start(uk: Seq<u8>, start: BoundView) -> bool {
    match start {
        BoundView::Unbounded => true,
        BoundView::Included(s) => !lex_lt(uk, s),
        BoundView::Excluded(s) => !lex_lt(uk, s),
    }
}

/// The entries of a run in key order from a place on are in key order.
pub proof fn lemma_skip_ok(entries: Seq<EntryView>, p: int)
    requires
        keys_valid(entries),
        sorted_entries(entries),
        0 <= p <= entries.len(),
    ensures
        keys_valid(entries.skip(p)),
        sorted_entries(entries.skip(p)),
{
    let s = entries.skip(p);
    assert forall|i: int| 0 <= i < s.len() implies valid_full_key(#[trigger] s[i].0) by {
        assert(s[i] == entries[i + p]);
    }
    assert forall|i: int, j: int| 0 <= i < j < s.len() implies full_key_lt(
        #[trigger] s[i].0,
        #[trigger] s[j].0,
    ) by {
        assert(s[i] == entries[i + p] && s[j] == entries[j + p]);
    }
}

/// The sources of a scan over intact tables: none begins with a fault, and
/// each is the entries of its table from the place where the scan begins.
pub proof fn lemma_scan_sources(tables: Seq<TableView>, start: BoundView, n: int)
    requires
        tables_intact(tables),
        0 <= n <= tables.len(),
    ensures
        first_fault_upto(scan_sources(tables, start), n) is None,
        scan_sources(tables, start).len() == tables.len(),
        forall|i: int|
            0 <= i < tables.len() ==> {
                let s = #[trigger] landed(scan_sources(tables, start))[i];
                &&& stream_ok(s)
                &&& 0 <= scan_cut(tables[i], start) <= table_entries(tables[i]).len()
                &&& s.items == table_entries(tables[i]).skip(scan_cut(tables[i], start))
            },
    decreases n,
{
    if n > 0 {
        lemma_scan_sources(tables, start, n - 1);
    }
    assert forall|i: int| 0 <= i < tables.len() implies {
        let s = #[trigger] landed(scan_sources(tables, start))[i];
        &&& stream_ok(s)
        &&& scan_sources(tables, start)[i].fault is None
        &&& 0 <= scan_cut(tables[i], start) <= table_entries(tables[i]).len()
        &&& s.items == table_entries(tables[i]).skip(scan_cut(tables[i], start))
    } by {
        let t = tables[i];
        assert(table_intact(t));
        let es = table_entries(t);
        lemma_intact_sorted(t);
        let cut = scan_cut(t, start);
        match start {
            BoundView::Unbounded => {
                assert(es.skip(0) =~= es);
            },
            BoundView::Included(k) => {
                lemma_key_with_epoch_parts(k, u64::MAX);
                lemma_seek_lands(t, spec_key_with_epoch(k, u64::MAX));
                lemma_lower_bound_props(es, spec_key_with_epoch(k, u64::MAX), 0);
            },
            BoundView::Excluded(k) => {
                lemma_key_with_epoch_parts(k, u64::MAX);
                lemma_seek_lands(t, spec_key_with_epoch(k, u64::MAX));
                lemma_lower_bound_props(es, spec_key_with_epoch(k, u64::MAX), 0);
            },
        }
        lemma_skip_ok(es, cut);
        let src = scan_sources(tables, start)[i];
        let s = landing_stream(src);
        assert(src.items =~= es.skip(cut));
        assert(s.items =~= es.skip(cut));
    }
    if n > 0 {
        let last = landed(scan_sources(tables, start))[n - 1];
        assert(scan_sources(tables, start)[n - 1].fault is None);
    }
}

/// Before the place where a scan begins in a table stands no entry of a
/// user key at or behind the start, and from that place on every entry
/// belongs to such a user key.
pub proof fn lemma_scan_cut(t: TableView, start: BoundView)
    requires
        table_intact(t),
    ensures
        0 <= scan_cut(t, start) <= table_entries(t).len(),
        forall|j: int|
            0 <= j < scan_cut(t, start) ==> !at_or_behind_start(
                spec_user_key(#[trigger] table_entries(t)[j].0),
                start,
            ),
        forall|j: int|
            scan_cut(t, start) <= j < table_entries(t).len() ==> at_or_behind_start(
                spec_user_key(#[trigger] table_entries(t)[j].0),
                start,
            ),
{
    let es = table_entries(t);
    lemma_intact_sorted(t);
    match start {
        BoundView::Unbounded => {},
        BoundView::Included(k) => {
            lemma_cut_at_key(es, k);
        },
        BoundView::Excluded(k) => {
            lemma_cut_at_key(es, k);
        },
    }
}

proof fn lemma_cut_at_key(es: Seq<EntryView>, k: Seq<u8>)
    requires
        keys_valid(es),
        sorted_entries(es),
    ensures
        0 <= lower_bound(es, spec_key_with_epoch(k, u64::MAX)) <= es.len(),
        forall|j: int|
            0 <= j < lower_bound(es, spec_key_with_epoch(k, u64::MAX)) ==> lex_lt(
                spec_user_key(#[trigger] es[j].0),
                k,
            ),
        forall|j: int|
            lower_bound(es, spec_key_with_epoch(k, u64::MAX)) <= j < es.len() ==> !lex_lt(
                spec_user_key(#[trigger] es[j].0),
                k,
            ),
{
    let target = spec_key_with_epoch(k, u64::MAX);
    let lb = lower_bound(es, target);
    lemma_key_with_epoch_parts(k, u64::MAX);
    lemma_lower_bound_props(es, target, 0);
    assert forall|j: int| 0 <= j < lb implies lex_lt(spec_user_key(#[trigger] es[j].0), k) by {
        assert(full_key_lt(es[j].0, target));
    }
    assert forall|j: int| lb <= j < es.len() implies !lex_lt(spec_user_key(#[trigger] es[j].0), k) by {
        if j > lb {
            assert(full_key_lt(es[lb].0, es[j].0));
            if lex_lt(spec_user_key(es[j].0), k) {
                assert(!full_key_lt(es[lb].0, target));
                lemma_lex_lt_total(spec_user_key(es[lb].0), spec_user_key(es[j].0));
                if spec_user_key(es[lb].0) != spec_user_key(es[j].0) {
                    lemma_lex_lt_transitive(spec_user_key(es[lb].0), spec_user_key(es[j].0), k);
                }
            }
        }
    }
}

/// For a user key at or behind the start of a scan, what the sources of the
/// scan meet first is the newest entry among the tables.
pub proof fn lemma_sources_meet_newest(
    tables: Seq<TableView>,
    start: BoundView,
    uk: Seq<u8>,
    epoch: u64,
    n: int,
)
    requires
        tables_intact(tables),
        at_or_behind_start(uk, start),
        0 <= n <= tables.len(),
    ensures
        first_seen_in(landed(scan_sources(tables, start)), uk, epoch, n) == newest_in_tables(
            tables,
            uk,
            epoch,
            n,
        ),
    decreases n,
{
    if n > 0 {
        lemma_sources_meet_newest(tables, start, uk, epoch, n - 1);
        lemma_scan_sources(tables, start, tables.len() as int);
        let t = tables[n - 1];
        assert(table_intact(t));
        let es = table_entries(t);
        lemma_intact_sorted(t);
        lemma_scan_cut(t, start);
        let cut = scan_cut(t, start);
        let s = landed(scan_sources(tables, start))[n - 1];
        assert(s.items == es.skip(cut));
        assert forall|j: int| 0 <= j < cut implies !seen_by(#[trigger] es[j], uk, epoch) by {
            assert(!at_or_behind_start(spec_user_key(es[j].0), start));
        }
        lemma_first_seen_skip(es, uk, epoch, cut);
        lemma_first_seen_newest(es, uk, epoch);
    }
}

/// The merged stream that a scan over intact tables begins with: it meets
/// no fault, is in key order, holds only user keys at or behind the start,
/// and for each such user key it meets first the newest entry among the
/// tables.
pub proof fn lemma_scan_source(tables: Seq<TableView>, start: BoundView)
    requires
        tables_intact(tables),
    ensures
        scan_source(tables, start).fault is None,
        keys_valid(scan_source(tables, start).items),
        sorted_loosely(scan_source(tables, start).items),
        forall|j: int|
            0 <= j < scan_source(tables, start).items.len() ==> at_or_behind_start(
                spec_user_key(#[trigger] scan_source(tables, start).items[j].0),
                start,
            ),
{
    let sources = scan_sources(tables, start);
    let streams = landed(sources);
    lemma_scan_sources(tables, start, tables.len() as int);
    assert(streams_ok(streams));
    lemma_merged_sorted(streams);
    let m = merged(streams);
    assert(scan_source(tables, start) == merge_of(sources));
    assert(merge_of(sources) == m);
    assert forall|j: int| 0 <= j < m.items.len() implies at_or_behind_start(
        spec_user_key(#[trigger] m.items[j].0),
        start,
    ) by {
        let x = m.items[j];
        assert(in_streams(streams, x));
        let (i, k) = choose|i: int, k: int|
            0 <= i < streams.len() && 0 <= k < streams[i].items.len() && #[trigger] streams[i].items[k]
                == x;
        let t = tables[i];
        assert(table_intact(t));
        lemma_scan_cut(t, start);
        let es = table_entries(t);
        let cut = scan_cut(t, start);
        assert(streams[i].items == es.skip(cut));
        assert(es.skip(cut)[k] == es[cut + k]);
    }
}

/// Range correctness, first half: a scan over intact tables meets no
/// fault; the user keys that it yields lie in the range and come in
/// ascending order, each once; and each comes with the bytes of its newest
/// entry that the snapshot can see.
pub proof fn lemma_scan_sound(tables: Seq<TableView>, range: RangeView, epoch: u64)
    requires
        tables_intact(tables),
    ensures
        spec_scan(tables, range, epoch) == Ok::<Seq<(Seq<u8>, Seq<u8>)>, HummockError>(
            scan_stream(tables, range, epoch).items,
        ),
        ascending(scan_stream(tables, range, epoch).items),
        forall|k: int|
            0 <= k < scan_stream(tables, range, epoch).items.len() ==> {
                let p = #[trigger] scan_stream(tables, range, epoch).items[k];
                in_range(p.0, range) && value_seen(all_entries(tables), p.0, epoch) == Some(p.1)
            },
{
    let m = scan_source(tables, range.start);
    let skip = start_skip(range.start);
    lemma_scan_source(tables, range.start);
    if skip is Some {
        assert(not_below(m.items, skip.unwrap())) by {
            assert forall|j: int| 0 <= j < m.items.len() implies !lex_lt(
                spec_user_key(#[trigger] m.items[j].0),
                skip.unwrap(),
            ) by {
                assert(at_or_behind_start(spec_user_key(m.items[j].0), range.start));
            }
        }
    }
    lemma_visible_sound(m.items, epoch, skip, range.end);
    let out = scan_stream(tables, range, epoch).items;
    assert(out == visible(m.items, None, epoch, skip, range.end).items);
    assert forall|k: int| 0 <= k < out.len() implies {
        let p = #[trigger] out[k];
        in_range(p.0, range) && value_seen(all_entries(tables), p.0, epoch) == Some(p.1)
    } by {
        let p = out[k];
        let e = first_seen(m.items, p.0, epoch).unwrap();
        let w = lemma_first_seen_place(m.items, p.0, epoch);
        assert(at_or_behind_start(spec_user_key(m.items[w].0), range.start));
        lemma_lex_lt_total(p.0, spec_user_key(m.items[w].0));
        lemma_scan_value(tables, range.start, p.0, epoch);
    }
}

/// For a user key at or behind the start, the merged stream of a scan
/// meets first the newest entry among all entries of the tables.
pub proof fn lemma_scan_value(tables: Seq<TableView>, start: BoundView, uk: Seq<u8>, epoch: u64)
    requires
        tables_intact(tables),
        at_or_behind_start(uk, start),
    ensures
        first_seen(scan_source(tables, start).items, uk, epoch) == newest(all_entries(tables), uk, epoch),
{
    let sources = scan_sources(tables, start);
    let streams = landed(sources);
    lemma_scan_sources(tables, start, tables.len() as int);
    assert(streams_ok(streams));
    assert(scan_source(tables, start) == merge_of(sources));
    lemma_merged_first_seen(streams, uk, epoch);
    lemma_sources_meet_newest(tables, start, uk, epoch, tables.len() as int);
    lemma_newest_by_table(tables, uk, epoch, tables.len() as int);
}

/// Range correctness, second half: a scan over intact tables yields every
/// user key of the range whose newest entry that the snapshot can see is a put.
pub proof fn lemma_scan_complete(tables: Seq<TableView>, range: RangeView, epoch: u64, uk: Seq<u8>)
    requires
        tables_intact(tables),
        in_range(uk, range),
        value_seen(all_entries(tables), uk, epoch) is Some,
    ensures
        yields_key(scan_stream(tables, range, epoch).items, uk),
{
    let m = scan_source(tables, range.start);
    let skip = start_skip(range.start);
    lemma_scan_source(tables, range.start);
    lemma_lex_lt_irreflexive(uk);
    lemma_scan_value(tables, range.start, uk, epoch);
    lemma_visible_complete(m.items, epoch, skip, range.end, uk);
}

} // verus!
