//! What the merge of streams in key order is: again in key order, made of
//! the entries of the streams, and for every user key it meets first the
//! newest entry that a snapshot can see.

use vstd::prelude::*;
use crate::block::{EntryView, keys_valid, sorted_entries};
use crate::key::{
    full_key_lt, lemma_full_key_lt_asymmetric, lemma_full_key_lt_irreflexive, spec_epoch_of,
    valid_full_key,
};
use crate::merging::{
    lemma_pick_min_valid, lemma_total_len_update, merged, pick_min, pick_min_upto, total_len,
};
use crate::read_laws::{newer_of, seen_by};
use crate::table_iterator::{Stream, stream_tail};
use crate::table_order::{lemma_le_lt, lemma_lt_le};

verus! {

/// A stream without a fault whose keys are well formed and increase strictly.
pub open spec fn stream_ok(s: Stream) -> bool {
    s.fault is None && keys_valid(s.items) && sorted_entries(s.items)
}

/// Every one of `streams` is without a fault and in key order.
pub open spec fn streams_ok(streams: Seq<Stream>) -> bool {
    forall|i: int| 0 <= i < streams.len() ==> stream_ok(#[trigger] streams[i])
}

/// Whether `e` is an entry of one of `streams`.
pub open spec fn in_streams(streams: Seq<Stream>, e: EntryView) -> bool {
    exists|i: int, j: int|
        0 <= i < streams.len() && 0 <= j < streams[i].items.len() && #[trigger] streams[i].items[j] == e
}

/// No entry sorts before an entry that stands before it.
pub open spec fn sorted_loosely(items: Seq<EntryView>) -> bool {
    forall|i: int, j: int| 0 <= i < j < items.len() ==> !full_key_lt(#[trigger] items[j].0, #[trigger] items[i].0)
}

/// The stream picked stands at a key that no stream's key sorts before,
/// and that sorts before the key of every stream before it.
pub proof fn lemma_pick_min_least(streams: Seq<Stream>, n: int)
    requires
        streams_ok(streams),
        0 <= n <= streams.len(),
    ensures
        pick_min_upto(streams, n) matches Some(c) ==> forall|i: int|
            0 <= i < n && (#[trigger] streams[i]).items.len() > 0 ==> !full_key_lt(
                streams[i].items[0].0,
                streams[c].items[0].0,
            ) && (i < c ==> full_key_lt(streams[c].items[0].0, streams[i].items[0].0)),
    decreases n,
{
    if n > 0 {
        lemma_pick_min_least(streams, n - 1);
        lemma_pick_min_valid(streams, n - 1);
        lemma_pick_min_valid(streams, n);
        match pick_min_upto(streams, n) {
            Some(c) => {
                let hc = streams[c].items[0].0;
                assert(stream_ok(streams[c]));
                assert(valid_full_key(streams[c].items[0].0));
                lemma_full_key_lt_irreflexive(hc);
                assert forall|i: int| 0 <= i < n && (#[trigger] streams[i]).items.len() > 0 implies !full_key_lt(
                    streams[i].items[0].0,
                    hc,
                ) && (i < c ==> full_key_lt(hc, streams[i].items[0].0)) by {
                    let hi = streams[i].items[0].0;
                    assert(stream_ok(streams[i]));
                    assert(valid_full_key(streams[i].items[0].0));
                    match pick_min_upto(streams, n - 1) {
                        Some(p) => {
                            let hp = streams[p].items[0].0;
                            assert(stream_ok(streams[p]));
                            assert(valid_full_key(streams[p].items[0].0));
                            if c == n - 1 && p != c {
                                // The new stream has taken the place of `p`.
                                if i < n - 1 {
                                    lemma_lt_le(hc, hp, hi);
                                    lemma_full_key_lt_asymmetric(hc, hi);
                                }
                            }
                        },
                        None => {},
                    }
                }
            },
            None => {},
        }
    }
}

/// No entry of a stream in key order sorts before the entry that the
/// stream stands at.
pub proof fn lemma_head_least(s: Stream, j: int)
    requires
        stream_ok(s),
        0 <= j < s.items.len(),
    ensures
        !full_key_lt(s.items[j].0, s.items[0].0),
        valid_full_key(s.items[j].0),
{
    if j > 0 {
        assert(full_key_lt(s.items[0].0, s.items[j].0));
        lemma_full_key_lt_asymmetric(s.items[0].0, s.items[j].0);
    } else {
        lemma_full_key_lt_irreflexive(s.items[0].0);
    }
}

/// A stream in key order is in key order behind its first entry.
pub proof fn lemma_tail_ok(s: Stream)
    requires
        stream_ok(s),
        s.items.len() > 0,
    ensures
        stream_ok(stream_tail(s)),
{
    let t = stream_tail(s).items;
    assert forall|i: int| 0 <= i < t.len() implies valid_full_key(#[trigger] t[i].0) by {
        assert(t[i] == s.items[i + 1]);
    }
    assert forall|i: int, j: int| 0 <= i < j < t.len() implies full_key_lt(
        #[trigger] t[i].0,
        #[trigger] t[j].0,
    ) by {
        assert(t[i] == s.items[i + 1] && t[j] == s.items[j + 1]);
    }
}

/// The merge of streams in key order meets no fault, is in key order, and
/// is made of entries of the streams; no entry of a stream sorts before its
/// first entry.
pub proof fn lemma_merged_sorted(streams: Seq<Stream>)
    requires
        streams_ok(streams),
    ensures
        merged(streams).fault is None,
        keys_valid(merged(streams).items),
        sorted_loosely(merged(streams).items),
        forall|k: int| 0 <= k < merged(streams).items.len() ==> in_streams(streams, #[trigger] merged(streams).items[k]),
        merged(streams).items.len() > 0 ==> forall|i: int, j: int|
            0 <= i < streams.len() && 0 <= j < streams[i].items.len() ==> !full_key_lt(
                #[trigger] streams[i].items[j].0,
                merged(streams).items[0].0,
            ),
    decreases total_len(streams),
{
    lemma_pick_min_valid(streams, streams.len() as int);
    lemma_pick_min_least(streams, streams.len() as int);
    match pick_min(streams) {
        None => {},
        Some(c) => {
            let h = streams[c].items[0];
            assert(stream_ok(streams[c]));
            let next = streams.update(c, stream_tail(streams[c]));
            lemma_total_len_update(streams, c, stream_tail(streams[c]));
            lemma_tail_ok(streams[c]);
            assert(streams_ok(next)) by {
                assert forall|i: int| 0 <= i < next.len() implies stream_ok(#[trigger] next[i]) by {
                    if i != c {
                        assert(next[i] == streams[i]);
                        assert(stream_ok(streams[i]));
                    }
                }
            }
            lemma_merged_sorted(next);
            let rest = merged(next).items;
            let all = merged(streams).items;
            assert(all == seq![h] + rest);
            assert(valid_full_key(streams[c].items[0].0));
            // Every entry of every stream sorts at or behind the first entry.
            assert forall|i: int, j: int|
                0 <= i < streams.len() && 0 <= j < streams[i].items.len() implies !full_key_lt(
                #[trigger] streams[i].items[j].0,
                h.0,
            ) by {
                assert(stream_ok(streams[i]));
                lemma_head_least(streams[i], j);
                let x = streams[i].items[j].0;
                let hi = streams[i].items[0].0;
                assert(valid_full_key(streams[i].items[0].0));
                if full_key_lt(x, h.0) {
                    lemma_le_lt(hi, x, h.0);
                }
            }
            // What the rest of the merge holds, the streams held.
            assert forall|k: int| 0 <= k < all.len() implies in_streams(streams, #[trigger] all[k]) by {
                if k == 0 {
                    assert(streams[c].items[0] == h);
                } else {
                    let x = rest[k - 1];
                    assert(all[k] == x);
                    assert(in_streams(next, x));
                    let (i, j) = choose|i: int, j: int|
                        0 <= i < next.len() && 0 <= j < next[i].items.len() && #[trigger] next[i].items[j]
                            == x;
                    if i == c {
                        assert(streams[c].items[j + 1] == x);
                    } else {
                        assert(next[i] == streams[i]);
                        assert(streams[i].items[j] == x);
                    }
                }
            }
            assert forall|k: int| 0 <= k < all.len() implies valid_full_key(#[trigger] all[k].0) by {
                let (i, j) = choose|i: int, j: int|
                    0 <= i < streams.len() && 0 <= j < streams[i].items.len() && #[trigger] streams[i].items[j]
                        == all[k];
                assert(stream_ok(streams[i]));
                assert(valid_full_key(streams[i].items[j].0));
            }
            assert forall|a: int, b: int| 0 <= a < b < all.len() implies !full_key_lt(
                #[trigger] all[b].0,
                #[trigger] all[a].0,
            ) by {
                if a == 0 {
                    let (i, j) = choose|i: int, j: int|
                        0 <= i < streams.len() && 0 <= j < streams[i].items.len() && #[trigger] streams[i].items[j]
                            == all[b];
                    assert(!full_key_lt(streams[i].items[j].0, h.0));
                } else {
                    assert(all[a] == rest[a - 1] && all[b] == rest[b - 1]);
                }
            }
        },
    }
}

/// The first entry of `items` of the user key `uk` that a snapshot at
/// `epoch` can see.
pub open spec fn first_seen(items: Seq<EntryView>, uk: Seq<u8>, epoch: u64) -> Option<EntryView>
    decreases items.len(),
{
    if items.len() == 0 {
        None
    } else if seen_by(items[0], uk, epoch) {
        Some(items[0])
    } else {
        first_seen(items.drop_first(), uk, epoch)
    }
}

/// Among the first `n` streams, the newer of the entries that each meets
/// first of `uk`; of equals the first.
pub open spec fn first_seen_in(streams: Seq<Stream>, uk: Seq<u8>, epoch: u64, n: int) -> Option<EntryView>
    decreases n,
{
    if n <= 0 {
        None
    } else {
        newer_of(first_seen_in(streams, uk, epoch, n - 1), first_seen(streams[n - 1].items, uk, epoch))
    }
}

/// The entry met first is an entry that the snapshot can see.
pub proof fn lemma_first_seen_is_seen(items: Seq<EntryView>, uk: Seq<u8>, epoch: u64)
    ensures
        match first_seen(items, uk, epoch) {
            Some(e) => seen_by(e, uk, epoch) && exists|k: int| 0 <= k < items.len() && items[k] == e,
            None => forall|k: int| 0 <= k < items.len() ==> !seen_by(#[trigger] items[k], uk, epoch),
        },
    decreases items.len(),
{
    if items.len() > 0 {
        if seen_by(items[0], uk, epoch) {
            assert(items[0] == items[0]);
        } else {
            let rest = items.drop_first();
            lemma_first_seen_is_seen(rest, uk, epoch);
            match first_seen(rest, uk, epoch) {
                Some(e) => {
                    let k = choose|k: int| 0 <= k < rest.len() && rest[k] == e;
                    assert(items[k + 1] == e);
                },
                None => {
                    assert forall|k: int| 0 <= k < items.len() implies !seen_by(
                        #[trigger] items[k],
                        uk,
                        epoch,
                    ) by {
                        if k > 0 {
                            assert(rest[k - 1] == items[k]);
                        }
                    }
                },
            }
        }
    }
}

/// Of two entries of one user key, the one that sorts first is the newer;
/// and an entry that does not sort before another is not the newer.
pub proof fn lemma_order_is_epoch(a: EntryView, b: EntryView, uk: Seq<u8>, epoch: u64)
    requires
        seen_by(a, uk, epoch),
        seen_by(b, uk, epoch),
    ensures
        full_key_lt(a.0, b.0) ==> spec_epoch_of(a.0) > spec_epoch_of(b.0),
        !full_key_lt(b.0, a.0) ==> spec_epoch_of(b.0) <= spec_epoch_of(a.0),
{
    crate::coding::lemma_lex_lt_irreflexive(uk);
}

/// Where the merge begins with an entry of `uk` that the snapshot can see,
/// that entry is the newer of what the streams meet first.
proof fn lemma_first_seen_in_head(streams: Seq<Stream>, uk: Seq<u8>, epoch: u64, c: int, n: int)
    requires
        streams_ok(streams),
        pick_min(streams) == Some(c),
        0 <= c < streams.len(),
        streams[c].items.len() > 0,
        seen_by(streams[c].items[0], uk, epoch),
        0 <= n <= streams.len(),
    ensures
        n > c ==> first_seen_in(streams, uk, epoch, n) == Some(streams[c].items[0]),
        n <= c ==> (first_seen_in(streams, uk, epoch, n) matches Some(e) ==> seen_by(e, uk, epoch)
            && spec_epoch_of(e.0) < spec_epoch_of(streams[c].items[0].0)),
    decreases n,
{
    if n > 0 {
        lemma_first_seen_in_head(streams, uk, epoch, c, n - 1);
        lemma_pick_min_least(streams, streams.len() as int);
        let h = streams[c].items[0];
        let s = streams[n - 1];
        assert(stream_ok(s));
        assert(stream_ok(streams[c]));
        lemma_first_seen_is_seen(s.items, uk, epoch);
        match first_seen(s.items, uk, epoch) {
            Some(e) => {
                let k = choose|k: int| 0 <= k < s.items.len() && s.items[k] == e;
                lemma_head_least(s, k);
                assert(valid_full_key(streams[c].items[0].0));
                assert(valid_full_key(s.items[0].0));
                if n - 1 == c {
                    assert(e == h);
                } else {
                    // `e` does not sort before the head of its stream, which
                    // does not sort before `h`.
                    if full_key_lt(e.0, h.0) {
                        lemma_le_lt(s.items[0].0, e.0, h.0);
                    }
                    if n - 1 < c {
                        assert(full_key_lt(h.0, s.items[0].0));
                        lemma_lt_le(h.0, s.items[0].0, e.0);
                    }
                    lemma_order_is_epoch(h, e, uk, epoch);
                }
            },
            None => {},
        }
    }
}

/// Where the merge begins with an entry that the snapshot cannot see under
/// `uk`, the streams meet first what they meet first behind that entry.
proof fn lemma_first_seen_in_tail(streams: Seq<Stream>, uk: Seq<u8>, epoch: u64, c: int, n: int)
    requires
        0 <= c < streams.len(),
        streams[c].items.len() > 0,
        !seen_by(streams[c].items[0], uk, epoch),
        0 <= n <= streams.len(),
    ensures
        first_seen_in(streams.update(c, stream_tail(streams[c])), uk, epoch, n) == first_seen_in(
            streams,
            uk,
            epoch,
            n,
        ),
    decreases n,
{
    if n > 0 {
        lemma_first_seen_in_tail(streams, uk, epoch, c, n - 1);
    }
}

/// For every user key, the merge of streams in key order meets first the
/// newer of what the streams meet first.
pub proof fn lemma_merged_first_seen(streams: Seq<Stream>, uk: Seq<u8>, epoch: u64)
    requires
        streams_ok(streams),
    ensures
        first_seen(merged(streams).items, uk, epoch) == first_seen_in(
            streams,
            uk,
            epoch,
            streams.len() as int,
        ),
    decreases total_len(streams),
{
    lemma_pick_min_valid(streams, streams.len() as int);
    match pick_min(streams) {
        None => {
            lemma_first_seen_in_empty(streams, uk, epoch, streams.len() as int);
        },
        Some(c) => {
            let h = streams[c].items[0];
            assert(stream_ok(streams[c]));
            let next = streams.update(c, stream_tail(streams[c]));
            lemma_total_len_update(streams, c, stream_tail(streams[c]));
            lemma_tail_ok(streams[c]);
            assert(streams_ok(next)) by {
                assert forall|i: int| 0 <= i < next.len() implies stream_ok(#[trigger] next[i]) by {
                    if i != c {
                        assert(next[i] == streams[i]);
                        assert(stream_ok(streams[i]));
                    }
                }
            }
            lemma_merged_first_seen(next, uk, epoch);
            let all = merged(streams).items;
            assert(all == seq![h] + merged(next).items);
            assert(all.drop_first() =~= merged(next).items);
            if seen_by(h, uk, epoch) {
                lemma_first_seen_in_head(streams, uk, epoch, c, streams.len() as int);
            } else {
                lemma_first_seen_in_tail(streams, uk, epoch, c, streams.len() as int);
            }
        },
    }
}

proof fn lemma_first_seen_in_empty(streams: Seq<Stream>, uk: Seq<u8>, epoch: u64, n: int)
    requires
        0 <= n <= streams.len(),
        forall|i: int| 0 <= i < streams.len() ==> (#[trigger] streams[i]).items.len() == 0,
    ensures
        first_seen_in(streams, uk, epoch, n) is None,
    decreases n,
{
    if n > 0 {
        lemma_first_seen_in_empty(streams, uk, epoch, n - 1);
    }
}

} // verus!
