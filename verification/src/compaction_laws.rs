//! What a compaction keeps: under every snapshot from the watermark on,
//! every user key shows the same value before and after.

use vstd::prelude::*;
use crate::block::{EntryView, keys_valid, sorted_entries};
use crate::coding::{
    lemma_lex_lt_asymmetric, lemma_lex_lt_irreflexive, lemma_lex_lt_total, lemma_lex_lt_transitive,
    lex_lt,
};
use crate::compactor::{
    covered, lemma_with_ids_subset, levels_without, other_spans, retained, Rules, spec_merge,
    table_spans, task_inputs, with_ids, with_ids_upto,
};
use crate::intact::{
    all_entries, all_entries_upto, table_entries, table_intact, tables_intact, version_intact,
    version_keys_distinct,
};
use crate::key::{full_key_lt, spec_epoch_of, spec_user_key, valid_full_key};
use crate::merge_laws::{
    first_seen, in_streams, lemma_first_seen_is_seen, lemma_merged_sorted, lemma_tail_ok, stream_ok,
    streams_ok,
};
use crate::merging::{
    lemma_pick_min_valid, lemma_total_len_update, merge_of, merged, pick_min, rewind_sources,
    total_len,
};
use crate::read_laws::{
    lemma_get_sees_newest, lemma_newest_is_largest, newer_of, newest, seen_by, value_seen,
};
use crate::scan_laws::{
    ascending, lemma_first_seen_newest, lemma_scan_complete, lemma_scan_sound, lemma_scan_source,
    lemma_scan_value,
};
use crate::snapshot::{spec_get, spec_scan};
use crate::storage::is_compaction_of;
use crate::table::{lemma_opened_table, table_largest_user_key, table_smallest_user_key, TableView};
use crate::table_iterator::{Stream, stream_tail, table_stream_from};
use crate::table_order::{lemma_blocks_decode, lemma_intact_sorted};
use crate::user_iterator::{BoundView, RangeView, scan_stream};
use crate::version::{
    lemma_version_tables_hold, NUM_LEVELS, tables_upto, version_holds, version_tables, VersionView,
};
use crate::version_manager::{
    compacted, lemma_run_position, lemma_with_run_subset, lemma_without_ids_subset,
    run_position_from, with_run, without_ids, without_ids_upto,
};

verus! {

/// What a merge keeps of entries in strictly increasing key order, seen
/// from a snapshot at or above the watermark: it is in key order again and
/// made of entries of the input, and of every user key it meets first what
/// the input meets first; but for a tombstone that hides nothing outside the
/// merge, in whose place it meets nothing. Of a user key that was decided
/// before the first entry, it meets nothing.
pub proof fn lemma_retained_first_seen(
    items: Seq<EntryView>,
    rules: Rules,
    prev: Option<Seq<u8>>,
    decided: Option<Seq<u8>>,
    uk: Seq<u8>,
    epoch: u64,
)
    requires
        keys_valid(items),
        sorted_entries(items),
        prev matches Some(p) ==> items.len() > 0 ==> full_key_lt(p, items[0].0),
        decided matches Some(k) ==> forall|j: int|
            0 <= j < items.len() ==> !lex_lt(spec_user_key(#[trigger] items[j].0), k) && (spec_user_key(
                items[j].0,
            ) == k ==> spec_epoch_of(items[j].0) <= rules.watermark),
        retained(items, None, rules, prev, decided).fault is None,
        epoch >= rules.watermark,
    ensures
        keys_valid(retained(items, None, rules, prev, decided).items),
        sorted_entries(retained(items, None, rules, prev, decided).items),
        forall|k: int|
            0 <= k < retained(items, None, rules, prev, decided).items.len() ==> items.contains(
                #[trigger] retained(items, None, rules, prev, decided).items[k],
            ),
        decided == Some(uk) ==> first_seen(retained(items, None, rules, prev, decided).items, uk, epoch)
            is None,
        decided != Some(uk) ==> first_seen(retained(items, None, rules, prev, decided).items, uk, epoch)
            == first_seen(items, uk, epoch) || (first_seen(items, uk, epoch) matches Some(a) && a.1
            is None && !covered(rules.others, uk) && first_seen(
            retained(items, None, rules, prev, decided).items,
            uk,
            epoch,
        ) is None),
    decreases items.len(),
{
    if items.len() > 0 {
        let e = items[0];
        let k0 = spec_user_key(e.0);
        let rest = items.drop_first();
        let out = retained(items, None, rules, prev, decided).items;
        assert forall|j: int| 0 <= j < rest.len() implies valid_full_key(#[trigger] rest[j].0) by {
            assert(rest[j] == items[j + 1]);
        }
        assert forall|a: int, b: int| 0 <= a < b < rest.len() implies full_key_lt(
            #[trigger] rest[a].0,
            #[trigger] rest[b].0,
        ) by {
            assert(rest[a] == items[a + 1] && rest[b] == items[b + 1]);
        }
        if rest.len() > 0 {
            assert(rest[0] == items[1]);
            assert(full_key_lt(items[0].0, items[1].0));
        }
        lemma_lex_lt_irreflexive(k0);
        lemma_lex_lt_irreflexive(uk);
        // Behind the first entry stand entries of user keys that are not smaller.
        assert forall|j: int| 0 <= j < rest.len() implies !lex_lt(spec_user_key(#[trigger] rest[j].0), k0)
            && (spec_user_key(rest[j].0) == k0 ==> spec_epoch_of(rest[j].0) < spec_epoch_of(e.0)) by {
            assert(rest[j] == items[j + 1]);
            assert(full_key_lt(items[0].0, items[j + 1].0));
            lemma_lex_lt_asymmetric(k0, spec_user_key(rest[j].0));
        }
        if decided is Some {
            let d = decided.unwrap();
            assert(!lex_lt(spec_user_key(items[0].0), d));
            assert forall|j: int| 0 <= j < rest.len() implies !lex_lt(spec_user_key(#[trigger] rest[j].0), d)
                && (spec_user_key(rest[j].0) == d ==> spec_epoch_of(rest[j].0) <= rules.watermark) by {
                assert(rest[j] == items[j + 1]);
            }
        }
        let new_decided = if spec_epoch_of(e.0) > rules.watermark || decided == Some(k0) {
            decided
        } else {
            Some(k0)
        };
        let kept = spec_epoch_of(e.0) > rules.watermark || (decided != Some(k0) && !(e.1 is None
            && rules.lowest && !covered(rules.others, k0)));
        let behind = retained(rest, None, rules, Some(e.0), new_decided);
        assert(behind.fault is None);
        lemma_retained_first_seen(rest, rules, Some(e.0), new_decided, uk, epoch);
        assert(out == if kept {
            seq![e] + behind.items
        } else {
            behind.items
        });
        assert forall|k: int| 0 <= k < behind.items.len() implies items.contains(
            #[trigger] behind.items[k],
        ) && full_key_lt(e.0, behind.items[k].0) by {
            let x = behind.items[k];
            assert(rest.contains(x));
            let j = choose|j: int| 0 <= j < rest.len() && rest[j] == x;
            assert(items[j + 1] == x);
            assert(full_key_lt(items[0].0, items[j + 1].0));
        }
        assert forall|k: int| 0 <= k < out.len() implies items.contains(#[trigger] out[k])
            && valid_full_key(out[k].0) by {
            if kept {
                if k == 0 {
                    assert(items[0] == out[0]);
                } else {
                    assert(out[k] == behind.items[k - 1]);
                }
            } else {
                assert(out[k] == behind.items[k]);
            }
            let j = choose|j: int| 0 <= j < items.len() && items[j] == out[k];
            assert(valid_full_key(items[j].0));
        }
        assert forall|a: int, b: int| 0 <= a < b < out.len() implies full_key_lt(
            #[trigger] out[a].0,
            #[trigger] out[b].0,
        ) by {
            if kept {
                assert(out[b] == behind.items[b - 1]);
                if a > 0 {
                    assert(out[a] == behind.items[a - 1]);
                }
            } else {
                assert(out[a] == behind.items[a] && out[b] == behind.items[b]);
            }
        }
        if kept {
            assert(out.drop_first() =~= behind.items);
        }
        // What the entries behind the first meet first of `uk`.
        if decided.is_some() && decided != Some(k0) && new_decided == Some(k0) {
            // The user key decided before is smaller than every user key from here on.
            let d = decided.unwrap();
            lemma_lex_lt_total(k0, d);
            if uk == d {
                assert forall|j: int| 0 <= j < rest.len() implies !seen_by(#[trigger] rest[j], uk, epoch) by {
                    lemma_lex_lt_total(spec_user_key(rest[j].0), k0);
                    if spec_user_key(rest[j].0) != k0 {
                        lemma_lex_lt_transitive(d, k0, spec_user_key(rest[j].0));
                    }
                    lemma_lex_lt_irreflexive(d);
                }
                lemma_first_seen_is_seen(rest, uk, epoch);
                lemma_first_seen_is_seen(behind.items, uk, epoch);
                if first_seen(behind.items, uk, epoch) is Some {
                    let x = first_seen(behind.items, uk, epoch).unwrap();
                    let w = choose|w: int| 0 <= w < behind.items.len() && behind.items[w] == x;
                    assert(rest.contains(behind.items[w]));
                    let j = choose|j: int| 0 <= j < rest.len() && rest[j] == x;
                    assert(!seen_by(rest[j], uk, epoch));
                }
            }
        }
        if decided == Some(uk) && spec_epoch_of(e.0) > rules.watermark {
            assert(!seen_by(e, uk, epoch) || spec_user_key(e.0) == uk);
        }
    }
}

/// No two entries of the streams carry the same key.
pub open spec fn streams_distinct(streams: Seq<Stream>) -> bool {
    forall|i: int, j: int, i2: int, j2: int|
        0 <= i < streams.len() && 0 <= j < streams[i].items.len() && 0 <= i2 < streams.len() && 0 <= j2
            < streams[i2].items.len() && (i != i2 || j != j2) ==> (#[trigger] streams[i].items[j]).0
            != (#[trigger] streams[i2].items[j2]).0
}

/// The merge of streams in key order that share no key is in strictly
/// increasing key order.
pub proof fn lemma_merged_strict(streams: Seq<Stream>)
    requires
        streams_ok(streams),
        streams_distinct(streams),
    ensures
        sorted_entries(merged(streams).items),
    decreases total_len(streams),
{
    lemma_pick_min_valid(streams, streams.len() as int);
    lemma_merged_sorted(streams);
    match pick_min(streams) {
        None => {},
        Some(c) => {
            let h = streams[c].items[0];
            assert(stream_ok(streams[c]));
            let next = streams.update(c, stream_tail(streams[c]));
            lemma_total_len_update(streams, c, stream_tail(streams[c]));
            lemma_tail_ok(streams[c]);
            assert(streams_ok(next)) by {
                assert forall|i: int| 0 <= i < next.len() implies stream_ok(#[trigger] next[i]) by {
                    if i != c {
                        assert(next[i] == streams[i]);
                        assert(stream_ok(streams[i]));
                    }
                }
            }
            assert(streams_distinct(next)) by {
                assert forall|i: int, j: int, i2: int, j2: int|
                    0 <= i < next.len() && 0 <= j < next[i].items.len() && 0 <= i2 < next.len() && 0
                        <= j2 < next[i2].items.len() && (i != i2 || j != j2) implies (
                #[trigger] next[i].items[j]).0 != (#[trigger] next[i2].items[j2]).0 by {
                    let a = if i == c {
                        j + 1
                    } else {
                        j
                    };
                    let b = if i2 == c {
                        j2 + 1
                    } else {
                        j2
                    };
                    assert(next[i].items[j] == streams[i].items[a]);
                    assert(next[i2].items[j2] == streams[i2].items[b]);
                }
            }
            lemma_merged_strict(next);
            lemma_merged_sorted(next);
            let rest = merged(next).items;
            let all = merged(streams).items;
            assert(all == seq![h] + rest);
            assert forall|a: int, b: int| 0 <= a < b < all.len() implies full_key_lt(
                #[trigger] all[a].0,
                #[trigger] all[b].0,
            ) by {
                if a == 0 {
                    let x = rest[b - 1];
                    assert(all[b] == x);
                    assert(in_streams(next, x));
                    let (i, j) = choose|i: int, j: int|
                        0 <= i < next.len() && 0 <= j < next[i].items.len() && #[trigger] next[i].items[j]
                            == x;
                    let jj = if i == c {
                        j + 1
                    } else {
                        j
                    };
                    assert(streams[i].items[jj] == x);
                    assert(streams[c].items[0].0 != streams[i].items[jj].0);
                    assert(!full_key_lt(all[b].0, all[0].0));
                    assert(valid_full_key(all[b].0));
                    assert(valid_full_key(all[0].0));
                    crate::key::lemma_full_key_lt_total(all[0].0, all[b].0);
                } else {
                    assert(all[a] == rest[a - 1] && all[b] == rest[b - 1]);
                }
            }
        },
    }
}

/// Every user key of an intact table lies within the table's span.
pub proof fn lemma_within_span(t: TableView, j: int)
    requires
        table_intact(t),
        0 <= j < table_entries(t).len(),
    ensures
        !lex_lt(spec_user_key(table_entries(t)[j].0), table_smallest_user_key(t)),
        !lex_lt(table_largest_user_key(t), spec_user_key(table_entries(t)[j].0)),
{
    let es = table_entries(t);
    let idx = t.meta.index;
    lemma_opened_table(t.data, t.meta);
    lemma_intact_sorted(t);
    reveal_with_fuel(table_stream_from, 2);
    lemma_blocks_decode(t, 0, 0);
    // The first entry is the smallest key.
    assert(es[0].0 == t.meta.smallest_key);
    if j > 0 {
        assert(full_key_lt(es[0].0, es[j].0));
        lemma_lex_lt_asymmetric(spec_user_key(es[0].0), spec_user_key(es[j].0));
        lemma_lex_lt_irreflexive(spec_user_key(es[0].0));
    } else {
        lemma_lex_lt_irreflexive(spec_user_key(es[0].0));
    }
    // No entry sorts behind the last key of the last block.
    let m = idx.len();
    crate::table_order::lemma_prefix_bounded(t, m);
    crate::intact::lemma_stream_split(t, m);
    let all = crate::table::spec_table_entries_upto(t.data, t.meta, m).unwrap();
    assert(es =~= all);
    assert(!full_key_lt(idx[m - 1].last_key, es[j].0));
    lemma_lex_lt_total(spec_user_key(idx[m - 1].last_key), spec_user_key(es[j].0));
}

/// Whether `e` is an entry of one of `tables`.
pub open spec fn holds_entry(tables: Seq<TableView>, e: EntryView) -> bool {
    exists|i: int, j: int|
        0 <= i < tables.len() && 0 <= j < table_entries(tables[i]).len() && #[trigger] table_entries(
            tables[i],
        )[j] == e
}

/// The entries of a list of tables are the entries of its tables.
pub proof fn lemma_all_entries_hold(tables: Seq<TableView>, n: int)
    requires
        0 <= n <= tables.len(),
    ensures
        forall|k: int|
            0 <= k < all_entries_upto(tables, n).len() ==> holds_entry(
                tables,
                #[trigger] all_entries_upto(tables, n)[k],
            ),
        forall|i: int, j: int|
            0 <= i < n && 0 <= j < table_entries(tables[i]).len() ==> all_entries_upto(tables, n).contains(
                #[trigger] table_entries(tables[i])[j],
            ),
    decreases n,
{
    if n > 0 {
        lemma_all_entries_hold(tables, n - 1);
        let prev = all_entries_upto(tables, n - 1);
        let all = all_entries_upto(tables, n);
        let last = table_entries(tables[n - 1]);
        assert forall|k: int| 0 <= k < all.len() implies holds_entry(tables, #[trigger] all[k]) by {
            if k < prev.len() {
                assert(all[k] == prev[k]);
            } else {
                assert(all[k] == last[k - prev.len()]);
                assert(table_entries(tables[n - 1])[k - prev.len()] == all[k]);
            }
        }
        assert forall|i: int, j: int|
            0 <= i < n && 0 <= j < table_entries(tables[i]).len() implies all.contains(
            #[trigger] table_entries(tables[i])[j],
        ) by {
            if i < n - 1 {
                assert(prev.contains(table_entries(tables[i])[j]));
                let k = choose|k: int| 0 <= k < prev.len() && prev[k] == table_entries(tables[i])[j];
                assert(all[k] == prev[k]);
            } else {
                assert(all[prev.len() + j] == last[j]);
            }
        }
    }
}

/// The tables picked from a level stand in the order of the level: each is
/// a table of the level, and of two the first stands first in the level.
pub proof fn lemma_with_ids_places(level: Seq<TableView>, ids: Seq<u64>, n: int)
    requires
        0 <= n <= level.len(),
    ensures
        forall|k: int|
            0 <= k < with_ids_upto(level, ids, n).len() ==> exists|m: int|
                0 <= m < n && level[m] == #[trigger] with_ids_upto(level, ids, n)[k],
        forall|k: int|
            0 <= k < with_ids_upto(level, ids, n).len() ==> ids.contains(
                (#[trigger] with_ids_upto(level, ids, n)[k]).id,
            ),
        forall|k: int, k2: int|
            0 <= k < k2 < with_ids_upto(level, ids, n).len() ==> exists|m: int, m2: int|
                0 <= m < m2 < n && level[m] == #[trigger] with_ids_upto(level, ids, n)[k] && level[m2]
                    == #[trigger] with_ids_upto(level, ids, n)[k2],
    decreases n,
{
    if n > 0 {
        lemma_with_ids_places(level, ids, n - 1);
        let prev = with_ids_upto(level, ids, n - 1);
        let cur = with_ids_upto(level, ids, n);
        assert forall|k: int| 0 <= k < cur.len() implies exists|m: int|
            0 <= m < n && level[m] == #[trigger] cur[k] by {
            if k < prev.len() {
                assert(cur[k] == prev[k]);
                let m = choose|m: int| 0 <= m < n - 1 && level[m] == prev[k];
                assert(0 <= m < n && level[m] == cur[k]);
            } else {
                assert(level[n - 1] == cur[k]);
            }
        }
        assert forall|k: int, k2: int| 0 <= k < k2 < cur.len() implies exists|m: int, m2: int|
            0 <= m < m2 < n && level[m] == #[trigger] cur[k] && level[m2] == #[trigger] cur[k2] by {
            if k2 < prev.len() {
                assert(cur[k] == prev[k] && cur[k2] == prev[k2]);
                let (m, m2) = choose|m: int, m2: int|
                    0 <= m < m2 < n - 1 && level[m] == prev[k] && level[m2] == prev[k2];
                assert(0 <= m < m2 < n && level[m] == cur[k] && level[m2] == cur[k2]);
            } else {
                assert(cur[k] == prev[k]);
                let m = choose|m: int| 0 <= m < n - 1 && level[m] == prev[k];
                assert(0 <= m < n - 1 < n && level[m] == cur[k] && level[n - 1] == cur[k2]);
            }
        }
        assert forall|k: int| 0 <= k < cur.len() implies ids.contains((#[trigger] cur[k]).id) by {
            if k < prev.len() {
                assert(cur[k] == prev[k]);
            }
        }
    }
}

/// The tables left of a level stand in the order of the level: each is a
/// table of the level, and of two the first stands first in the level.
pub proof fn lemma_without_ids_places(level: Seq<TableView>, ids: Seq<u64>, n: int)
    requires
        0 <= n <= level.len(),
    ensures
        forall|k: int|
            0 <= k < without_ids_upto(level, ids, n).len() ==> exists|m: int|
                0 <= m < n && level[m] == #[trigger] without_ids_upto(level, ids, n)[k],
        forall|k: int|
            0 <= k < without_ids_upto(level, ids, n).len() ==> !ids.contains(
                (#[trigger] without_ids_upto(level, ids, n)[k]).id,
            ),
        forall|k: int, k2: int|
            0 <= k < k2 < without_ids_upto(level, ids, n).len() ==> exists|m: int, m2: int|
                0 <= m < m2 < n && level[m] == #[trigger] without_ids_upto(level, ids, n)[k]
                    && level[m2] == #[trigger] without_ids_upto(level, ids, n)[k2],
    decreases n,
{
    if n > 0 {
        lemma_without_ids_places(level, ids, n - 1);
        let prev = without_ids_upto(level, ids, n - 1);
        let cur = without_ids_upto(level, ids, n);
        assert forall|k: int| 0 <= k < cur.len() implies exists|m: int|
            0 <= m < n && level[m] == #[trigger] cur[k] by {
            if k < prev.len() {
                assert(cur[k] == prev[k]);
                let m = choose|m: int| 0 <= m < n - 1 && level[m] == prev[k];
                assert(0 <= m < n && level[m] == cur[k]);
            } else {
                assert(level[n - 1] == cur[k]);
            }
        }
        assert forall|k: int, k2: int| 0 <= k < k2 < cur.len() implies exists|m: int, m2: int|
            0 <= m < m2 < n && level[m] == #[trigger] cur[k] && level[m2] == #[trigger] cur[k2] by {
            if k2 < prev.len() {
                assert(cur[k] == prev[k] && cur[k2] == prev[k2]);
                let (m, m2) = choose|m: int, m2: int|
                    0 <= m < m2 < n - 1 && level[m] == prev[k] && level[m2] == prev[k2];
                assert(0 <= m < m2 < n && level[m] == cur[k] && level[m2] == cur[k2]);
            } else {
                assert(cur[k] == prev[k]);
                let m = choose|m: int| 0 <= m < n - 1 && level[m] == prev[k];
                assert(0 <= m < n - 1 < n && level[m] == cur[k] && level[n - 1] == cur[k2]);
            }
        }
        assert forall|k: int| 0 <= k < cur.len() implies !ids.contains((#[trigger] cur[k]).id) by {
            if k < prev.len() {
                assert(cur[k] == prev[k]);
            }
        }
    }
}

/// Every table of a level is among those picked or among those left.
pub proof fn lemma_level_split(level: Seq<TableView>, ids: Seq<u64>, n: int)
    requires
        0 <= n <= level.len(),
    ensures
        forall|m: int|
            0 <= m < n ==> with_ids_upto(level, ids, n).contains(#[trigger] level[m]) || without_ids_upto(
                level,
                ids,
                n,
            ).contains(level[m]),
    decreases n,
{
    if n > 0 {
        lemma_level_split(level, ids, n - 1);
        let wp = with_ids_upto(level, ids, n - 1);
        let op = without_ids_upto(level, ids, n - 1);
        let w = with_ids_upto(level, ids, n);
        let o = without_ids_upto(level, ids, n);
        assert forall|m: int| 0 <= m < n implies w.contains(#[trigger] level[m]) || o.contains(level[m]) by {
            if m < n - 1 {
                if wp.contains(level[m]) {
                    let k = choose|k: int| 0 <= k < wp.len() && wp[k] == level[m];
                    assert(w[k] == level[m]);
                } else {
                    let k = choose|k: int| 0 <= k < op.len() && op[k] == level[m];
                    assert(o[k] == level[m]);
                }
            } else if ids.contains(level[n - 1].id) {
                assert(w[w.len() - 1] == level[m]);
            } else {
                assert(o[o.len() - 1] == level[m]);
            }
        }
    }
}

/// A level with a run holds all tables of the level and of the run.
pub proof fn lemma_with_run_holds(level: Seq<TableView>, run: Seq<TableView>)
    ensures
        forall|j: int| 0 <= j < level.len() ==> with_run(level, run).contains(#[trigger] level[j]),
        forall|j: int| 0 <= j < run.len() ==> with_run(level, run).contains(#[trigger] run[j]),
{
    let w = with_run(level, run);
    if run.len() > 0 {
        let first = table_smallest_user_key(run[0]);
        lemma_run_position(level, first, 0);
        let p = run_position_from(level, first, 0);
        assert forall|j: int| 0 <= j < level.len() implies w.contains(#[trigger] level[j]) by {
            if j < p {
                assert(w[j] == level[j]);
            } else {
                assert(w[j + run.len()] == level[j]);
            }
        }
        assert forall|j: int| 0 <= j < run.len() implies w.contains(#[trigger] run[j]) by {
            assert(w[p + j] == run[j]);
        }
    } else {
        assert forall|j: int| 0 <= j < level.len() implies w.contains(#[trigger] level[j]) by {
            assert(w[j] == level[j]);
        }
    }
}

/// The tables that stay out of a compaction.
pub open spec fn task_others(v: VersionView, source: int, source_ids: Seq<u64>, target_ids: Seq<u64>) -> Seq<
    TableView,
> {
    tables_upto(levels_without(v, source, source_ids, target_ids), v.levels.len() as int)
}

/// How the tables of a version before and after a compaction stand to the
/// inputs, the outputs and the tables that stay out of it.
pub proof fn lemma_compaction_tables(
    v: VersionView,
    version_id: u64,
    source: int,
    source_ids: Seq<u64>,
    target_ids: Seq<u64>,
    outputs: Seq<TableView>,
)
    requires
        0 <= source,
        source + 1 < v.levels.len(),
    ensures
        forall|t: TableView| #[trigger]
            version_tables(v).contains(t) <==> task_inputs(v, source, source_ids, target_ids).contains(t)
                || task_others(v, source, source_ids, target_ids).contains(t),
        forall|t: TableView| #[trigger]
            version_tables(compacted(v, version_id, source, source_ids, target_ids, outputs)).contains(
                t,
            ) <==> outputs.contains(t) || task_others(v, source, source_ids, target_ids).contains(t),
{
    let w = compacted(v, version_id, source, source_ids, target_ids, outputs);
    let rest_levels = levels_without(v, source, source_ids, target_ids);
    let inputs = task_inputs(v, source, source_ids, target_ids);
    let others = task_others(v, source, source_ids, target_ids);
    let ls = v.levels[source];
    let lt = v.levels[source + 1];
    let ps = with_ids(ls, source_ids);
    let pt = with_ids(lt, target_ids);
    let os = without_ids(ls, source_ids);
    let ot = without_ids(lt, target_ids);
    lemma_version_tables_hold(v);
    lemma_version_tables_hold(w);
    crate::version::lemma_tables_upto_hold(rest_levels, v.levels.len() as int);
    lemma_with_ids_subset(ls, source_ids, ls.len() as int);
    lemma_with_ids_subset(lt, target_ids, lt.len() as int);
    lemma_without_ids_subset(ls, source_ids, ls.len() as int);
    lemma_without_ids_subset(lt, target_ids, lt.len() as int);
    lemma_level_split(ls, source_ids, ls.len() as int);
    lemma_level_split(lt, target_ids, lt.len() as int);
    lemma_with_run_subset(ot, outputs);
    lemma_with_run_holds(ot, outputs);
    assert(rest_levels[source] == os);
    assert(rest_levels[source + 1] == ot);
    assert(w.levels[source] == os);
    assert(w.levels[source + 1] == with_run(ot, outputs));
    assert forall|t: TableView| #[trigger] version_tables(v).contains(t) implies inputs.contains(t)
        || others.contains(t) by {
        let k = choose|k: int| 0 <= k < version_tables(v).len() && version_tables(v)[k] == t;
        assert(version_holds(v, version_tables(v)[k]));
        let (l, i) = choose|l: int, i: int|
            0 <= l < v.levels.len() && 0 <= i < v.levels[l].len() && #[trigger] v.levels[l][i] == t;
        if l == source {
            assert(ps.contains(ls[i]) || os.contains(ls[i]));
            if ps.contains(t) {
                let a = choose|a: int| 0 <= a < ps.len() && ps[a] == t;
                assert(inputs[a] == t);
            } else {
                let a = choose|a: int| 0 <= a < os.len() && os[a] == t;
                assert(rest_levels[source][a] == t);
                assert(others.contains(rest_levels[source][a]));
            }
        } else if l == source + 1 {
            assert(pt.contains(lt[i]) || ot.contains(lt[i]));
            if pt.contains(t) {
                let a = choose|a: int| 0 <= a < pt.len() && pt[a] == t;
                assert(inputs[ps.len() + a] == t);
            } else {
                let a = choose|a: int| 0 <= a < ot.len() && ot[a] == t;
                assert(rest_levels[source + 1][a] == t);
                assert(others.contains(rest_levels[source + 1][a]));
            }
        } else {
            assert(rest_levels[l][i] == t);
            assert(others.contains(rest_levels[l][i]));
        }
    }
    // What stays out of the compaction is held by the version before and after.
    assert forall|t: TableView| others.contains(t) implies version_tables(v).contains(t)
        && version_tables(w).contains(t) by {
        let k = choose|k: int| 0 <= k < others.len() && others[k] == t;
        assert(crate::version::levels_hold(rest_levels, v.levels.len() as int, others[k]));
        let (l, i) = choose|l: int, i: int|
            0 <= l < v.levels.len() && 0 <= i < rest_levels[l].len() && #[trigger] rest_levels[l][i] == t;
        if l == source {
            assert(ls.contains(os[i]));
            let a = choose|a: int| 0 <= a < ls.len() && ls[a] == t;
            assert(version_tables(v).contains(v.levels[source][a]));
            assert(w.levels[source][i] == t);
            assert(version_tables(w).contains(w.levels[source][i]));
        } else if l == source + 1 {
            assert(lt.contains(ot[i]));
            let a = choose|a: int| 0 <= a < lt.len() && lt[a] == t;
            assert(version_tables(v).contains(v.levels[source + 1][a]));
            assert(with_run(ot, outputs).contains(ot[i]));
            let b = choose|b: int| 0 <= b < with_run(ot, outputs).len() && with_run(ot, outputs)[b] == t;
            assert(w.levels[source + 1][b] == t);
            assert(version_tables(w).contains(w.levels[source + 1][b]));
        } else {
            assert(v.levels[l][i] == t);
            assert(version_tables(v).contains(v.levels[l][i]));
            assert(w.levels[l][i] == t);
            assert(version_tables(w).contains(w.levels[l][i]));
        }
    }
    assert forall|t: TableView| inputs.contains(t) implies version_tables(v).contains(t) by {
        let k = choose|k: int| 0 <= k < inputs.len() && inputs[k] == t;
        if k < ps.len() {
            assert(inputs[k] == ps[k]);
            assert(ls.contains(ps[k]));
            let a = choose|a: int| 0 <= a < ls.len() && ls[a] == t;
            assert(version_tables(v).contains(v.levels[source][a]));
        } else {
            assert(inputs[k] == pt[k - ps.len()]);
            assert(lt.contains(pt[k - ps.len()]));
            let a = choose|a: int| 0 <= a < lt.len() && lt[a] == t;
            assert(version_tables(v).contains(v.levels[source + 1][a]));
        }
    }
    assert forall|t: TableView| outputs.contains(t) implies version_tables(w).contains(t) by {
        let k = choose|k: int| 0 <= k < outputs.len() && outputs[k] == t;
        assert(with_run(ot, outputs).contains(outputs[k]));
        let b = choose|b: int| 0 <= b < with_run(ot, outputs).len() && with_run(ot, outputs)[b] == t;
        assert(w.levels[source + 1][b] == t);
        assert(version_tables(w).contains(w.levels[source + 1][b]));
    }
    assert forall|t: TableView| #[trigger] version_tables(w).contains(t) implies outputs.contains(t)
        || others.contains(t) by {
        let k = choose|k: int| 0 <= k < version_tables(w).len() && version_tables(w)[k] == t;
        assert(version_holds(w, version_tables(w)[k]));
        let (l, i) = choose|l: int, i: int|
            0 <= l < w.levels.len() && 0 <= i < w.levels[l].len() && #[trigger] w.levels[l][i] == t;
        if l == source {
            assert(rest_levels[source][i] == t);
            assert(others.contains(rest_levels[source][i]));
        } else if l == source + 1 {
            let wr = with_run(ot, outputs);
            assert(ot.contains(wr[i]) || outputs.contains(wr[i]));
            if ot.contains(t) {
                let a = choose|a: int| 0 <= a < ot.len() && ot[a] == t;
                assert(rest_levels[source + 1][a] == t);
                assert(others.contains(rest_levels[source + 1][a]));
            }
        } else {
            assert(rest_levels[l][i] == t);
            assert(others.contains(rest_levels[l][i]));
        }
    }
}

/// Entries with the same key are the same entry.
pub open spec fn unique_values(entries: Seq<EntryView>) -> bool {
    forall|a: int, b: int|
        0 <= a < entries.len() && 0 <= b < entries.len() && (#[trigger] entries[a]).0 == (
        #[trigger] entries[b]).0 ==> entries[a] == entries[b]
}

/// The bytes of a candidate, if it is a put.
pub open spec fn value_of(e: Option<EntryView>) -> Option<Seq<u8>> {
    match e {
        Some(x) => x.1,
        None => None,
    }
}

/// Where a run of entries is made of the entries of two others, its newest
/// entry carries the value of the newer of their newest entries.
pub proof fn lemma_newest_of_groups(
    all: Seq<EntryView>,
    g1: Seq<EntryView>,
    g2: Seq<EntryView>,
    uk: Seq<u8>,
    epoch: u64,
)
    requires
        keys_valid(all),
        unique_values(all),
        forall|e: EntryView| #[trigger] all.contains(e) <==> g1.contains(e) || g2.contains(e),
    ensures
        value_of(newest(all, uk, epoch)) == value_of(
            newer_of(newest(g1, uk, epoch), newest(g2, uk, epoch)),
        ),
{
    lemma_newest_is_largest(all, uk, epoch, all.len() as int);
    lemma_newest_is_largest(g1, uk, epoch, g1.len() as int);
    lemma_newest_is_largest(g2, uk, epoch, g2.len() as int);
    let c = newer_of(newest(g1, uk, epoch), newest(g2, uk, epoch));
    let n1 = newest(g1, uk, epoch);
    let n2 = newest(g2, uk, epoch);
    match newest(all, uk, epoch) {
        Some(a) => {
            let ka = choose|k: int| 0 <= k < all.len() && all[k] == a;
            assert(all.contains(a));
            if g1.contains(a) {
                let k = choose|k: int| 0 <= k < g1.len() && g1[k] == a;
                assert(seen_by(g1[k], uk, epoch));
            } else {
                let k = choose|k: int| 0 <= k < g2.len() && g2[k] == a;
                assert(seen_by(g2[k], uk, epoch));
            }
            let x = c.unwrap();
            if n1 == Some(x) {
                let k = choose|k: int| 0 <= k < g1.len() && g1[k] == x;
                assert(g1.contains(x));
            } else {
                let k = choose|k: int| 0 <= k < g2.len() && g2[k] == x;
                assert(g2.contains(x));
            }
            assert(all.contains(x));
            let kx = choose|k: int| 0 <= k < all.len() && all[k] == x;
            assert(seen_by(all[kx], uk, epoch));
            assert(spec_epoch_of(x.0) <= spec_epoch_of(a.0));
            assert(spec_epoch_of(a.0) <= spec_epoch_of(x.0));
            assert(valid_full_key(all[ka].0));
            assert(valid_full_key(all[kx].0));
            crate::key::lemma_full_key_parts_injective(a.0, x.0);
        },
        None => {
            if c is Some {
                let x = c.unwrap();
                if n1 == Some(x) {
                    let k = choose|k: int| 0 <= k < g1.len() && g1[k] == x;
                    assert(g1.contains(x));
                } else {
                    let k = choose|k: int| 0 <= k < g2.len() && g2[k] == x;
                    assert(g2.contains(x));
                }
                assert(all.contains(x));
                let kx = choose|k: int| 0 <= k < all.len() && all[k] == x;
                assert(seen_by(all[kx], uk, epoch));
            }
        },
    }
}

/// Where a list of tables is made of the tables of two others, its entries
/// are made of their entries.
pub proof fn lemma_entries_of_groups(tables: Seq<TableView>, g1: Seq<TableView>, g2: Seq<TableView>)
    requires
        forall|t: TableView| #[trigger] tables.contains(t) <==> g1.contains(t) || g2.contains(t),
    ensures
        forall|e: EntryView| #[trigger]
            all_entries(tables).contains(e) <==> all_entries(g1).contains(e) || all_entries(g2).contains(e),
{
    lemma_all_entries_hold(tables, tables.len() as int);
    lemma_all_entries_hold(g1, g1.len() as int);
    lemma_all_entries_hold(g2, g2.len() as int);
    assert forall|e: EntryView| #[trigger] all_entries(tables).contains(e) implies all_entries(g1).contains(e)
        || all_entries(g2).contains(e) by {
        let k = choose|k: int| 0 <= k < all_entries(tables).len() && all_entries(tables)[k] == e;
        assert(holds_entry(tables, all_entries(tables)[k]));
        let (i, j) = choose|i: int, j: int|
            0 <= i < tables.len() && 0 <= j < table_entries(tables[i]).len() && #[trigger] table_entries(
                tables[i],
            )[j] == e;
        assert(tables.contains(tables[i]));
        if g1.contains(tables[i]) {
            let a = choose|a: int| 0 <= a < g1.len() && g1[a] == tables[i];
            assert(all_entries(g1).contains(table_entries(g1[a])[j]));
        } else {
            let a = choose|a: int| 0 <= a < g2.len() && g2[a] == tables[i];
            assert(all_entries(g2).contains(table_entries(g2[a])[j]));
        }
    }
    assert forall|e: EntryView| all_entries(g1).contains(e) || all_entries(g2).contains(
        e,
    ) implies #[trigger] all_entries(tables).contains(e) by {
        let g = if all_entries(g1).contains(e) {
            g1
        } else {
            g2
        };
        let k = choose|k: int| 0 <= k < all_entries(g).len() && all_entries(g)[k] == e;
        assert(holds_entry(g, all_entries(g)[k]));
        let (i, j) = choose|i: int, j: int|
            0 <= i < g.len() && 0 <= j < table_entries(g[i]).len() && #[trigger] table_entries(g[i])[j] == e;
        assert(g.contains(g[i]));
        assert(tables.contains(g[i]));
        let a = choose|a: int| 0 <= a < tables.len() && tables[a] == g[i];
        assert(all_entries(tables).contains(table_entries(tables[a])[j]));
    }
}

/// The entries of intact tables carry well-formed keys.
pub proof fn lemma_entries_valid(tables: Seq<TableView>)
    requires
        tables_intact(tables),
    ensures
        keys_valid(all_entries(tables)),
{
    lemma_all_entries_hold(tables, tables.len() as int);
    let all = all_entries(tables);
    assert forall|k: int| 0 <= k < all.len() implies valid_full_key(#[trigger] all[k].0) by {
        assert(holds_entry(tables, all[k]));
        let (i, j) = choose|i: int, j: int|
            0 <= i < tables.len() && 0 <= j < table_entries(tables[i]).len() && #[trigger] table_entries(
                tables[i],
            )[j] == all[k];
        assert(table_intact(tables[i]));
        lemma_intact_sorted(tables[i]);
        assert(valid_full_key(table_entries(tables[i])[j].0));
    }
}

/// In a version whose entries carry different keys, entries with the same
/// key are the same entry.
pub proof fn lemma_version_unique(v: VersionView)
    requires
        version_keys_distinct(v),
    ensures
        unique_values(all_entries(version_tables(v))),
{
    let tables = version_tables(v);
    let all = all_entries(tables);
    lemma_all_entries_hold(tables, tables.len() as int);
    lemma_version_tables_hold(v);
    assert forall|a: int, b: int|
        0 <= a < all.len() && 0 <= b < all.len() && (#[trigger] all[a]).0 == (#[trigger] all[b]).0 implies all[a]
        == all[b] by {
        assert(holds_entry(tables, all[a]));
        assert(holds_entry(tables, all[b]));
        let (i, j) = choose|i: int, j: int|
            0 <= i < tables.len() && 0 <= j < table_entries(tables[i]).len() && #[trigger] table_entries(
                tables[i],
            )[j] == all[a];
        let (i2, j2) = choose|i2: int, j2: int|
            0 <= i2 < tables.len() && 0 <= j2 < table_entries(tables[i2]).len()
                && #[trigger] table_entries(tables[i2])[j2] == all[b];
        assert(version_holds(v, tables[i]));
        assert(version_holds(v, tables[i2]));
        let (l, m) = choose|l: int, m: int|
            0 <= l < v.levels.len() && 0 <= m < v.levels[l].len() && #[trigger] v.levels[l][m] == tables[i];
        let (l2, m2) = choose|l2: int, m2: int|
            0 <= l2 < v.levels.len() && 0 <= m2 < v.levels[l2].len() && #[trigger] v.levels[l2][m2]
                == tables[i2];
        assert(table_entries(v.levels[l][m])[j] == all[a]);
        assert(table_entries(v.levels[l2][m2])[j2] == all[b]);
    }
}

/// Where every entry of `part` is an entry of `all`, and entries of `all`
/// with the same key are the same entry, the same holds of `part`.
pub proof fn lemma_unique_subset(all: Seq<EntryView>, part: Seq<EntryView>)
    requires
        unique_values(all),
        forall|k: int| 0 <= k < part.len() ==> all.contains(#[trigger] part[k]),
    ensures
        unique_values(part),
{
    assert forall|a: int, b: int|
        0 <= a < part.len() && 0 <= b < part.len() && (#[trigger] part[a]).0 == (#[trigger] part[b]).0 implies part[a]
        == part[b] by {
        assert(all.contains(part[a]));
        assert(all.contains(part[b]));
        let x = choose|x: int| 0 <= x < all.len() && all[x] == part[a];
        let y = choose|y: int| 0 <= y < all.len() && all[y] == part[b];
        assert(all[x].0 == all[y].0);
    }
}

/// The tables that a compaction merges share no key, where the version shares none.
pub proof fn lemma_inputs_distinct(v: VersionView, source: int, source_ids: Seq<u64>, target_ids: Seq<u64>)
    requires
        version_keys_distinct(v),
        0 <= source,
        source + 1 < v.levels.len(),
    ensures
        forall|k: int, j: int, k2: int, j2: int|
            0 <= k < task_inputs(v, source, source_ids, target_ids).len() && 0 <= j < table_entries(
                task_inputs(v, source, source_ids, target_ids)[k],
            ).len() && 0 <= k2 < task_inputs(v, source, source_ids, target_ids).len() && 0 <= j2
                < table_entries(task_inputs(v, source, source_ids, target_ids)[k2]).len() && (k != k2
                || j != j2) ==> (#[trigger] table_entries(
                task_inputs(v, source, source_ids, target_ids)[k],
            )[j]).0 != (#[trigger] table_entries(task_inputs(v, source, source_ids, target_ids)[k2])[j2]).0,
{
    let inputs = task_inputs(v, source, source_ids, target_ids);
    let ls = v.levels[source];
    let lt = v.levels[source + 1];
    let ps = with_ids(ls, source_ids);
    let pt = with_ids(lt, target_ids);
    lemma_with_ids_places(ls, source_ids, ls.len() as int);
    lemma_with_ids_places(lt, target_ids, lt.len() as int);
    assert forall|k: int, j: int, k2: int, j2: int|
        0 <= k < inputs.len() && 0 <= j < table_entries(inputs[k]).len() && 0 <= k2 < inputs.len() && 0
            <= j2 < table_entries(inputs[k2]).len() && (k != k2 || j != j2) implies (
    #[trigger] table_entries(inputs[k])[j]).0 != (#[trigger] table_entries(inputs[k2])[j2]).0 by {
        // Where the two tables stand in the version.
        let in_source = k < ps.len();
        let in_source2 = k2 < ps.len();
        let l = if in_source {
            source
        } else {
            source + 1
        };
        let l2 = if in_source2 {
            source
        } else {
            source + 1
        };
        let level = v.levels[l];
        let level2 = v.levels[l2];
        let picked = if in_source {
            ps
        } else {
            pt
        };
        let picked2 = if in_source2 {
            ps
        } else {
            pt
        };
        let a = if in_source {
            k
        } else {
            k - ps.len()
        };
        let a2 = if in_source2 {
            k2
        } else {
            k2 - ps.len()
        };
        assert(inputs[k] == picked[a]);
        assert(inputs[k2] == picked2[a2]);
        if l == l2 {
            if a == a2 {
                let m = choose|m: int| 0 <= m < level.len() && level[m] == picked[a];
                assert(table_entries(v.levels[l][m])[j].0 != table_entries(v.levels[l][m])[j2].0);
            } else if a < a2 {
                let (m, m2) = choose|m: int, m2: int|
                    0 <= m < m2 < level.len() && level[m] == picked[a] && level[m2] == picked[a2];
                assert(table_entries(v.levels[l][m])[j].0 != table_entries(v.levels[l][m2])[j2].0);
            } else {
                let (m2, m) = choose|m2: int, m: int|
                    0 <= m2 < m < level.len() && level[m2] == picked[a2] && level[m] == picked[a];
                assert(table_entries(v.levels[l][m])[j].0 != table_entries(v.levels[l][m2])[j2].0);
            }
        } else {
            let m = choose|m: int| 0 <= m < level.len() && level[m] == picked[a];
            let m2 = choose|m2: int| 0 <= m2 < level2.len() && level2[m2] == picked2[a2];
            assert(table_entries(v.levels[l][m])[j].0 != table_entries(v.levels[l2][m2])[j2].0);
        }
    }
}

/// Tables whose spans do not cover a user key hold no entry of it.
pub proof fn lemma_uncovered_absent(tables: Seq<TableView>, uk: Seq<u8>, epoch: u64)
    requires
        tables_intact(tables),
        !covered(table_spans(tables), uk),
    ensures
        newest(all_entries(tables), uk, epoch) is None,
{
    let all = all_entries(tables);
    lemma_all_entries_hold(tables, tables.len() as int);
    assert forall|k: int| 0 <= k < all.len() implies spec_user_key(#[trigger] all[k].0) != uk by {
        assert(holds_entry(tables, all[k]));
        let (i, j) = choose|i: int, j: int|
            0 <= i < tables.len() && 0 <= j < table_entries(tables[i]).len() && #[trigger] table_entries(
                tables[i],
            )[j] == all[k];
        assert(table_intact(tables[i]));
        lemma_within_span(tables[i], j);
        if spec_user_key(all[k].0) == uk {
            let spans = table_spans(tables);
            assert(spans[i] == (table_smallest_user_key(tables[i]), table_largest_user_key(tables[i])));
            assert(!lex_lt(uk, spans[i].0) && !lex_lt(spans[i].1, uk));
        }
    }
    crate::read_laws::lemma_newest_absent(all, uk, epoch, all.len() as int);
}

/// What holds between a version without equal keys and the version that a
/// compaction from `source` with `outputs` leaves of it, where the outputs
/// hold what the merge of the inputs keeps.
proof fn lemma_compaction_step(
    before: VersionView,
    source: int,
    source_ids: Seq<u64>,
    target_ids: Seq<u64>,
    outputs: Seq<TableView>,
    mark: u64,
    bound: u64,
    uk: Seq<u8>,
    epoch: u64,
)
    requires
        version_intact(before),
        version_keys_distinct(before),
        0 <= source,
        source + 1 < NUM_LEVELS,
        tables_intact(outputs),
        (Stream { items: all_entries(outputs), fault: None }) == spec_merge(
            task_inputs(before, source, source_ids, target_ids),
            Rules {
                watermark: mark,
                others: other_spans(before, source, source_ids, target_ids),
                epoch_bound: bound, lowest: source + 2 == NUM_LEVELS
            },
        ),
        epoch >= mark,
    ensures
        tables_intact(
            version_tables(
                compacted(before, (before.id + 1) as u64, source, source_ids, target_ids, outputs),
            ),
        ),
        value_seen(
            all_entries(
                version_tables(
                    compacted(before, (before.id + 1) as u64, source, source_ids, target_ids, outputs),
                ),
            ),
            uk,
            epoch,
        ) == value_seen(all_entries(version_tables(before)), uk, epoch),
{
    let after = compacted(before, (before.id + 1) as u64, source, source_ids, target_ids, outputs);
    let ta = version_tables(before);
    let tb = version_tables(after);
    let inputs = task_inputs(before, source, source_ids, target_ids);
    let others = task_others(before, source, source_ids, target_ids);
    let rules = Rules {
        watermark: mark,
        others: other_spans(before, source, source_ids, target_ids),
        epoch_bound: bound, lowest: source + 2 == NUM_LEVELS
    };
    lemma_compaction_tables(before, (before.id + 1) as u64, source, source_ids, target_ids, outputs);
    // Inputs, others and the tables of the new version are intact.
    assert(tables_intact(inputs)) by {
        assert forall|i: int| 0 <= i < inputs.len() implies table_intact(#[trigger] inputs[i]) by {
            assert(inputs.contains(inputs[i]));
            assert(ta.contains(inputs[i]));
            let k = choose|k: int| 0 <= k < ta.len() && ta[k] == inputs[i];
            assert(table_intact(ta[k]));
        }
    }
    assert(tables_intact(others)) by {
        assert forall|i: int| 0 <= i < others.len() implies table_intact(#[trigger] others[i]) by {
            assert(others.contains(others[i]));
            assert(ta.contains(others[i]));
            let k = choose|k: int| 0 <= k < ta.len() && ta[k] == others[i];
            assert(table_intact(ta[k]));
        }
    }
    assert(tables_intact(tb)) by {
        assert forall|i: int| 0 <= i < tb.len() implies table_intact(#[trigger] tb[i]) by {
            assert(tb.contains(tb[i]));
            if outputs.contains(tb[i]) {
                let k = choose|k: int| 0 <= k < outputs.len() && outputs[k] == tb[i];
                assert(table_intact(outputs[k]));
            } else {
                let k = choose|k: int| 0 <= k < others.len() && others[k] == tb[i];
                assert(table_intact(others[k]));
            }
        }
    }
    // The merge of the inputs is in strictly increasing key order.
    let start = BoundView::Unbounded;
    let streams = crate::merging::landed(crate::scan_laws::scan_sources(inputs, start));
    crate::scan_laws::lemma_scan_sources(inputs, start, inputs.len() as int);
    lemma_scan_source(inputs, start);
    lemma_inputs_distinct(before, source, source_ids, target_ids);
    assert(streams_ok(streams));
    assert forall|i: int| 0 <= i < streams.len() implies (#[trigger] streams[i]).items == table_entries(
        inputs[i],
    ) by {
        assert(table_entries(inputs[i]).skip(0) =~= table_entries(inputs[i]));
    }
    assert(streams_distinct(streams)) by {
        assert forall|i: int, j: int, i2: int, j2: int|
            0 <= i < streams.len() && 0 <= j < streams[i].items.len() && 0 <= i2 < streams.len() && 0
                <= j2 < streams[i2].items.len() && (i != i2 || j != j2) implies (
        #[trigger] streams[i].items[j]).0 != (#[trigger] streams[i2].items[j2]).0 by {
            assert(streams[i].items[j] == table_entries(inputs[i])[j]);
            assert(streams[i2].items[j2] == table_entries(inputs[i2])[j2]);
        }
    }
    let m = merge_of(rewind_sources(inputs));
    assert(m == merged(streams));
    lemma_merged_strict(streams);
    lemma_merged_sorted(streams);
    let kept = retained(m.items, None, rules, None, None);
    assert(kept == spec_merge(inputs, rules));
    lemma_retained_first_seen(m.items, rules, None, None, uk, epoch);
    // What the groups of tables meet first.
    lemma_scan_value(inputs, start, uk, epoch);
    lemma_first_seen_newest(kept.items, uk, epoch);
    let c_in = newest(all_entries(inputs), uk, epoch);
    let c_out = newest(all_entries(outputs), uk, epoch);
    let c_rest = newest(all_entries(others), uk, epoch);
    assert(c_in == first_seen(m.items, uk, epoch));
    assert(c_out == first_seen(kept.items, uk, epoch));
    // The entries before and after.
    let ea = all_entries(ta);
    let eb = all_entries(tb);
    lemma_entries_of_groups(ta, inputs, others);
    lemma_entries_of_groups(tb, outputs, others);
    lemma_version_unique(before);
    lemma_entries_valid(ta);
    lemma_entries_valid(tb);
    lemma_all_entries_hold(inputs, inputs.len() as int);
    assert forall|k: int| 0 <= k < eb.len() implies ea.contains(#[trigger] eb[k]) by {
        let x = eb[k];
        assert(eb.contains(x));
        if all_entries(others).contains(x) {
        } else {
            assert(all_entries(outputs).contains(x));
            let w = choose|w: int| 0 <= w < kept.items.len() && kept.items[w] == x;
            assert(m.items.contains(kept.items[w]));
            let z = choose|z: int| 0 <= z < m.items.len() && m.items[z] == x;
            assert(in_streams(streams, m.items[z]));
            let (i, j) = choose|i: int, j: int|
                0 <= i < streams.len() && 0 <= j < streams[i].items.len() && #[trigger] streams[i].items[j]
                    == x;
            assert(table_entries(inputs[i])[j] == x);
            assert(all_entries(inputs).contains(table_entries(inputs[i])[j]));
        }
    }
    lemma_unique_subset(ea, eb);
    lemma_newest_of_groups(ea, all_entries(inputs), all_entries(others), uk, epoch);
    lemma_newest_of_groups(eb, all_entries(outputs), all_entries(others), uk, epoch);
    if c_out != c_in {
        assert(other_spans(before, source, source_ids, target_ids) == table_spans(others));
        lemma_uncovered_absent(others, uk, epoch);
    }
}

/// Compaction equivalence: what a snapshot at or above the watermark sees
/// under a user key is the same before and after a committed compaction,
/// in a store whose entries carry different full keys.
pub proof fn lemma_compaction_keeps_reads(
    before: VersionView,
    after: VersionView,
    mark: u64,
    bound: u64,
    uk: Seq<u8>,
    epoch: u64,
)
    requires
        version_intact(before),
        version_keys_distinct(before),
        is_compaction_of(before, after, mark, bound),
        epoch >= mark,
        uk.len() > 0,
    ensures
        tables_intact(version_tables(after)),
        value_seen(all_entries(version_tables(after)), uk, epoch) == value_seen(
            all_entries(version_tables(before)),
            uk,
            epoch,
        ),
        spec_get(version_tables(after), uk, epoch) == spec_get(version_tables(before), uk, epoch),
{
    let (source, source_ids, target_ids, outputs) = choose|
        source: int,
        source_ids: Seq<u64>,
        target_ids: Seq<u64>,
        outputs: Seq<TableView>,
    |
        {
            &&& 0 <= source
            &&& source + 1 < NUM_LEVELS
            &&& after == #[trigger] compacted(
                before,
                (before.id + 1) as u64,
                source,
                source_ids,
                target_ids,
                outputs,
            )
            &&& tables_intact(outputs)
            &&& (Stream { items: all_entries(outputs), fault: None }) == spec_merge(
                task_inputs(before, source, source_ids, target_ids),
                Rules {
                    watermark: mark,
                    others: other_spans(before, source, source_ids, target_ids),
                    epoch_bound: bound, lowest: source + 2 == NUM_LEVELS
                },
            )
        };
    lemma_compaction_step(before, source, source_ids, target_ids, outputs, mark, bound, uk, epoch);
    lemma_get_sees_newest(version_tables(before), uk, epoch);
    lemma_get_sees_newest(version_tables(after), uk, epoch);
}

/// Two ascending runs of pairs that hold the same pairs are equal.
pub proof fn lemma_ascending_equal(x: Seq<(Seq<u8>, Seq<u8>)>, y: Seq<(Seq<u8>, Seq<u8>)>)
    requires
        ascending(x),
        ascending(y),
        forall|i: int| 0 <= i < x.len() ==> y.contains(#[trigger] x[i]),
        forall|j: int| 0 <= j < y.len() ==> x.contains(#[trigger] y[j]),
    ensures
        x == y,
    decreases x.len(),
{
    if x.len() == 0 {
        if y.len() > 0 {
            assert(x.contains(y[0]));
        }
        assert(x =~= y);
    } else if y.len() == 0 {
        assert(y.contains(x[0]));
    } else {
        assert(y.contains(x[0]));
        assert(x.contains(y[0]));
        let j = choose|j: int| 0 <= j < y.len() && y[j] == x[0];
        let i = choose|i: int| 0 <= i < x.len() && x[i] == y[0];
        if j > 0 {
            assert(lex_lt(y[0].0, y[j].0));
            if i == 0 {
                lemma_lex_lt_irreflexive(x[0].0);
            } else {
                assert(lex_lt(x[0].0, x[i].0));
                lemma_lex_lt_asymmetric(x[0].0, y[0].0);
            }
        }
        assert(x[0] == y[0]);
        let xt = x.drop_first();
        let yt = y.drop_first();
        assert(ascending(xt)) by {
            assert forall|a: int, b: int| 0 <= a < b < xt.len() implies lex_lt(
                (#[trigger] xt[a]).0,
                (#[trigger] xt[b]).0,
            ) by {
                assert(lex_lt(x[a + 1].0, x[b + 1].0));
            }
        }
        assert(ascending(yt)) by {
            assert forall|a: int, b: int| 0 <= a < b < yt.len() implies lex_lt(
                (#[trigger] yt[a]).0,
                (#[trigger] yt[b]).0,
            ) by {
                assert(lex_lt(y[a + 1].0, y[b + 1].0));
            }
        }
        assert forall|a: int| 0 <= a < xt.len() implies yt.contains(#[trigger] xt[a]) by {
            assert(xt[a] == x[a + 1]);
            assert(y.contains(x[a + 1]));
            let k = choose|k: int| 0 <= k < y.len() && y[k] == x[a + 1];
            if k == 0 {
                assert(lex_lt(x[0].0, x[a + 1].0));
                lemma_lex_lt_irreflexive(x[0].0);
            }
            assert(yt[k - 1] == xt[a]);
        }
        assert forall|b: int| 0 <= b < yt.len() implies xt.contains(#[trigger] yt[b]) by {
            assert(yt[b] == y[b + 1]);
            assert(x.contains(y[b + 1]));
            let k = choose|k: int| 0 <= k < x.len() && x[k] == y[b + 1];
            if k == 0 {
                assert(lex_lt(y[0].0, y[b + 1].0));
                lemma_lex_lt_irreflexive(y[0].0);
            }
            assert(xt[k - 1] == yt[b]);
        }
        lemma_ascending_equal(xt, yt);
        assert(x =~= seq![x[0]] + xt);
        assert(y =~= seq![y[0]] + yt);
    }
}

/// Every pair that a scan of `a` yields, a scan of `b` yields too, where
/// both are intact and `b` shows under every user key what `a` shows.
proof fn lemma_scan_within(a: Seq<TableView>, b: Seq<TableView>, range: RangeView, epoch: u64)
    requires
        tables_intact(a),
        tables_intact(b),
        forall|uk: Seq<u8>|
            value_seen(all_entries(a), uk, epoch) == #[trigger] value_seen(all_entries(b), uk, epoch),
    ensures
        forall|i: int|
            0 <= i < scan_stream(a, range, epoch).items.len() ==> scan_stream(
                b,
                range,
                epoch,
            ).items.contains(#[trigger] scan_stream(a, range, epoch).items[i]),
{
    lemma_scan_sound(a, range, epoch);
    lemma_scan_sound(b, range, epoch);
    let x = scan_stream(a, range, epoch).items;
    let y = scan_stream(b, range, epoch).items;
    assert forall|i: int| 0 <= i < x.len() implies y.contains(#[trigger] x[i]) by {
        let p = x[i];
        assert(value_seen(all_entries(a), p.0, epoch) == Some(p.1));
        assert(value_seen(all_entries(b), p.0, epoch) == Some(p.1));
        lemma_scan_complete(b, range, epoch, p.0);
        let k = choose|k: int| 0 <= k < y.len() && (#[trigger] y[k]).0 == p.0;
        assert(value_seen(all_entries(b), y[k].0, epoch) == Some(y[k].1));
        assert(y[k] == p);
    }
}

/// Scans of two sets of intact tables that show the same value under every
/// user key yield the same pairs.
pub proof fn lemma_scans_agree(a: Seq<TableView>, b: Seq<TableView>, range: RangeView, epoch: u64)
    requires
        tables_intact(a),
        tables_intact(b),
        forall|uk: Seq<u8>|
            value_seen(all_entries(a), uk, epoch) == #[trigger] value_seen(all_entries(b), uk, epoch),
    ensures
        spec_scan(a, range, epoch) == spec_scan(b, range, epoch),
{
    lemma_scan_sound(a, range, epoch);
    lemma_scan_sound(b, range, epoch);
    lemma_scan_within(a, b, range, epoch);
    assert forall|uk: Seq<u8>|
        value_seen(all_entries(b), uk, epoch) == #[trigger] value_seen(all_entries(a), uk, epoch) by {
        assert(value_seen(all_entries(a), uk, epoch) == value_seen(all_entries(b), uk, epoch));
    }
    lemma_scan_within(b, a, range, epoch);
    lemma_ascending_equal(scan_stream(a, range, epoch).items, scan_stream(b, range, epoch).items);
}

/// Compaction equivalence for scans: a scan at or above the watermark
/// yields the same pairs before and after a committed compaction, in a
/// store whose entries carry different full keys.
pub proof fn lemma_compaction_keeps_scans(
    before: VersionView,
    after: VersionView,
    mark: u64,
    bound: u64,
    range: RangeView,
    epoch: u64,
)
    requires
        version_intact(before),
        version_keys_distinct(before),
        is_compaction_of(before, after, mark, bound),
        epoch >= mark,
    ensures
        spec_scan(version_tables(after), range, epoch) == spec_scan(
            version_tables(before),
            range,
            epoch,
        ),
{
    let (source, source_ids, target_ids, outputs) = choose|
        source: int,
        source_ids: Seq<u64>,
        target_ids: Seq<u64>,
        outputs: Seq<TableView>,
    |
        {
            &&& 0 <= source
            &&& source + 1 < NUM_LEVELS
            &&& after == #[trigger] compacted(
                before,
                (before.id + 1) as u64,
                source,
                source_ids,
                target_ids,
                outputs,
            )
            &&& tables_intact(outputs)
            &&& (Stream { items: all_entries(outputs), fault: None }) == spec_merge(
                task_inputs(before, source, source_ids, target_ids),
                Rules {
                    watermark: mark,
                    others: other_spans(before, source, source_ids, target_ids),
                    epoch_bound: bound,
                    lowest: source + 2 == NUM_LEVELS,
                },
            )
        };
    lemma_compaction_step(before, source, source_ids, target_ids, outputs, mark, bound, seq![0u8], epoch);
    assert forall|uk: Seq<u8>|
        value_seen(all_entries(version_tables(after)), uk, epoch) == #[trigger] value_seen(
            all_entries(version_tables(before)),
            uk,
            epoch,
        ) by {
        lemma_compaction_step(before, source, source_ids, target_ids, outputs, mark, bound, uk, epoch);
    }
    lemma_scans_agree(version_tables(after), version_tables(before), range, epoch);
}

} // verus!
