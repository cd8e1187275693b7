//! What a lookup returns on intact tables: the value of the newest entry of
//! the key that the snapshot can see.

use vstd::prelude::*;
use crate::block::{EntryView, keys_valid, lemma_lower_bound_props, lower_bound, sorted_entries};
use crate::bloom::spec_filter_may_contain;
use crate::coding::{lemma_lex_lt_total, lex_lt};
use crate::error::HummockError;
use crate::intact::{
    all_entries, all_entries_upto, table_entries, table_intact, tables_intact, version_intact,
};
use crate::key::{
    full_key_lt, lemma_key_with_epoch_parts, spec_epoch_of, spec_key_with_epoch, spec_user_key,
};
use crate::merging::{
    first_fault_upto, landed, lemma_merged_landing, lemma_pick_min_valid, merge_of, merged,
    pick_min_upto, seek_sources,
};
use crate::snapshot::{admitting, admitting_upto, spec_get};
use crate::storage::{batch_entries, batch_valid, epochs_below, lemma_with_l0_tables};
use crate::table::TableView;
use crate::table_iterator::{landing_stream, table_seek_stream};
use crate::table_order::{lemma_intact_sorted, lemma_seek_lands};
use crate::version::{version_tables, VersionView};
use crate::version_manager::with_l0;

verus! {

/// Whether `e` is an entry of the user key `uk` that a snapshot at `epoch` can see.
pub open spec fn seen_by(e: EntryView, uk: Seq<u8>, epoch: u64) -> bool {
    spec_user_key(e.0) == uk && spec_epoch_of(e.0) <= epoch
}

/// Of two candidates the one with the larger epoch; of equals the first.
pub open spec fn newer_of(a: Option<EntryView>, b: Option<EntryView>) -> Option<EntryView> {
    match b {
        None => a,
        Some(eb) => match a {
            None => b,
            Some(ea) => if spec_epoch_of(ea.0) < spec_epoch_of(eb.0) {
                b
            } else {
                a
            },
        },
    }
}

/// `e` as a candidate, if the snapshot can see it.
pub open spec fn candidate(e: EntryView, uk: Seq<u8>, epoch: u64) -> Option<EntryView> {
    if seen_by(e, uk, epoch) {
        Some(e)
    } else {
        None
    }
}

/// Among the first `n` entries, the entry of `uk` with the largest epoch
/// that a snapshot at `epoch` can see; of equals the first.
pub open spec fn newest_upto(entries: Seq<EntryView>, uk: Seq<u8>, epoch: u64, n: int) -> Option<EntryView>
    decreases n,
{
    if n <= 0 {
        None
    } else {
        newer_of(newest_upto(entries, uk, epoch, n - 1), candidate(entries[n - 1], uk, epoch))
    }
}

/// The entry of `uk` with the largest epoch that a snapshot at `epoch` can see.
pub open spec fn newest(entries: Seq<EntryView>, uk: Seq<u8>, epoch: u64) -> Option<EntryView> {
    newest_upto(entries, uk, epoch, entries.len() as int)
}

/// What a snapshot at `epoch` sees under `uk`: the bytes of the newest
/// entry that it can see, if that is a put.
pub open spec fn value_seen(entries: Seq<EntryView>, uk: Seq<u8>, epoch: u64) -> Option<Seq<u8>> {
    match newest(entries, uk, epoch) {
        Some(e) => e.1,
        None => None,
    }
}

/// The newest entry is an entry that the snapshot can see, and none that it
/// can see carries a larger epoch. Where there is no newest entry, the
/// snapshot can see no entry of the key.
pub proof fn lemma_newest_is_largest(entries: Seq<EntryView>, uk: Seq<u8>, epoch: u64, n: int)
    requires
        0 <= n <= entries.len(),
    ensures
        match newest_upto(entries, uk, epoch, n) {
            Some(e) => seen_by(e, uk, epoch) && (exists|k: int| 0 <= k < n && entries[k] == e)
                && forall|j: int|
                0 <= j < n && seen_by(#[trigger] entries[j], uk, epoch) ==> spec_epoch_of(entries[j].0)
                    <= spec_epoch_of(e.0),
            None => forall|j: int| 0 <= j < n ==> !seen_by(#[trigger] entries[j], uk, epoch),
        },
    decreases n,
{
    if n > 0 {
        lemma_newest_is_largest(entries, uk, epoch, n - 1);
        match newest_upto(entries, uk, epoch, n - 1) {
            Some(e) => {
                let k = choose|k: int| 0 <= k < n - 1 && entries[k] == e;
                assert(0 <= k < n && entries[k] == e);
            },
            None => {},
        }
        if newest_upto(entries, uk, epoch, n) == Some(entries[n - 1]) {
            assert(entries[n - 1] == entries[n - 1]);
        }
    }
}

proof fn lemma_newer_of_assoc(a: Option<EntryView>, b: Option<EntryView>, c: Option<EntryView>)
    ensures
        newer_of(newer_of(a, b), c) == newer_of(a, newer_of(b, c)),
{
}

proof fn lemma_newest_prefix(a: Seq<EntryView>, b: Seq<EntryView>, uk: Seq<u8>, epoch: u64, n: int)
    requires
        0 <= n <= a.len(),
    ensures
        newest_upto(a + b, uk, epoch, n) == newest_upto(a, uk, epoch, n),
    decreases n,
{
    if n > 0 {
        lemma_newest_prefix(a, b, uk, epoch, n - 1);
        assert((a + b)[n - 1] == a[n - 1]);
    }
}

/// The newest entry of two runs of entries is the newer of their newest entries.
pub proof fn lemma_newest_concat(a: Seq<EntryView>, b: Seq<EntryView>, uk: Seq<u8>, epoch: u64, m: int)
    requires
        0 <= m <= b.len(),
    ensures
        newest_upto(a + b, uk, epoch, a.len() + m) == newer_of(
            newest(a, uk, epoch),
            newest_upto(b, uk, epoch, m),
        ),
    decreases m,
{
    if m == 0 {
        lemma_newest_prefix(a, b, uk, epoch, a.len() as int);
    } else {
        lemma_newest_concat(a, b, uk, epoch, m - 1);
        assert((a + b)[a.len() + m - 1] == b[m - 1]);
        lemma_newer_of_assoc(
            newest(a, uk, epoch),
            newest_upto(b, uk, epoch, m - 1),
            candidate(b[m - 1], uk, epoch),
        );
    }
}

/// The newest entry among the first `n` tables: the newer of the newest
/// entries of the tables, table after table.
pub open spec fn newest_in_tables(tables: Seq<TableView>, uk: Seq<u8>, epoch: u64, n: int) -> Option<
    EntryView,
>
    decreases n,
{
    if n <= 0 {
        None
    } else {
        newer_of(
            newest_in_tables(tables, uk, epoch, n - 1),
            newest(table_entries(tables[n - 1]), uk, epoch),
        )
    }
}

/// The newest entry of all entries of some tables is the newest among the tables.
pub proof fn lemma_newest_by_table(tables: Seq<TableView>, uk: Seq<u8>, epoch: u64, n: int)
    requires
        0 <= n <= tables.len(),
    ensures
        newest(all_entries_upto(tables, n), uk, epoch) == newest_in_tables(tables, uk, epoch, n),
    decreases n,
{
    if n > 0 {
        lemma_newest_by_table(tables, uk, epoch, n - 1);
        let a = all_entries_upto(tables, n - 1);
        let b = table_entries(tables[n - 1]);
        lemma_newest_concat(a, b, uk, epoch, b.len() as int);
    }
}

/// In entries in key order, the newest entry of `uk` that a snapshot at
/// `epoch` can see is the first entry that does not sort before the full
/// key of `uk` at `epoch`, if that entry belongs to `uk`.
pub proof fn lemma_newest_in_order(entries: Seq<EntryView>, uk: Seq<u8>, epoch: u64, n: int)
    requires
        keys_valid(entries),
        sorted_entries(entries),
        0 <= n <= entries.len(),
    ensures
        newest_upto(entries, uk, epoch, n) == if n > lower_bound(
            entries,
            spec_key_with_epoch(uk, epoch),
        ) && spec_user_key(entries[lower_bound(entries, spec_key_with_epoch(uk, epoch))].0) == uk {
            Some(entries[lower_bound(entries, spec_key_with_epoch(uk, epoch))])
        } else {
            None
        },
        lower_bound(entries, spec_key_with_epoch(uk, epoch)) < entries.len() && spec_user_key(
            entries[lower_bound(entries, spec_key_with_epoch(uk, epoch))].0,
        ) != uk ==> lex_lt(
            uk,
            spec_user_key(entries[lower_bound(entries, spec_key_with_epoch(uk, epoch))].0),
        ),
    decreases n,
{
    let target = spec_key_with_epoch(uk, epoch);
    let lb = lower_bound(entries, target);
    lemma_key_with_epoch_parts(uk, epoch);
    lemma_lower_bound_props(entries, target, 0);
    crate::coding::lemma_lex_lt_irreflexive(uk);
    if lb < entries.len() {
        let h = entries[lb];
        lemma_lex_lt_total(spec_user_key(h.0), uk);
        crate::coding::lemma_lex_lt_asymmetric(uk, spec_user_key(h.0));
        assert(!full_key_lt(h.0, target));
    }
    if n > 0 {
        lemma_newest_in_order(entries, uk, epoch, n - 1);
        let e = entries[n - 1];
        if n - 1 < lb {
            assert(full_key_lt(e.0, target));
            assert(!seen_by(e, uk, epoch));
        } else if n - 1 == lb {
            assert(seen_by(e, uk, epoch) == (spec_user_key(e.0) == uk));
        } else {
            let h = entries[lb];
            assert(full_key_lt(h.0, e.0));
            if spec_user_key(h.0) == uk {
                if seen_by(e, uk, epoch) {
                    assert(spec_epoch_of(h.0) > spec_epoch_of(e.0));
                }
            } else {
                assert(!seen_by(e, uk, epoch));
            }
        }
    }
}

/// Where no entry belongs to `uk`, there is no newest entry of `uk`.
pub proof fn lemma_newest_absent(entries: Seq<EntryView>, uk: Seq<u8>, epoch: u64, n: int)
    requires
        0 <= n <= entries.len(),
        forall|i: int| 0 <= i < entries.len() ==> spec_user_key(#[trigger] entries[i].0) != uk,
    ensures
        newest_upto(entries, uk, epoch, n) is None,
    decreases n,
{
    if n > 0 {
        lemma_newest_absent(entries, uk, epoch, n - 1);
    }
}

proof fn lemma_newest_in_tables_prefix(a: Seq<TableView>, b: Seq<TableView>, uk: Seq<u8>, epoch: u64, n: int)
    requires
        0 <= n <= a.len() <= b.len(),
        forall|i: int| 0 <= i < a.len() ==> a[i] == b[i],
    ensures
        newest_in_tables(b, uk, epoch, n) == newest_in_tables(a, uk, epoch, n),
    decreases n,
{
    if n > 0 {
        lemma_newest_in_tables_prefix(a, b, uk, epoch, n - 1);
    }
}

/// The tables that the Bloom filter passes over hold no entry of the key:
/// the newest entry among all tables is the newest among the admitted ones.
pub proof fn lemma_newest_admitted(tables: Seq<TableView>, uk: Seq<u8>, epoch: u64, n: int)
    requires
        0 <= n <= tables.len(),
        tables_intact(tables),
    ensures
        newest_in_tables(tables, uk, epoch, n) == newest_in_tables(
            admitting_upto(tables, uk, n),
            uk,
            epoch,
            admitting_upto(tables, uk, n).len() as int,
        ),
        tables_intact(admitting_upto(tables, uk, n)),
    decreases n,
{
    if n > 0 {
        lemma_newest_admitted(tables, uk, epoch, n - 1);
        let t = tables[n - 1];
        let prev = admitting_upto(tables, uk, n - 1);
        assert(table_intact(t));
        if spec_filter_may_contain(t.meta.filter, uk) {
            let cur = prev.push(t);
            lemma_newest_in_tables_prefix(prev, cur, uk, epoch, prev.len() as int);
            assert forall|i: int| 0 <= i < cur.len() implies table_intact(#[trigger] cur[i]) by {
                if i < prev.len() {
                    assert(cur[i] == prev[i]);
                }
            }
        } else {
            let es = table_entries(t);
            assert forall|i: int| 0 <= i < es.len() implies spec_user_key(#[trigger] es[i].0) != uk by {
                assert(spec_filter_may_contain(t.meta.filter, spec_user_key(es[i].0)));
            }
            lemma_newest_absent(es, uk, epoch, es.len() as int);
        }
    }
}

/// No source of a seek in intact tables begins with a fault.
pub proof fn lemma_seek_no_fault(tables: Seq<TableView>, target: Seq<u8>, n: int)
    requires
        tables_intact(tables),
        target.len() >= 8,
        0 <= n <= tables.len(),
    ensures
        first_fault_upto(seek_sources(tables, target), n) is None,
    decreases n,
{
    if n > 0 {
        lemma_seek_no_fault(tables, target, n - 1);
        assert(table_intact(tables[n - 1]));
        lemma_seek_lands(tables[n - 1], target);
    }
}

/// The stream that stands at the smallest key after a seek to the full key
/// of `uk` at `epoch` stands at the newest entry of `uk` among the tables,
/// if there is one; else it stands at another user key, or no stream stands
/// anywhere.
pub proof fn lemma_pick_min_newest(tables: Seq<TableView>, uk: Seq<u8>, epoch: u64, n: int)
    requires
        tables_intact(tables),
        0 <= n <= tables.len(),
    ensures
        match newest_in_tables(tables, uk, epoch, n) {
            Some(e) => pick_min_upto(
                landed(seek_sources(tables, spec_key_with_epoch(uk, epoch))),
                n,
            ) matches Some(c) && landed(seek_sources(tables, spec_key_with_epoch(uk, epoch)))[c].items[0]
                == e && seen_by(e, uk, epoch),
            None => pick_min_upto(
                landed(seek_sources(tables, spec_key_with_epoch(uk, epoch))),
                n,
            ) matches Some(c) ==> lex_lt(
                uk,
                spec_user_key(
                    landed(seek_sources(tables, spec_key_with_epoch(uk, epoch)))[c].items[0].0,
                ),
            ),
        },
    decreases n,
{
    let target = spec_key_with_epoch(uk, epoch);
    let streams = landed(seek_sources(tables, target));
    lemma_key_with_epoch_parts(uk, epoch);
    if n > 0 {
        lemma_newest_in_tables_largest(tables, uk, epoch, n - 1);
        lemma_pick_min_newest(tables, uk, epoch, n - 1);
        lemma_pick_min_valid(streams, n - 1);
        let t = tables[n - 1];
        assert(table_intact(t));
        let es = table_entries(t);
        lemma_intact_sorted(t);
        lemma_seek_lands(t, target);
        lemma_lower_bound_props(es, target, 0);
        lemma_newest_in_order(es, uk, epoch, es.len() as int);
        let lb = lower_bound(es, target);
        let s = streams[n - 1];
        assert(s == landing_stream(table_seek_stream(t, target)));
        assert(s.items =~= es.skip(lb));
        if lb < es.len() {
            assert(s.items[0] == es[lb]);
            lemma_lex_lt_total(spec_user_key(es[lb].0), uk);
        }
        let prev = newest_in_tables(tables, uk, epoch, n - 1);
        match pick_min_upto(streams, n - 1) {
            Some(c) => {
                let best = streams[c].items[0];
                if lb < es.len() {
                    let h = es[lb];
                    crate::coding::lemma_lex_lt_irreflexive(uk);
                    crate::coding::lemma_lex_lt_asymmetric(uk, spec_user_key(h.0));
                    crate::coding::lemma_lex_lt_asymmetric(uk, spec_user_key(best.0));
                }
            },
            None => {},
        }
    }
}

/// The newest entry among tables is an entry of the key that the snapshot
/// can see.
pub proof fn lemma_newest_in_tables_largest(tables: Seq<TableView>, uk: Seq<u8>, epoch: u64, n: int)
    requires
        0 <= n <= tables.len(),
    ensures
        newest_in_tables(tables, uk, epoch, n) matches Some(e) ==> seen_by(e, uk, epoch),
    decreases n,
{
    if n > 0 {
        lemma_newest_in_tables_largest(tables, uk, epoch, n - 1);
        let es = table_entries(tables[n - 1]);
        lemma_newest_is_largest(es, uk, epoch, es.len() as int);
    }
}

/// A lookup in intact tables returns what the snapshot sees under the key:
/// the bytes of the put with the largest epoch that the snapshot can see,
/// and nothing where that entry is a tombstone or where there is none.
pub proof fn lemma_get_sees_newest(tables: Seq<TableView>, uk: Seq<u8>, epoch: u64)
    requires
        tables_intact(tables),
        uk.len() > 0,
    ensures
        spec_get(tables, uk, epoch) == Ok::<Option<Seq<u8>>, HummockError>(
            value_seen(all_entries(tables), uk, epoch),
        ),
{
    let target = spec_key_with_epoch(uk, epoch);
    let ts = admitting(tables, uk);
    lemma_key_with_epoch_parts(uk, epoch);
    lemma_newest_by_table(tables, uk, epoch, tables.len() as int);
    lemma_newest_admitted(tables, uk, epoch, tables.len() as int);
    lemma_seek_no_fault(ts, target, ts.len() as int);
    lemma_pick_min_newest(ts, uk, epoch, ts.len() as int);
    let sources = seek_sources(ts, target);
    let streams = landed(sources);
    lemma_merged_landing(streams);
    lemma_pick_min_valid(streams, streams.len() as int);
    let m = merge_of(sources);
    assert(m == merged(streams));
    match newest_in_tables(ts, uk, epoch, ts.len() as int) {
        Some(e) => {},
        None => {
            if m.items.len() > 0 {
                crate::coding::lemma_lex_lt_irreflexive(uk);
            }
        },
    }
}

/// The newest entry among a table that holds a batch at `epoch` and, behind
/// it, tables whose epochs all lie below `epoch`, is the batch's entry.
proof fn lemma_newest_is_written(
    tables: Seq<TableView>,
    batch: Seq<(Seq<u8>, Option<Seq<u8>>)>,
    epoch: u64,
    i: int,
    n: int,
)
    requires
        tables.len() >= 1,
        table_entries(tables[0]) == batch_entries(batch, epoch),
        batch_valid(batch),
        forall|a: int, b: int|
            1 <= a < tables.len() && 0 <= b < table_entries(tables[a]).len() ==> spec_epoch_of(
                #[trigger] table_entries(tables[a])[b].0,
            ) < epoch,
        0 <= i < batch.len(),
        1 <= n <= tables.len(),
    ensures
        newest_in_tables(tables, batch[i].0, epoch, n) == Some(batch_entries(batch, epoch)[i]),
    decreases n,
{
    let uk = batch[i].0;
    let es = batch_entries(batch, epoch);
    lemma_key_with_epoch_parts(uk, epoch);
    if n == 1 {
        lemma_newest_is_largest(es, uk, epoch, es.len() as int);
        assert(seen_by(es[i], uk, epoch));
        let e = newest(es, uk, epoch).unwrap();
        let k = choose|k: int| 0 <= k < es.len() && es[k] == e;
        lemma_key_with_epoch_parts(batch[k].0, epoch);
        if k != i {
            crate::coding::lemma_lex_lt_irreflexive(uk);
            if k < i {
                assert(lex_lt(batch[k].0, batch[i].0));
            } else {
                assert(lex_lt(batch[i].0, batch[k].0));
            }
        }
        assert(newest_in_tables(tables, uk, epoch, 0) is None);
    } else {
        lemma_newest_is_written(tables, batch, epoch, i, n - 1);
        let other = table_entries(tables[n - 1]);
        lemma_newest_is_largest(other, uk, epoch, other.len() as int);
        match newest(other, uk, epoch) {
            Some(e) => {
                let k = choose|k: int| 0 <= k < other.len() && other[k] == e;
                assert(spec_epoch_of(other[k].0) < epoch);
            },
            None => {},
        }
    }
}

/// Read your writes: in the version that a batch at `epoch` leaves, a
/// lookup at the new epoch high-water returns, for every key of the batch,
/// what the batch wrote under it: the bytes of a put, nothing for a tombstone.
pub proof fn lemma_read_your_writes(
    before: VersionView,
    version_id: u64,
    t: TableView,
    batch: Seq<(Seq<u8>, Option<Seq<u8>>)>,
    epoch: u64,
    i: int,
)
    requires
        version_intact(before),
        epochs_below(version_tables(before), epoch),
        before.max_epoch <= epoch,
        table_intact(t),
        t.id == epoch,
        table_entries(t) == batch_entries(batch, epoch),
        batch_valid(batch),
        0 <= i < batch.len(),
    ensures
        with_l0(before, version_id, t).max_epoch == epoch,
        spec_get(
            version_tables(with_l0(before, version_id, t)),
            batch[i].0,
            with_l0(before, version_id, t).max_epoch,
        ) == Ok::<Option<Seq<u8>>, HummockError>(batch[i].1),
{
    let after = with_l0(before, version_id, t);
    let old_tables = version_tables(before);
    let tables = version_tables(after);
    lemma_with_l0_tables(before, version_id, t);
    assert(tables == seq![t] + old_tables);
    assert forall|k: int| 0 <= k < tables.len() implies table_intact(#[trigger] tables[k]) by {
        if k > 0 {
            assert(tables[k] == old_tables[k - 1]);
        }
    }
    assert forall|a: int, b: int|
        1 <= a < tables.len() && 0 <= b < table_entries(tables[a]).len() implies spec_epoch_of(
        #[trigger] table_entries(tables[a])[b].0,
    ) < epoch by {
        assert(tables[a] == old_tables[a - 1]);
    }
    lemma_get_sees_newest(tables, batch[i].0, epoch);
    lemma_newest_by_table(tables, batch[i].0, epoch, tables.len() as int);
    lemma_newest_is_written(tables, batch, epoch, i, tables.len() as int);
}

} // verus!
