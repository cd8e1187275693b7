//! Intact tables: tables whose blocks all decode and whose Bloom filter
//! admits every user key that they hold.

use vstd::prelude::*;
use crate::block::EntryView;
use crate::bloom::{is_filter_of, lemma_filter_admits_its_hashes, spec_filter_may_contain};
use crate::builder::entry_hashes;
use crate::error::HummockError;
use crate::key::spec_user_key;
use crate::table::{
    spec_block_entries, spec_open_table, spec_table_entries, spec_table_entries_upto, table_wf,
    TableMetaView, TableView,
};
use crate::table_iterator::{Stream, table_stream, table_stream_from};
use crate::version::{version_tables, version_wf, VersionView};

verus! {

/// The entries of a table up to its first block that is refused.
pub open spec fn table_entries(t: TableView) -> Seq<EntryView> {
    table_stream(t).items
}

/// The Bloom filter of a table admits the user key of each of its entries.
pub open spec fn filter_covers(t: TableView) -> bool {
    forall|i: int|
        0 <= i < table_entries(t).len() ==> spec_filter_may_contain(
            t.meta.filter,
            spec_user_key(#[trigger] table_entries(t)[i].0),
        )
}

/// A table is intact when its footer and index are accepted, each of its
/// blocks decodes, and its Bloom filter admits every user key in it.
pub open spec fn table_intact(t: TableView) -> bool {
    table_wf(t) && table_stream(t).fault is None && filter_covers(t)
}

/// Every one of `tables` is intact.
pub open spec fn tables_intact(tables: Seq<TableView>) -> bool {
    forall|i: int| 0 <= i < tables.len() ==> table_intact(#[trigger] tables[i])
}

/// A version is intact when it is well formed and all its tables are intact.
pub open spec fn version_intact(v: VersionView) -> bool {
    version_wf(v) && tables_intact(version_tables(v))
}

/// The stream of a table is the entries of its first blocks, then the
/// stream from the block behind them.
pub proof fn lemma_stream_split(t: TableView, k: nat)
    requires
        k <= t.meta.index.len(),
        spec_table_entries_upto(t.data, t.meta, k) is Ok,
    ensures
        table_stream(t).items == spec_table_entries_upto(t.data, t.meta, k).unwrap()
            + table_stream_from(t, k as int).items,
        table_stream(t).fault == table_stream_from(t, k as int).fault,
    decreases k,
{
    if k == 0 {
        assert(Seq::<EntryView>::empty() + table_stream_from(t, 0).items =~= table_stream_from(t, 0).items);
    } else {
        lemma_stream_split(t, (k - 1) as nat);
        reveal_with_fuel(table_stream_from, 2);
        let before = spec_table_entries_upto(t.data, t.meta, (k - 1) as nat).unwrap();
        let b = spec_block_entries(t.data, t.meta, k - 1).unwrap();
        assert(before + (b + table_stream_from(t, k as int).items) =~= (before + b) + table_stream_from(
            t,
            k as int,
        ).items);
    }
}

/// A table whose blocks all decode streams its entries without a fault.
pub proof fn lemma_entries_stream(t: TableView, entries: Seq<EntryView>)
    requires
        spec_table_entries(t.data, t.meta) == Ok::<Seq<EntryView>, HummockError>(entries),
    ensures
        table_stream(t) == (Stream { items: entries, fault: None }),
{
    lemma_stream_split(t, t.meta.index.len());
    reveal_with_fuel(table_stream_from, 2);
    assert(entries + Seq::<EntryView>::empty() =~= entries);
}

/// What a table builder hands out is an intact table with the entries that
/// went in.
pub proof fn lemma_built_table_intact(t: TableView, entries: Seq<EntryView>, bits_per_key: u32)
    requires
        spec_open_table(t.data) == Ok::<TableMetaView, HummockError>(t.meta),
        spec_table_entries(t.data, t.meta) == Ok::<Seq<EntryView>, HummockError>(entries),
        is_filter_of(t.meta.filter, entry_hashes(entries), bits_per_key),
    ensures
        table_intact(t),
        table_entries(t) == entries,
{
    lemma_entries_stream(t, entries);
    assert forall|i: int| 0 <= i < entries.len() implies spec_filter_may_contain(
        t.meta.filter,
        spec_user_key(#[trigger] entries[i].0),
    ) by {
        lemma_filter_admits_its_hashes(t.meta.filter, entry_hashes(entries), bits_per_key, i);
    }
}

/// The entries of the first `n` of `tables`, table after table.
pub open spec fn all_entries_upto(tables: Seq<TableView>, n: int) -> Seq<EntryView>
    decreases n,
{
    if n <= 0 {
        Seq::empty()
    } else {
        all_entries_upto(tables, n - 1) + table_entries(tables[n - 1])
    }
}

/// The entries of `tables`, table after table.
pub open spec fn all_entries(tables: Seq<TableView>) -> Seq<EntryView> {
    all_entries_upto(tables, tables.len() as int)
}

/// No two entries of the tables of a version carry the same full key.
pub open spec fn version_keys_distinct(v: VersionView) -> bool {
    forall|l: int, i: int, j: int, l2: int, i2: int, j2: int|
        0 <= l < v.levels.len() && 0 <= i < v.levels[l].len() && 0 <= j < table_entries(
            v.levels[l][i],
        ).len() && 0 <= l2 < v.levels.len() && 0 <= i2 < v.levels[l2].len() && 0 <= j2 < table_entries(
            v.levels[l2][i2],
        ).len() && (l != l2 || i != i2 || j != j2) ==> (#[trigger] table_entries(v.levels[l][i])[j]).0
            != (#[trigger] table_entries(v.levels[l2][i2])[j2]).0
}


} // verus!
