//! No two entries of a store carry the same full key: what a batch and a
//! compaction leave of that.

use vstd::prelude::*;
use crate::block::sorted_entries;
use crate::compaction_laws::{
    holds_entry, lemma_all_entries_hold, lemma_inputs_distinct, lemma_merged_strict,
    lemma_retained_first_seen, lemma_with_ids_places, lemma_without_ids_places, streams_distinct,
};
use crate::compactor::{other_spans, retained, Rules, spec_merge, task_inputs, with_ids};
use crate::intact::{
    all_entries, all_entries_upto, table_entries, table_intact, tables_intact, version_intact,
    version_keys_distinct,
};
use crate::key::{full_key_lt, lemma_full_key_lt_irreflexive};
use crate::merge_laws::{in_streams, lemma_merged_sorted, streams_ok};
use crate::merging::{merge_of, merged, rewind_sources};
use crate::table::{table_smallest_user_key, TableView};
use crate::table_iterator::Stream;
use crate::user_iterator::BoundView;
use crate::version::{NUM_LEVELS, version_tables, VersionView};
use crate::version_manager::{
    compacted, lemma_run_position, run_position_from, with_l0, with_run, without_ids,
};

verus! {

/// No two entries of the tables of a list carry the same full key.
pub open spec fn list_distinct(x: Seq<TableView>) -> bool {
    forall|i: int, j: int, i2: int, j2: int|
        0 <= i < x.len() && 0 <= j < table_entries(x[i]).len() && 0 <= i2 < x.len() && 0 <= j2
            < table_entries(x[i2]).len() && (i != i2 || j != j2) ==> (#[trigger] table_entries(x[i])[j]).0
            != (#[trigger] table_entries(x[i2])[j2]).0
}

/// No entry of a table of `x` carries the full key of an entry of a table of `y`.
pub open spec fn keys_apart(x: Seq<TableView>, y: Seq<TableView>) -> bool {
    forall|i: int, j: int, i2: int, j2: int|
        0 <= i < x.len() && 0 <= j < table_entries(x[i]).len() && 0 <= i2 < y.len() && 0 <= j2
            < table_entries(y[i2]).len() ==> (#[trigger] table_entries(x[i])[j]).0 != (
        #[trigger] table_entries(y[i2])[j2]).0
}

/// The table `t` stands before the table `t2` in `y`.
pub open spec fn in_order(y: Seq<TableView>, t: TableView, t2: TableView) -> bool {
    exists|m: int, m2: int| 0 <= m < m2 < y.len() && y[m] == t && y[m2] == t2
}

/// The tables of `x` are tables of `y`, in the order of `y`.
pub open spec fn sublist(x: Seq<TableView>, y: Seq<TableView>) -> bool {
    &&& forall|k: int| 0 <= k < x.len() ==> y.contains(#[trigger] x[k])
    &&& forall|k: int, k2: int| 0 <= k < k2 < x.len() ==> in_order(y, #[trigger] x[k], #[trigger] x[k2])
}

/// Every entry of a table of `x` is an entry of a table of `y`.
pub open spec fn entries_within(x: Seq<TableView>, y: Seq<TableView>) -> bool {
    forall|i: int, j: int|
        0 <= i < x.len() && 0 <= j < table_entries(x[i]).len() ==> holds_entry(
            y,
            #[trigger] table_entries(x[i])[j],
        )
}

/// A version shares no key when no level shares one within itself or with
/// another level.
pub proof fn lemma_distinct_by_levels(v: VersionView)
    ensures
        version_keys_distinct(v) <==> (forall|l: int|
            0 <= l < v.levels.len() ==> list_distinct(#[trigger] v.levels[l])) && (forall|l: int, l2: int|
            0 <= l < v.levels.len() && 0 <= l2 < v.levels.len() && l != l2 ==> keys_apart(
                #[trigger] v.levels[l],
                #[trigger] v.levels[l2],
            )),
{
    if version_keys_distinct(v) {
        assert forall|l: int| 0 <= l < v.levels.len() implies list_distinct(#[trigger] v.levels[l]) by {
            let x = v.levels[l];
            assert forall|i: int, j: int, i2: int, j2: int|
                0 <= i < x.len() && 0 <= j < table_entries(x[i]).len() && 0 <= i2 < x.len() && 0 <= j2
                    < table_entries(x[i2]).len() && (i != i2 || j != j2) implies (
            #[trigger] table_entries(x[i])[j]).0 != (#[trigger] table_entries(x[i2])[j2]).0 by {
                assert(table_entries(v.levels[l][i])[j].0 != table_entries(v.levels[l][i2])[j2].0);
            }
        }
        assert forall|l: int, l2: int|
            0 <= l < v.levels.len() && 0 <= l2 < v.levels.len() && l != l2 implies keys_apart(
            #[trigger] v.levels[l],
            #[trigger] v.levels[l2],
        ) by {
            let x = v.levels[l];
            let y = v.levels[l2];
            assert forall|i: int, j: int, i2: int, j2: int|
                0 <= i < x.len() && 0 <= j < table_entries(x[i]).len() && 0 <= i2 < y.len() && 0 <= j2
                    < table_entries(y[i2]).len() implies (#[trigger] table_entries(x[i])[j]).0 != (
            #[trigger] table_entries(y[i2])[j2]).0 by {
                assert(table_entries(v.levels[l][i])[j].0 != table_entries(v.levels[l2][i2])[j2].0);
            }
        }
    }
    if (forall|l: int| 0 <= l < v.levels.len() ==> list_distinct(#[trigger] v.levels[l])) && (forall|
        l: int,
        l2: int,
    |
        0 <= l < v.levels.len() && 0 <= l2 < v.levels.len() && l != l2 ==> keys_apart(
            #[trigger] v.levels[l],
            #[trigger] v.levels[l2],
        )) {
        assert forall|l: int, i: int, j: int, l2: int, i2: int, j2: int|
            0 <= l < v.levels.len() && 0 <= i < v.levels[l].len() && 0 <= j < table_entries(
                v.levels[l][i],
            ).len() && 0 <= l2 < v.levels.len() && 0 <= i2 < v.levels[l2].len() && 0 <= j2
                < table_entries(v.levels[l2][i2]).len() && (l != l2 || i != i2 || j != j2) implies (
        #[trigger] table_entries(v.levels[l][i])[j]).0 != (#[trigger] table_entries(
            v.levels[l2][i2],
        )[j2]).0 by {
            if l == l2 {
                assert(list_distinct(v.levels[l]));
            } else {
                assert(keys_apart(v.levels[l], v.levels[l2]));
            }
        }
    }
}

/// Tables in the order of a list that shares no key share no key.
pub proof fn lemma_sublist_distinct(x: Seq<TableView>, y: Seq<TableView>)
    requires
        sublist(x, y),
        list_distinct(y),
    ensures
        list_distinct(x),
{
    assert forall|i: int, j: int, i2: int, j2: int|
        0 <= i < x.len() && 0 <= j < table_entries(x[i]).len() && 0 <= i2 < x.len() && 0 <= j2
            < table_entries(x[i2]).len() && (i != i2 || j != j2) implies (#[trigger] table_entries(x[i])[j]).0
        != (#[trigger] table_entries(x[i2])[j2]).0 by {
        if i == i2 {
            let m = choose|m: int| 0 <= m < y.len() && y[m] == x[i];
            assert(table_entries(y[m])[j].0 != table_entries(y[m])[j2].0);
        } else if i < i2 {
            let (m, m2) = choose|m: int, m2: int| 0 <= m < m2 < y.len() && y[m] == x[i] && y[m2] == x[i2];
            assert(table_entries(y[m])[j].0 != table_entries(y[m2])[j2].0);
        } else {
            let (m2, m) = choose|m2: int, m: int| 0 <= m2 < m < y.len() && y[m2] == x[i2] && y[m] == x[i];
            assert(table_entries(y[m])[j].0 != table_entries(y[m2])[j2].0);
        }
    }
}

/// What is apart from a list is apart from the entries within it.
pub proof fn lemma_within_apart(x: Seq<TableView>, y: Seq<TableView>, z: Seq<TableView>)
    requires
        entries_within(x, y),
        keys_apart(y, z),
    ensures
        keys_apart(x, z),
        keys_apart(z, x),
{
    assert forall|i: int, j: int, i2: int, j2: int|
        0 <= i < x.len() && 0 <= j < table_entries(x[i]).len() && 0 <= i2 < z.len() && 0 <= j2
            < table_entries(z[i2]).len() implies (#[trigger] table_entries(x[i])[j]).0 != (
    #[trigger] table_entries(z[i2])[j2]).0 by {
        assert(holds_entry(y, table_entries(x[i])[j]));
        let (a, b) = choose|a: int, b: int|
            0 <= a < y.len() && 0 <= b < table_entries(y[a]).len() && #[trigger] table_entries(y[a])[b]
                == table_entries(x[i])[j];
        assert(table_entries(y[a])[b].0 != table_entries(z[i2])[j2].0);
    }
    assert forall|i2: int, j2: int, i: int, j: int|
        0 <= i2 < z.len() && 0 <= j2 < table_entries(z[i2]).len() && 0 <= i < x.len() && 0 <= j
            < table_entries(x[i]).len() implies (#[trigger] table_entries(z[i2])[j2]).0 != (
    #[trigger] table_entries(x[i])[j]).0 by {
        assert(table_entries(x[i])[j].0 != table_entries(z[i2])[j2].0);
    }
}

/// The tables of a list are within the list.
pub proof fn lemma_sublist_within(x: Seq<TableView>, y: Seq<TableView>)
    requires
        sublist(x, y),
    ensures
        entries_within(x, y),
{
    assert forall|i: int, j: int| 0 <= i < x.len() && 0 <= j < table_entries(x[i]).len() implies holds_entry(
        y,
        #[trigger] table_entries(x[i])[j],
    ) by {
        let m = choose|m: int| 0 <= m < y.len() && y[m] == x[i];
        assert(table_entries(y[m])[j] == table_entries(x[i])[j]);
    }
}

/// Where the entries of a list begin among all entries of the list.
pub proof fn lemma_entry_place(tables: Seq<TableView>, n: int, k: int, j: int)
    requires
        0 <= k < n <= tables.len(),
        0 <= j < table_entries(tables[k]).len(),
    ensures
        all_entries_upto(tables, k).len() + j < all_entries_upto(tables, k + 1).len()
            <= all_entries_upto(tables, n).len(),
        all_entries_upto(tables, n)[all_entries_upto(tables, k).len() + j] == table_entries(tables[k])[j],
    decreases n,
{
    if k < n - 1 {
        lemma_entry_place(tables, n - 1, k, j);
    }
}

/// Tables whose entries, one table after the other, stand in strictly
/// increasing key order share no key.
pub proof fn lemma_sorted_list_distinct(x: Seq<TableView>)
    requires
        sorted_entries(all_entries(x)),
    ensures
        list_distinct(x),
{
    let all = all_entries(x);
    assert forall|i: int, j: int, i2: int, j2: int|
        0 <= i < x.len() && 0 <= j < table_entries(x[i]).len() && 0 <= i2 < x.len() && 0 <= j2
            < table_entries(x[i2]).len() && (i != i2 || j != j2) implies (#[trigger] table_entries(x[i])[j]).0
        != (#[trigger] table_entries(x[i2])[j2]).0 by {
        lemma_entry_place(x, x.len() as int, i, j);
        lemma_entry_place(x, x.len() as int, i2, j2);
        let p = all_entries_upto(x, i).len() + j;
        let q = all_entries_upto(x, i2).len() + j2;
        if i < i2 {
            lemma_entry_place(x, i2, i, j);
        } else if i2 < i {
            lemma_entry_place(x, i, i2, j2);
        }
        lemma_full_key_lt_irreflexive(all[p].0);
        if p < q {
            assert(full_key_lt(all[p].0, all[q].0));
        } else {
            assert(full_key_lt(all[q].0, all[p].0));
        }
    }
}

/// A level with a run shares no key where level and run share none within
/// or with each other; and what is apart from both is apart from it.
pub proof fn lemma_with_run_distinct(level: Seq<TableView>, run: Seq<TableView>)
    requires
        list_distinct(level),
        list_distinct(run),
        keys_apart(level, run),
    ensures
        list_distinct(with_run(level, run)),
{
    let w = with_run(level, run);
    if run.len() > 0 {
        let first = table_smallest_user_key(run[0]);
        lemma_run_position(level, first, 0);
        let p = run_position_from(level, first, 0);
        let n = run.len() as int;
        assert forall|i: int, j: int, i2: int, j2: int|
            0 <= i < w.len() && 0 <= j < table_entries(w[i]).len() && 0 <= i2 < w.len() && 0 <= j2
                < table_entries(w[i2]).len() && (i != i2 || j != j2) implies (
        #[trigger] table_entries(w[i])[j]).0 != (#[trigger] table_entries(w[i2])[j2]).0 by {
            let in_run = p <= i < p + n;
            let in_run2 = p <= i2 < p + n;
            let a = if i < p {
                i
            } else if in_run {
                i - p
            } else {
                i - n
            };
            let a2 = if i2 < p {
                i2
            } else if in_run2 {
                i2 - p
            } else {
                i2 - n
            };
            if in_run {
                assert(w[i] == run[a]);
            } else {
                assert(w[i] == level[a]);
            }
            if in_run2 {
                assert(w[i2] == run[a2]);
            } else {
                assert(w[i2] == level[a2]);
            }
            if in_run && in_run2 {
                assert(table_entries(run[a])[j].0 != table_entries(run[a2])[j2].0);
            } else if !in_run && !in_run2 {
                assert(table_entries(level[a])[j].0 != table_entries(level[a2])[j2].0);
            } else if in_run {
                assert(table_entries(level[a2])[j2].0 != table_entries(run[a])[j].0);
            } else {
                assert(table_entries(level[a])[j].0 != table_entries(run[a2])[j2].0);
            }
        }
    }
}

/// What is apart from a level and from a run is apart from the level with the run.
pub proof fn lemma_with_run_apart(level: Seq<TableView>, run: Seq<TableView>, z: Seq<TableView>)
    requires
        keys_apart(level, z),
        keys_apart(run, z),
    ensures
        keys_apart(with_run(level, run), z),
        keys_apart(z, with_run(level, run)),
{
    let w = with_run(level, run);
    crate::version_manager::lemma_with_run_subset(level, run);
    assert forall|i: int, j: int, i2: int, j2: int|
        0 <= i < w.len() && 0 <= j < table_entries(w[i]).len() && 0 <= i2 < z.len() && 0 <= j2
            < table_entries(z[i2]).len() implies (#[trigger] table_entries(w[i])[j]).0 != (
    #[trigger] table_entries(z[i2])[j2]).0 by {
        assert(level.contains(w[i]) || run.contains(w[i]));
        if level.contains(w[i]) {
            let a = choose|a: int| 0 <= a < level.len() && level[a] == w[i];
            assert(table_entries(level[a])[j].0 != table_entries(z[i2])[j2].0);
        } else {
            let a = choose|a: int| 0 <= a < run.len() && run[a] == w[i];
            assert(table_entries(run[a])[j].0 != table_entries(z[i2])[j2].0);
        }
    }
    assert forall|i2: int, j2: int, i: int, j: int|
        0 <= i2 < z.len() && 0 <= j2 < table_entries(z[i2]).len() && 0 <= i < w.len() && 0 <= j
            < table_entries(w[i]).len() implies (#[trigger] table_entries(z[i2])[j2]).0 != (
    #[trigger] table_entries(w[i])[j]).0 by {
        assert(table_entries(w[i])[j].0 != table_entries(z[i2])[j2].0);
    }
}

/// Keys apart one way are apart the other way.
pub proof fn lemma_apart_symmetric(x: Seq<TableView>, y: Seq<TableView>)
    requires
        keys_apart(x, y),
    ensures
        keys_apart(y, x),
{
    assert forall|i2: int, j2: int, i: int, j: int|
        0 <= i2 < y.len() && 0 <= j2 < table_entries(y[i2]).len() && 0 <= i < x.len() && 0 <= j
            < table_entries(x[i]).len() implies (#[trigger] table_entries(y[i2])[j2]).0 != (
    #[trigger] table_entries(x[i])[j]).0 by {
        assert(table_entries(x[i])[j].0 != table_entries(y[i2])[j2].0);
    }
}

/// The tables picked from a level that shares no key are apart from the
/// tables left of it.
pub proof fn lemma_picked_apart(level: Seq<TableView>, ids: Seq<u64>)
    requires
        list_distinct(level),
    ensures
        keys_apart(with_ids(level, ids), without_ids(level, ids)),
        sublist(with_ids(level, ids), level),
        sublist(without_ids(level, ids), level),
{
    let x = with_ids(level, ids);
    let y = without_ids(level, ids);
    let n = level.len() as int;
    lemma_with_ids_places(level, ids, n);
    lemma_without_ids_places(level, ids, n);
    assert(sublist(x, level)) by {
        let w = crate::compactor::with_ids_upto(level, ids, n);
        assert forall|k: int| 0 <= k < x.len() implies level.contains(#[trigger] x[k]) by {
            let m = choose|m: int| 0 <= m < n && level[m] == w[k];
            assert(0 <= m < level.len() && level[m] == x[k]);
        }
        assert forall|k: int, k2: int| 0 <= k < k2 < x.len() implies in_order(
            level,
            #[trigger] x[k],
            #[trigger] x[k2],
        ) by {
            let (m, m2) = choose|m: int, m2: int| 0 <= m < m2 < n && level[m] == w[k] && level[m2] == w[k2];
            assert(0 <= m < m2 < level.len() && level[m] == x[k] && level[m2] == x[k2]);
        }
    }
    assert(sublist(y, level)) by {
        let w = crate::version_manager::without_ids_upto(level, ids, n);
        assert forall|k: int| 0 <= k < y.len() implies level.contains(#[trigger] y[k]) by {
            let m = choose|m: int| 0 <= m < n && level[m] == w[k];
            assert(0 <= m < level.len() && level[m] == y[k]);
        }
        assert forall|k: int, k2: int| 0 <= k < k2 < y.len() implies in_order(
            level,
            #[trigger] y[k],
            #[trigger] y[k2],
        ) by {
            let (m, m2) = choose|m: int, m2: int| 0 <= m < m2 < n && level[m] == w[k] && level[m2] == w[k2];
            assert(0 <= m < m2 < level.len() && level[m] == y[k] && level[m2] == y[k2]);
        }
    }
    assert forall|i: int, j: int, i2: int, j2: int|
        0 <= i < x.len() && 0 <= j < table_entries(x[i]).len() && 0 <= i2 < y.len() && 0 <= j2
            < table_entries(y[i2]).len() implies (#[trigger] table_entries(x[i])[j]).0 != (
    #[trigger] table_entries(y[i2])[j2]).0 by {
        let m = choose|m: int| 0 <= m < level.len() && level[m] == x[i];
        let m2 = choose|m2: int| 0 <= m2 < level.len() && level[m2] == y[i2];
        assert(ids.contains(x[i].id));
        assert(!ids.contains(y[i2].id));
        assert(table_entries(level[m])[j].0 != table_entries(level[m2])[j2].0);
    }
}

/// What is apart from a list is apart from tables in its order.
pub proof fn lemma_sublist_apart(x: Seq<TableView>, y: Seq<TableView>, z: Seq<TableView>)
    requires
        sublist(x, y),
        keys_apart(y, z),
    ensures
        keys_apart(x, z),
        keys_apart(z, x),
{
    lemma_sublist_within(x, y);
    lemma_within_apart(x, y, z);
}

/// What is apart from two lists is apart from the one behind the other.
pub proof fn lemma_concat_apart(x: Seq<TableView>, y: Seq<TableView>, z: Seq<TableView>)
    requires
        keys_apart(x, z),
        keys_apart(y, z),
    ensures
        keys_apart(x + y, z),
{
    let w = x + y;
    assert forall|i: int, j: int, i2: int, j2: int|
        0 <= i < w.len() && 0 <= j < table_entries(w[i]).len() && 0 <= i2 < z.len() && 0 <= j2
            < table_entries(z[i2]).len() implies (#[trigger] table_entries(w[i])[j]).0 != (
    #[trigger] table_entries(z[i2])[j2]).0 by {
        if i < x.len() {
            assert(w[i] == x[i]);
            assert(table_entries(x[i])[j].0 != table_entries(z[i2])[j2].0);
        } else {
            assert(w[i] == y[i - x.len()]);
            assert(table_entries(y[i - x.len()])[j].0 != table_entries(z[i2])[j2].0);
        }
    }
}

/// A new table in front of level 0 whose keys are new leaves a version
/// without equal keys.
pub proof fn lemma_with_l0_distinct(v: VersionView, version_id: u64, t: TableView)
    requires
        version_keys_distinct(v),
        v.levels.len() >= 1,
        sorted_entries(table_entries(t)),
        forall|l: int| 0 <= l < v.levels.len() ==> keys_apart(seq![t], #[trigger] v.levels[l]),
    ensures
        version_keys_distinct(with_l0(v, version_id, t)),
{
    let w = with_l0(v, version_id, t);
    lemma_distinct_by_levels(v);
    lemma_distinct_by_levels(w);
    let one = seq![t];
    let l0 = v.levels[0];
    let n0 = w.levels[0];
    assert(n0 == one + l0);
    assert(list_distinct(l0));
    assert(keys_apart(one, l0));
    assert(list_distinct(n0)) by {
        assert forall|i: int, j: int, i2: int, j2: int|
            0 <= i < n0.len() && 0 <= j < table_entries(n0[i]).len() && 0 <= i2 < n0.len() && 0 <= j2
                < table_entries(n0[i2]).len() && (i != i2 || j != j2) implies (
        #[trigger] table_entries(n0[i])[j]).0 != (#[trigger] table_entries(n0[i2])[j2]).0 by {
            let es = table_entries(t);
            if i == 0 && i2 == 0 {
                lemma_full_key_lt_irreflexive(es[j].0);
                if j < j2 {
                    assert(full_key_lt(es[j].0, es[j2].0));
                } else {
                    assert(full_key_lt(es[j2].0, es[j].0));
                }
            } else if i == 0 {
                assert(n0[i2] == l0[i2 - 1]);
                assert(table_entries(one[0])[j].0 != table_entries(l0[i2 - 1])[j2].0);
            } else if i2 == 0 {
                assert(n0[i] == l0[i - 1]);
                assert(table_entries(one[0])[j2].0 != table_entries(l0[i - 1])[j].0);
            } else {
                assert(n0[i] == l0[i - 1] && n0[i2] == l0[i2 - 1]);
                assert(table_entries(l0[i - 1])[j].0 != table_entries(l0[i2 - 1])[j2].0);
            }
        }
    }
    assert forall|l: int| 0 <= l < w.levels.len() implies list_distinct(#[trigger] w.levels[l]) by {
        if l > 0 {
            assert(w.levels[l] == v.levels[l]);
            assert(list_distinct(v.levels[l]));
        }
    }
    assert forall|l: int, l2: int|
        0 <= l < w.levels.len() && 0 <= l2 < w.levels.len() && l != l2 implies keys_apart(
        #[trigger] w.levels[l],
        #[trigger] w.levels[l2],
    ) by {
        if l == 0 {
            assert(w.levels[l2] == v.levels[l2]);
            assert(keys_apart(one, v.levels[l2]));
            assert(keys_apart(l0, v.levels[l2]));
            lemma_concat_apart(one, l0, v.levels[l2]);
        } else if l2 == 0 {
            assert(w.levels[l] == v.levels[l]);
            assert(keys_apart(one, v.levels[l]));
            assert(keys_apart(l0, v.levels[l]));
            lemma_concat_apart(one, l0, v.levels[l]);
            lemma_apart_symmetric(one + l0, v.levels[l]);
        } else {
            assert(w.levels[l] == v.levels[l] && w.levels[l2] == v.levels[l2]);
            assert(keys_apart(v.levels[l], v.levels[l2]));
        }
    }
}

/// A compaction leaves a version without equal keys as one.
pub proof fn lemma_compaction_distinct(
    before: VersionView,
    version_id: u64,
    source: int,
    source_ids: Seq<u64>,
    target_ids: Seq<u64>,
    outputs: Seq<TableView>,
    mark: u64,
    bound: u64,
)
    requires
        version_intact(before),
        version_keys_distinct(before),
        0 <= source,
        source + 1 < NUM_LEVELS,
        tables_intact(outputs),
        (Stream { items: all_entries(outputs), fault: None }) == spec_merge(
            task_inputs(before, source, source_ids, target_ids),
            Rules {
                watermark: mark,
                others: other_spans(before, source, source_ids, target_ids),
                epoch_bound: bound, lowest: source + 2 == NUM_LEVELS
            },
        ),
    ensures
        version_keys_distinct(compacted(before, version_id, source, source_ids, target_ids, outputs)),
{
    let after = compacted(before, version_id, source, source_ids, target_ids, outputs);
    let inputs = task_inputs(before, source, source_ids, target_ids);
    let rules = Rules {
        watermark: mark,
        others: other_spans(before, source, source_ids, target_ids),
        epoch_bound: bound, lowest: source + 2 == NUM_LEVELS
    };
    let ls = before.levels[source];
    let lt = before.levels[source + 1];
    let ps = with_ids(ls, source_ids);
    let pt = with_ids(lt, target_ids);
    let os = without_ids(ls, source_ids);
    let ot = without_ids(lt, target_ids);
    lemma_distinct_by_levels(before);
    lemma_distinct_by_levels(after);
    assert(list_distinct(ls) && list_distinct(lt));
    assert(keys_apart(ls, lt) && keys_apart(lt, ls));
    lemma_picked_apart(ls, source_ids);
    lemma_picked_apart(lt, target_ids);
    lemma_sublist_distinct(os, ls);
    lemma_sublist_distinct(ot, lt);
    // The inputs are intact, and their merge is in strictly increasing key order.
    crate::compaction_laws::lemma_compaction_tables(
        before,
        version_id,
        source,
        source_ids,
        target_ids,
        outputs,
    );
    let ta = version_tables(before);
    assert(tables_intact(inputs)) by {
        assert forall|i: int| 0 <= i < inputs.len() implies table_intact(#[trigger] inputs[i]) by {
            assert(inputs.contains(inputs[i]));
            assert(ta.contains(inputs[i]));
            let k = choose|k: int| 0 <= k < ta.len() && ta[k] == inputs[i];
            assert(table_intact(ta[k]));
        }
    }
    let start = BoundView::Unbounded;
    let streams = crate::merging::landed(crate::scan_laws::scan_sources(inputs, start));
    crate::scan_laws::lemma_scan_sources(inputs, start, inputs.len() as int);
    crate::scan_laws::lemma_scan_source(inputs, start);
    lemma_inputs_distinct(before, source, source_ids, target_ids);
    assert(streams_ok(streams));
    assert forall|i: int| 0 <= i < streams.len() implies (#[trigger] streams[i]).items == table_entries(
        inputs[i],
    ) by {
        assert(table_entries(inputs[i]).skip(0) =~= table_entries(inputs[i]));
    }
    assert(streams_distinct(streams)) by {
        assert forall|i: int, j: int, i2: int, j2: int|
            0 <= i < streams.len() && 0 <= j < streams[i].items.len() && 0 <= i2 < streams.len() && 0
                <= j2 < streams[i2].items.len() && (i != i2 || j != j2) implies (
        #[trigger] streams[i].items[j]).0 != (#[trigger] streams[i2].items[j2]).0 by {
            assert(streams[i].items[j] == table_entries(inputs[i])[j]);
            assert(streams[i2].items[j2] == table_entries(inputs[i2])[j2]);
        }
    }
    let m = merge_of(rewind_sources(inputs));
    assert(m == merged(streams));
    lemma_merged_strict(streams);
    lemma_merged_sorted(streams);
    let kept = retained(m.items, None, rules, None, None);
    assert(kept == spec_merge(inputs, rules));
    lemma_retained_first_seen(m.items, rules, None, None, Seq::empty(), mark);
    lemma_sorted_list_distinct(outputs);
    // The entries of the outputs are entries of the inputs.
    assert(entries_within(outputs, inputs)) by {
        lemma_all_entries_hold(outputs, outputs.len() as int);
        assert forall|i: int, j: int|
            0 <= i < outputs.len() && 0 <= j < table_entries(outputs[i]).len() implies holds_entry(
            inputs,
            #[trigger] table_entries(outputs[i])[j],
        ) by {
            let x = table_entries(outputs[i])[j];
            assert(all_entries(outputs).contains(x));
            let w = choose|w: int| 0 <= w < kept.items.len() && kept.items[w] == x;
            assert(m.items.contains(kept.items[w]));
            let z = choose|z: int| 0 <= z < m.items.len() && m.items[z] == x;
            assert(in_streams(streams, m.items[z]));
            let (a, b) = choose|a: int, b: int|
                0 <= a < streams.len() && 0 <= b < streams[a].items.len() && #[trigger] streams[a].items[b]
                    == x;
            assert(table_entries(inputs[a])[b] == x);
        }
    }
    // The inputs are apart from what stays in their levels and from the other levels.
    lemma_sublist_apart(pt, lt, ls);
    lemma_sublist_apart(os, ls, pt);
    lemma_sublist_apart(ps, ls, lt);
    lemma_sublist_apart(ot, lt, ps);
    lemma_apart_symmetric(pt, ot);
    lemma_apart_symmetric(ps, os);
    assert(inputs == ps + pt);
    lemma_concat_apart(ps, pt, os);
    lemma_concat_apart(ps, pt, ot);
    lemma_within_apart(outputs, inputs, os);
    lemma_within_apart(outputs, inputs, ot);
    lemma_with_run_distinct(ot, outputs);
    lemma_sublist_apart(ot, lt, ls);
    lemma_sublist_apart(os, ls, ot);
    lemma_with_run_apart(ot, outputs, os);
    assert(after.levels[source] == os);
    assert(after.levels[source + 1] == with_run(ot, outputs));
    assert forall|l: int| 0 <= l < after.levels.len() implies list_distinct(#[trigger] after.levels[l]) by {
        if l != source && l != source + 1 {
            assert(after.levels[l] == before.levels[l]);
            assert(list_distinct(before.levels[l]));
        }
    }
    assert forall|l: int, l2: int|
        0 <= l < after.levels.len() && 0 <= l2 < after.levels.len() && l != l2 implies keys_apart(
        #[trigger] after.levels[l],
        #[trigger] after.levels[l2],
    ) by {
        let is_st = |x: int| x == source || x == source + 1;
        if !is_st(l) && !is_st(l2) {
            assert(after.levels[l] == before.levels[l] && after.levels[l2] == before.levels[l2]);
            assert(keys_apart(before.levels[l], before.levels[l2]));
        } else if is_st(l) && is_st(l2) {
        } else {
            // One of the two levels took part in the compaction, the other did not.
            let z = if is_st(l) {
                before.levels[l2]
            } else {
                before.levels[l]
            };
            let o = if is_st(l) {
                l2
            } else {
                l
            };
            assert(after.levels[o] == z);
            assert(keys_apart(ls, z) && keys_apart(lt, z));
            lemma_sublist_apart(os, ls, z);
            lemma_sublist_apart(ot, lt, z);
            lemma_sublist_apart(ps, ls, z);
            lemma_sublist_apart(pt, lt, z);
            lemma_concat_apart(ps, pt, z);
            lemma_within_apart(outputs, inputs, z);
            lemma_with_run_apart(ot, outputs, z);
        }
    }
}

} // verus!
