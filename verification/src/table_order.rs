//! The order of the entries of an intact table, and where a seek lands in them.

use vstd::prelude::*;
use crate::block::{
    EntryView, keys_valid, lemma_decoded_block, lemma_lower_bound_is, lemma_lower_bound_props,
    lower_bound, sorted_entries,
};
use crate::intact::{lemma_stream_split, table_entries, table_intact};
use crate::key::{
    full_key_lt, lemma_full_key_lt_asymmetric, lemma_full_key_lt_total,
    lemma_full_key_lt_transitive, valid_full_key,
};
use crate::table::{
    block_lower_bound, lemma_block_lower_bound_props, lemma_opened_table, spec_block_entries,
    spec_table_entries_upto, table_wf, TableView,
};
use crate::table_iterator::{table_seek_stream, table_stream, table_stream_from};

verus! {

/// `a` does not sort behind `b`, and `b` sorts before `c`: then `a` sorts before `c`.
pub proof fn lemma_le_lt(a: Seq<u8>, b: Seq<u8>, c: Seq<u8>)
    requires
        a.len() >= 8,
        b.len() >= 8,
        !full_key_lt(b, a),
        full_key_lt(b, c),
    ensures
        full_key_lt(a, c),
{
    lemma_full_key_lt_total(a, b);
    if a != b {
        lemma_full_key_lt_transitive(a, b, c);
    }
}

/// `a` sorts before `b`, and `c` does not sort before `b`: then `a` sorts before `c`.
pub proof fn lemma_lt_le(a: Seq<u8>, b: Seq<u8>, c: Seq<u8>)
    requires
        b.len() >= 8,
        c.len() >= 8,
        full_key_lt(a, b),
        !full_key_lt(c, b),
    ensures
        full_key_lt(a, c),
{
    lemma_full_key_lt_total(b, c);
    if b != c {
        lemma_full_key_lt_transitive(a, b, c);
    }
}

/// In a table whose stream meets no fault from block `b` on, every block
/// from `b` on decodes.
pub proof fn lemma_blocks_decode(t: TableView, b: int, k: int)
    requires
        0 <= b <= k < t.meta.index.len(),
        table_stream_from(t, b).fault is None,
    ensures
        spec_block_entries(t.data, t.meta, k) is Ok,
        table_stream_from(t, k).fault is None,
        table_stream_from(t, k + 1).fault is None,
    decreases k - b,
{
    reveal_with_fuel(table_stream_from, 2);
    if b < k {
        lemma_blocks_decode(t, b + 1, k);
    }
}

/// The first blocks of an intact table decode together.
pub proof fn lemma_prefix_decodes(t: TableView, k: nat)
    requires
        table_stream(t).fault is None,
        k <= t.meta.index.len(),
    ensures
        spec_table_entries_upto(t.data, t.meta, k) is Ok,
    decreases k,
{
    if k > 0 {
        lemma_prefix_decodes(t, (k - 1) as nat);
        lemma_blocks_decode(t, 0, k - 1);
    }
}

/// What holds of the stream of a well-formed table from block `b` on, where
/// it meets no fault: the keys are well formed and increase strictly, and
/// all of them sort behind the last key of the block before `b`.
pub proof fn lemma_stream_sorted(t: TableView, b: int)
    requires
        table_wf(t),
        0 <= b <= t.meta.index.len(),
        table_stream_from(t, b).fault is None,
    ensures
        keys_valid(table_stream_from(t, b).items),
        sorted_entries(table_stream_from(t, b).items),
        b > 0 ==> forall|i: int|
            0 <= i < table_stream_from(t, b).items.len() ==> full_key_lt(
                t.meta.index[b - 1].last_key,
                #[trigger] table_stream_from(t, b).items[i].0,
            ),
    decreases t.meta.index.len() - b,
{
    reveal_with_fuel(table_stream_from, 2);
    let idx = t.meta.index;
    let items = table_stream_from(t, b).items;
    if b < idx.len() {
        lemma_blocks_decode(t, b, b);
        lemma_stream_sorted(t, b + 1);
        lemma_opened_table(t.data, t.meta);
        let es = spec_block_entries(t.data, t.meta, b).unwrap();
        let rest = table_stream_from(t, b + 1).items;
        let h = idx[b];
        lemma_decoded_block(t.data.subrange(h.offset, h.offset + h.len), t.meta.alg);
        assert(items == es + rest);
        assert(valid_full_key(idx[b].last_key));
        assert forall|i: int| 0 <= i < items.len() implies valid_full_key(#[trigger] items[i].0) by {
            if i < es.len() {
                assert(items[i] == es[i]);
            } else {
                assert(items[i] == rest[i - es.len()]);
            }
        }
        assert forall|i: int, j: int| 0 <= i < j < items.len() implies full_key_lt(
            #[trigger] items[i].0,
            #[trigger] items[j].0,
        ) by {
            if j < es.len() {
                assert(items[i] == es[i] && items[j] == es[j]);
            } else if i >= es.len() {
                assert(items[i] == rest[i - es.len()] && items[j] == rest[j - es.len()]);
            } else {
                assert(items[i] == es[i] && items[j] == rest[j - es.len()]);
                assert(full_key_lt(idx[b].last_key, rest[j - es.len()].0));
                assert(es[es.len() - 1].0 == idx[b].last_key);
                if i < es.len() - 1 {
                    assert(full_key_lt(es[i].0, es[es.len() - 1].0));
                    lemma_full_key_lt_transitive(es[i].0, idx[b].last_key, rest[j - es.len()].0);
                }
            }
        }
        if b > 0 {
            assert(valid_full_key(idx[b - 1].last_key));
            assert forall|i: int| 0 <= i < items.len() implies full_key_lt(
                idx[b - 1].last_key,
                #[trigger] items[i].0,
            ) by {
                assert(items[0] == es[0]);
                assert(full_key_lt(idx[b - 1].last_key, es[0].0));
                if i > 0 {
                    assert(full_key_lt(items[0].0, items[i].0));
                    lemma_full_key_lt_transitive(idx[b - 1].last_key, items[0].0, items[i].0);
                }
            }
        }
    }
}

/// The entries of an intact table are well formed and increase strictly.
pub proof fn lemma_intact_sorted(t: TableView)
    requires
        table_intact(t),
    ensures
        keys_valid(table_entries(t)),
        sorted_entries(table_entries(t)),
{
    lemma_stream_sorted(t, 0);
}

/// No entry of the first `k` blocks of a table sorts behind the last key of
/// block `k - 1`, and all of them are well formed.
pub proof fn lemma_prefix_bounded(t: TableView, k: nat)
    requires
        table_wf(t),
        table_stream(t).fault is None,
        1 <= k <= t.meta.index.len(),
    ensures
        spec_table_entries_upto(t.data, t.meta, k) is Ok,
        forall|i: int|
            0 <= i < spec_table_entries_upto(t.data, t.meta, k).unwrap().len() ==> !full_key_lt(
                t.meta.index[k - 1].last_key,
                #[trigger] spec_table_entries_upto(t.data, t.meta, k).unwrap()[i].0,
            ) && valid_full_key(spec_table_entries_upto(t.data, t.meta, k).unwrap()[i].0),
    decreases k,
{
    lemma_prefix_decodes(t, k);
    lemma_prefix_decodes(t, (k - 1) as nat);
    lemma_blocks_decode(t, 0, k - 1);
    lemma_opened_table(t.data, t.meta);
    let idx = t.meta.index;
    let es = spec_block_entries(t.data, t.meta, k - 1).unwrap();
    let h = idx[k - 1];
    lemma_decoded_block(t.data.subrange(h.offset, h.offset + h.len), t.meta.alg);
    let before = spec_table_entries_upto(t.data, t.meta, (k - 1) as nat).unwrap();
    let all = spec_table_entries_upto(t.data, t.meta, k).unwrap();
    assert(all == before + es);
    assert(valid_full_key(idx[k - 1].last_key));
    if k > 1 {
        lemma_prefix_bounded(t, (k - 1) as nat);
        assert(valid_full_key(idx[k - 2].last_key));
        assert(full_key_lt(idx[k - 2].last_key, idx[k - 1].last_key));
    }
    assert forall|i: int| 0 <= i < all.len() implies !full_key_lt(idx[k - 1].last_key, #[trigger] all[i].0)
        && valid_full_key(all[i].0) by {
        if i < before.len() {
            assert(all[i] == before[i]);
            lemma_le_lt(before[i].0, idx[k - 2].last_key, idx[k - 1].last_key);
            lemma_full_key_lt_asymmetric(before[i].0, idx[k - 1].last_key);
        } else {
            let j = i - before.len();
            assert(all[i] == es[j]);
            assert(es[es.len() - 1].0 == idx[k - 1].last_key);
            if j < es.len() - 1 {
                assert(full_key_lt(es[j].0, es[es.len() - 1].0));
                lemma_full_key_lt_asymmetric(es[j].0, idx[k - 1].last_key);
            } else {
                crate::key::lemma_full_key_lt_irreflexive(es[j].0);
            }
        }
    }
}

/// A seek in an intact table lands at the first entry that does not sort
/// before the target, and meets no fault.
pub proof fn lemma_seek_lands(t: TableView, target: Seq<u8>)
    requires
        table_intact(t),
        target.len() >= 8,
    ensures
        table_seek_stream(t, target).fault is None,
        table_seek_stream(t, target).items == table_entries(t).skip(
            lower_bound(table_entries(t), target),
        ),
{
    reveal(table_seek_stream);
    let idx = t.meta.index;
    let entries = table_entries(t);
    let b = block_lower_bound(idx, target);
    lemma_block_lower_bound_props(idx, target, 0);
    lemma_opened_table(t.data, t.meta);
    lemma_intact_sorted(t);
    if b >= idx.len() {
        // Every last key sorts before the target, and so does every entry.
        let m = idx.len();
        lemma_prefix_bounded(t, m);
        lemma_stream_split(t, m);
        reveal_with_fuel(table_stream_from, 2);
        let all = spec_table_entries_upto(t.data, t.meta, m).unwrap();
        assert(entries =~= all);
        assert(full_key_lt(idx[m - 1].last_key, target));
        assert forall|i: int| 0 <= i < entries.len() implies full_key_lt(#[trigger] entries[i].0, target) by {
            assert(valid_full_key(idx[m - 1].last_key));
            lemma_le_lt(entries[i].0, idx[m - 1].last_key, target);
        }
        lemma_lower_bound_is(entries, target, 0, entries.len() as int);
        assert(entries.skip(entries.len() as int) =~= Seq::<EntryView>::empty());
    } else {
        lemma_blocks_decode(t, 0, b);
        lemma_prefix_decodes(t, b as nat);
        lemma_stream_split(t, b as nat);
        reveal_with_fuel(table_stream_from, 2);
        let before = spec_table_entries_upto(t.data, t.meta, b as nat).unwrap();
        let es = spec_block_entries(t.data, t.meta, b).unwrap();
        let rest = table_stream_from(t, b + 1).items;
        let h = idx[b];
        lemma_decoded_block(t.data.subrange(h.offset, h.offset + h.len), t.meta.alg);
        lemma_lower_bound_props(es, target, 0);
        let lb = lower_bound(es, target);
        assert(entries == before + (es + rest));
        assert(es[es.len() - 1].0 == idx[b].last_key);
        if lb == es.len() {
            assert(full_key_lt(es[es.len() - 1].0, target));
        }
        if b > 0 {
            lemma_prefix_bounded(t, b as nat);
            assert(full_key_lt(idx[b - 1].last_key, target));
            assert(valid_full_key(idx[b - 1].last_key));
        }
        let at = before.len() + lb;
        assert forall|i: int| 0 <= i < at implies full_key_lt(#[trigger] entries[i].0, target) by {
            if i < before.len() {
                assert(entries[i] == before[i]);
                lemma_le_lt(before[i].0, idx[b - 1].last_key, target);
            } else {
                assert(entries[i] == es[i - before.len()]);
            }
        }
        assert(entries[at] == es[lb]);
        lemma_lower_bound_is(entries, target, 0, at);
        assert(entries.skip(at) =~= es.skip(lb) + rest);
    }
}

} // verus!
