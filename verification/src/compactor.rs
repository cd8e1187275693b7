//! Merging tables: the entries of the input tables in key order, without
//! those that no reader can see any more, as new tables.

use vstd::prelude::*;
use crate::block::{EntryView, MAX_KEY_LEN};
use crate::bloom::is_filter_of;
use crate::builder::{
    entry_hashes, estimated, MAX_SURE_ENTRIES, short_keys, SHORT_KEY_LEN, table_has_room,
    TableBuilder, TableBuilderOptions,
};
use crate::coding::{bytes_eq, clone_bytes, compare_bytes, KeyOrder, lex_lt};
use crate::error::HummockError;
use crate::key::{
    epoch_of, full_key_less, full_key_lt, spec_epoch_of, spec_user_key, user_key, valid_full_key,
};
use crate::merging::{lemma_merged_landing, merge_of, MergingIterator, rewind_sources};
use crate::snapshot::table_iterators;
use crate::table::{
    spec_open_table, spec_table_entries, Table, table_largest_user_key, table_smallest_user_key,
    table_wf, TableMeta, TableMetaView, TableView,
};
use crate::table_iterator::{Stream, TableIterator};
use crate::value::{HummockValue, value_fits};
use crate::version::{level_tables_wf, level_view, NUM_LEVELS, tables_upto, Version, VersionView};
use crate::version_manager::{contains_id, level_without, without_ids};

verus! {

/// The user keys that a table spans: its smallest and its largest.
pub type Span = (Seq<u8>, Seq<u8>);

/// The spans of a vector as plain values.
pub open spec fn spans_view(spans: Seq<(Vec<u8>, Vec<u8>)>) -> Seq<Span> {
    spans.map_values(|s: (Vec<u8>, Vec<u8>)| (s.0@, s.1@))
}

/// Whether one of `spans` covers the user key `uk`.
pub open spec fn covered(spans: Seq<Span>, uk: Seq<u8>) -> bool {
    exists|i: int| 0 <= i < spans.len() && !lex_lt(uk, (#[trigger] spans[i]).0) && !lex_lt(spans[i].1, uk)
}

/// What a merge is told: the epoch below which no reader looks, the spans
/// of the tables that stay out of the merge, the epoch from which on no
/// entry can exist, and whether the merge goes into the lowest level.
pub struct Rules {
    pub watermark: u64,
    pub others: Seq<Span>,
    pub epoch_bound: u64,
    /// Whether the merge goes into the lowest level.
    pub lowest: bool,
}

/// Whether the builder of a table can take the entry.
pub open spec fn entry_fits(e: EntryView, epoch_bound: u64) -> bool {
    e.0.len() <= MAX_KEY_LEN && value_fits(e.1) && spec_epoch_of(e.0) < epoch_bound
}

/// What a merge keeps of a stream of entries in key order.
///
/// An entry whose key does not sort behind the key before it is passed
/// over. An entry above the watermark is kept. Of the entries of one user
/// key at or below the watermark only the newest counts: it is kept, unless
/// it is a tombstone, the merge goes into the lowest level, and no table
/// outside the merge spans its user key, for then nothing is left that it
/// could hide. An entry that is kept but that
/// no table can take ends the merge with `InvalidSST`.
pub open spec fn retained(
    items: Seq<EntryView>,
    fault: Option<HummockError>,
    rules: Rules,
    prev: Option<Seq<u8>>,
    decided: Option<Seq<u8>>,
) -> Stream
    decreases items.len(),
{
    if items.len() == 0 {
        Stream { items: Seq::empty(), fault: fault }
    } else {
        let e = items[0];
        let uk = spec_user_key(e.0);
        let rest = items.drop_first();
        if prev matches Some(p) && !full_key_lt(p, e.0) {
            retained(rest, fault, rules, prev, decided)
        } else if spec_epoch_of(e.0) > rules.watermark {
            keep(e, retained(rest, fault, rules, Some(e.0), decided), rules)
        } else if decided == Some(uk) {
            retained(rest, fault, rules, Some(e.0), decided)
        } else if e.1 is None && rules.lowest && !covered(rules.others, uk) {
            retained(rest, fault, rules, Some(e.0), Some(uk))
        } else {
            keep(e, retained(rest, fault, rules, Some(e.0), Some(uk)), rules)
        }
    }
}

/// The entry `e` before what is kept behind it, or the end of the merge
/// where no table can take `e`.
pub open spec fn keep(e: EntryView, rest: Stream, rules: Rules) -> Stream {
    if entry_fits(e, rules.epoch_bound) {
        Stream { items: seq![e] + rest.items, fault: rest.fault }
    } else {
        Stream { items: Seq::empty(), fault: Some(HummockError::InvalidSST) }
    }
}

/// What a merge of `tables` keeps.
pub open spec fn spec_merge(tables: Seq<TableView>, rules: Rules) -> Stream {
    retained(
        merge_of(rewind_sources(tables)).items,
        merge_of(rewind_sources(tables)).fault,
        rules,
        None,
        None,
    )
}

/// What is kept ends with the fault that the entries end with, or with
/// `InvalidSST`.
pub proof fn lemma_retained_fault_kind(
    items: Seq<EntryView>,
    fault: Option<HummockError>,
    rules: Rules,
    prev: Option<Seq<u8>>,
    decided: Option<Seq<u8>>,
)
    requires
        fault matches Some(e) ==> crate::error::read_fault(e),
    ensures
        retained(items, fault, rules, prev, decided).fault matches Some(e) ==> crate::error::read_fault(e),
    decreases items.len(),
{
    if items.len() > 0 {
        let e = items[0];
        let uk = spec_user_key(e.0);
        let rest = items.drop_first();
        lemma_retained_fault_kind(rest, fault, rules, prev, decided);
        lemma_retained_fault_kind(rest, fault, rules, Some(e.0), decided);
        lemma_retained_fault_kind(rest, fault, rules, Some(e.0), Some(uk));
    }
}

/// A merge ends, where it meets a fault, as bytes are refused.
pub proof fn lemma_merge_fault_kind(tables: Seq<TableView>, rules: Rules)
    ensures
        spec_merge(tables, rules).fault matches Some(e) ==> crate::error::read_fault(e),
{
    crate::merging::lemma_merge_of_fault(tables);
    lemma_retained_fault_kind(
        merge_of(rewind_sources(tables)).items,
        merge_of(rewind_sources(tables)).fault,
        rules,
        None,
        None,
    );
}

/// The entries of some finished tables, one table after the other.
pub open spec fn parts_entries(parts: Seq<(Vec<u8>, TableMeta)>, n: int) -> Seq<EntryView>
    decreases n,
{
    if n <= 0 {
        Seq::empty()
    } else {
        parts_entries(parts, n - 1) + spec_table_entries(parts[n - 1].0@, parts[n - 1].1@).unwrap()
    }
}

/// How a run of kept entries falls into tables: the tables that are
/// closed, the entries of the table that is open, and whether the run has
/// met an entry that its table has no room for.
pub struct Run {
    pub closed: Seq<Seq<EntryView>>,
    pub open: Seq<EntryView>,
    pub stuck: bool,
}

/// Whether a table that holds `open` is full: it has reached the size that
/// the options ask for, or it has no room for a further entry.
pub open spec fn part_full(options: TableBuilderOptions, open: Seq<EntryView>) -> bool {
    estimated(options.block_size, open) >= options.table_capacity || !table_has_room(
        options.block_size,
        open,
    )
}

/// How the first `n` of `items` fall into tables. A full table is closed
/// before the first entry of a user key; an entry that continues a user key
/// in a table without room ends the run.
pub open spec fn run_upto(options: TableBuilderOptions, items: Seq<EntryView>, n: int) -> Run
    decreases n,
{
    if n <= 0 {
        Run { closed: Seq::empty(), open: Seq::empty(), stuck: false }
    } else {
        let prev = run_upto(options, items, n - 1);
        let e = items[n - 1];
        if prev.stuck {
            prev
        } else if prev.open.len() > 0 && spec_user_key(prev.open.last().0) != spec_user_key(e.0)
            && part_full(options, prev.open) {
            Run { closed: prev.closed.push(prev.open), open: seq![e], stuck: false }
        } else if !table_has_room(options.block_size, prev.open) {
            Run { closed: prev.closed, open: prev.open, stuck: true }
        } else {
            Run { closed: prev.closed, open: prev.open.push(e), stuck: false }
        }
    }
}

/// Whether the run of `items` meets an entry that its table has no room for.
pub open spec fn run_stuck(options: TableBuilderOptions, items: Seq<EntryView>) -> bool {
    run_upto(options, items, items.len() as int).stuck
}

/// The tables that `items` fall into, each by its entries.
pub open spec fn spec_parts(options: TableBuilderOptions, items: Seq<EntryView>) -> Seq<Seq<EntryView>> {
    let r = run_upto(options, items, items.len() as int);
    if r.open.len() > 0 {
        r.closed.push(r.open)
    } else {
        r.closed
    }
}

/// The entries of each of some finished tables.
pub open spec fn parts_lists(parts: Seq<(Vec<u8>, TableMeta)>) -> Seq<Seq<EntryView>> {
    Seq::new(parts.len(), |i: int| spec_table_entries(parts[i].0@, parts[i].1@).unwrap())
}

/// How the first entries fall into tables does not depend on what follows them.
pub proof fn lemma_run_prefix(options: TableBuilderOptions, a: Seq<EntryView>, b: Seq<EntryView>, n: int)
    requires
        0 <= n <= a.len() <= b.len(),
        forall|i: int| 0 <= i < a.len() ==> a[i] == b[i],
    ensures
        run_upto(options, b, n) == run_upto(options, a, n),
    decreases n,
{
    if n > 0 {
        lemma_run_prefix(options, a, b, n - 1);
    }
}

/// A run that has met an entry without room stays where it is.
pub proof fn lemma_run_stays_stuck(options: TableBuilderOptions, items: Seq<EntryView>, n: int, m: int)
    requires
        0 <= n <= m,
        run_upto(options, items, n).stuck,
    ensures
        run_upto(options, items, m).stuck,
    decreases m,
{
    if m > n {
        lemma_run_stays_stuck(options, items, n, m - 1);
    }
}

/// A run that ends without room within the first entries of `all` ends
/// without room in `all`.
pub proof fn lemma_stuck_within(options: TableBuilderOptions, first: Seq<EntryView>, all: Seq<EntryView>)
    requires
        first.len() <= all.len(),
        forall|i: int| 0 <= i < first.len() ==> first[i] == all[i],
        run_stuck(options, first),
    ensures
        run_stuck(options, all),
{
    lemma_run_prefix(options, first, all, first.len() as int);
    lemma_run_stays_stuck(options, all, first.len() as int, all.len() as int);
}

/// A finished table holds entries, and its filter is the filter of their
/// user keys.
pub open spec fn part_ok(part: (Vec<u8>, TableMeta), bits_per_key: u32, epoch_bound: u64) -> bool {
    &&& spec_open_table(part.0@) == Ok::<TableMetaView, HummockError>(part.1@)
    &&& spec_table_entries(part.0@, part.1@) is Ok
    &&& spec_table_entries(part.0@, part.1@).unwrap().len() > 0
    &&& is_filter_of(
        part.1@.filter,
        entry_hashes(spec_table_entries(part.0@, part.1@).unwrap()),
        bits_per_key,
    )
    &&& forall|j: int|
        0 <= j < spec_table_entries(part.0@, part.1@).unwrap().len() ==> spec_epoch_of(
            #[trigger] spec_table_entries(part.0@, part.1@).unwrap()[j].0,
        ) < epoch_bound
}

/// Whether one of `spans` covers the user key `uk`.
pub fn is_covered(spans: &Vec<(Vec<u8>, Vec<u8>)>, uk: &[u8]) -> (r: bool)
    ensures
        r == covered(spans_view(spans@), uk@),
{
    let ghost sv = spans_view(spans@);
    let mut i: usize = 0;
    while i < spans.len()
        invariant
            i <= spans.len(),
            sv == spans_view(spans@),
            forall|k: int| 0 <= k < i ==> lex_lt(uk@, (#[trigger] sv[k]).0) || lex_lt(sv[k].1, uk@),
        decreases spans.len() - i,
    {
        assert(sv[i as int] == (spans@[i as int].0@, spans@[i as int].1@));
        let below: bool = match compare_bytes(uk, spans[i].0.as_slice()) {
            KeyOrder::Less => true,
            _ => false,
        };
        let above: bool = match compare_bytes(spans[i].1.as_slice(), uk) {
            KeyOrder::Less => true,
            _ => false,
        };
        if !below && !above {
            return true;
        }
        i += 1;
    }
    false
}

/// Merges `tables` into new tables under `rules`. A new table is begun
/// where the table at hand is full and the next entry begins a new user
/// key: the tables hold what `spec_parts` says.
///
/// The merge fails with the fault of the first block that is refused, or
/// with `InvalidSST` where an entry that is kept cannot go into a table: it
/// is too long, it carries an epoch that cannot be, or it continues a user
/// key in a table without room, which no merge that keeps at most
/// `MAX_SURE_ENTRIES` entries with short keys meets.
#[verifier::loop_isolation(false)]
pub fn merge_tables(
    tables: &Vec<Table>,
    watermark: u64,
    others: &Vec<(Vec<u8>, Vec<u8>)>,
    epoch_bound: u64,
    lowest: bool,
    options: TableBuilderOptions,
) -> (r: Result<Vec<(Vec<u8>, TableMeta)>, HummockError>)
    requires
        level_tables_wf(level_view(tables@)),
        crate::snapshot::all_loaded(tables@),
    ensures
        match r {
            Ok(parts) => {
                let kept = spec_merge(
                    level_view(tables@),
                    Rules {
                        watermark: watermark,
                        others: spans_view(others@),
                        epoch_bound: epoch_bound,
                        lowest: lowest,
                    },
                );
                &&& kept.fault is None
                &&& parts_entries(parts@, parts@.len() as int) == kept.items
                &&& forall|i: int| 0 <= i < parts@.len() ==> part_ok(#[trigger] parts@[i], options.bloom_bits_per_key, epoch_bound)
                &&& parts_lists(parts@) == spec_parts(options, kept.items)
                &&& !run_stuck(options, kept.items)
            },
            Err(e) => {
                let kept = spec_merge(
                    level_view(tables@),
                    Rules {
                        watermark: watermark,
                        others: spans_view(others@),
                        epoch_bound: epoch_bound,
                        lowest: lowest,
                    },
                );
                kept.fault == Some(e) || (e == HummockError::InvalidSST && (kept.items.len()
                    > MAX_SURE_ENTRIES || !short_keys(kept.items)) && run_stuck(options, kept.items))
            },
        },
        spec_merge(
            level_view(tables@),
            Rules {
                        watermark: watermark,
                        others: spans_view(others@),
                        epoch_bound: epoch_bound,
                        lowest: lowest,
                    },
        ).fault is Some ==> r is Err,
{
    let ghost rules = Rules {
                        watermark: watermark,
                        others: spans_view(others@),
                        epoch_bound: epoch_bound,
                        lowest: lowest,
                    };
    let ghost goal = spec_merge(level_view(tables@), rules);
    let children: Vec<TableIterator> = table_iterators(tables);
    let mut iter: MergingIterator = MergingIterator::new(children);
    match iter.rewind() {
        Err(e) => {
            return Err(e);
        },
        Ok(_) => {},
    }
    let mut parts: Vec<(Vec<u8>, TableMeta)> = Vec::new();
    let mut builder: TableBuilder = TableBuilder::new(options);
    let mut prev: Option<Vec<u8>> = None;
    let mut decided: Option<Vec<u8>> = None;
    proof {
        lemma_merged_landing(iter.streams());
        assert(parts_entries(parts@, 0) + builder.entries() =~= Seq::<EntryView>::empty());
        assert(parts_lists(parts@) =~= Seq::<Seq<EntryView>>::empty());
    }
    loop
        invariant
            iter.wf(),
            builder.wf(),
            builder.options() == options,
            rules == (Rules {
                        watermark: watermark,
                        others: spans_view(others@),
                        epoch_bound: epoch_bound,
                        lowest: lowest,
                    }),
            forall|i: int| 0 <= i < parts@.len() ==> part_ok(#[trigger] parts@[i], options.bloom_bits_per_key, epoch_bound),
            forall|j: int|
                0 <= j < builder.entries().len() ==> spec_epoch_of(#[trigger] builder.entries()[j].0)
                    < epoch_bound,
            prev matches Some(p) ==> valid_full_key(p@),
            builder.entries().len() > 0 ==> prev is Some && (prev.unwrap()@ == builder.entries().last().0
                || full_key_lt(builder.entries().last().0, prev.unwrap()@)),
            iter.stream().items.len() == 0 ==> iter.stream().fault is None,
            goal.fault == retained(
                iter.stream().items,
                iter.stream().fault,
                rules,
                opt_view(prev),
                opt_view(decided),
            ).fault,
            goal.items == parts_entries(parts@, parts@.len() as int) + builder.entries() + retained(
                iter.stream().items,
                iter.stream().fault,
                rules,
                opt_view(prev),
                opt_view(decided),
            ).items,
            run_upto(
                options,
                parts_entries(parts@, parts@.len() as int) + builder.entries(),
                (parts_entries(parts@, parts@.len() as int) + builder.entries()).len() as int,
            ) == (Run { closed: parts_lists(parts@), open: builder.entries(), stuck: false }),
        decreases iter.stream().items.len(),
    {
        if !iter.is_valid() {
            break ;
        }
        let ghost before = iter.stream();
        let ghost head = before.items[0];
        let ghost done = parts_entries(parts@, parts@.len() as int) + builder.entries();
        let fk: Vec<u8> = clone_bytes(iter.key());
        let uk: &[u8] = user_key(fk.as_slice());
        let stale: bool = match &prev {
            Some(p) => !full_key_less(p.as_slice(), fk.as_slice()),
            None => false,
        };
        let mut take: bool = false;
        let mut mark: bool = false;
        if !stale {
            if epoch_of(fk.as_slice()) > watermark {
                take = true;
            } else {
                let seen: bool = match &decided {
                    Some(d) => bytes_eq(d.as_slice(), uk),
                    None => false,
                };
                if !seen {
                    mark = true;
                    take = !(iter.value().is_delete() && lowest && !is_covered(others, uk));
                }
            }
        }
        if take {
            let value: HummockValue = iter.value().duplicate();
            if fk.len() > MAX_KEY_LEN || !value.fits() || epoch_of(fk.as_slice()) >= epoch_bound {
                return Err(HummockError::InvalidSST);
            }
            let ghost open = builder.entries();
            let ghost closed = parts_lists(parts@);
            let ghost cut = open.len() > 0 && spec_user_key(open.last().0) != spec_user_key(head.0)
                && part_full(options, open);
            proof {
                builder.lemma_layout();
                lemma_run_prefix(options, done, done.push(head), done.len() as int);
                assert(done.push(head)[done.len() as int] == head);
            }
            // A full table is closed before the first entry of a user key.
            if !builder.is_empty() {
                let same_user_key: bool = bytes_eq(user_key(builder.last_key()), uk);
                if !same_user_key && (builder.reached_capacity() || !builder.has_room()) {
                    let mut full: TableBuilder = TableBuilder::new(options);
                    core::mem::swap(&mut builder, &mut full);
                    let ghost es = full.entries();
                    let (bytes, meta) = full.finish();
                    proof {
                        assert(cut);
                        assert(parts_lists(parts@.push((bytes, meta))) =~= closed.push(es));
                        assert(parts_entries(parts@.push((bytes, meta)), parts@.len() as int + 1) =~= parts_entries(
                            parts@,
                            parts@.len() as int,
                        ) + es) by {
                            lemma_parts_prefix(parts@, parts@.push((bytes, meta)), parts@.len() as int);
                        }
                        assert(done =~= parts_entries(parts@, parts@.len() as int) + es
                            + builder.entries());
                    }
                    parts.push((bytes, meta));
                    assert(part_ok(parts@[parts@.len() - 1], options.bloom_bits_per_key, epoch_bound));
                }
            }
            proof {
                if builder.entries().len() <= MAX_SURE_ENTRIES && short_keys(builder.entries()) {
                    builder.lemma_room();
                }
            }
            proof {
                builder.lemma_layout();
            }
            if !builder.has_room() {
                proof {
                    assert(!cut);
                    assert(run_stuck(options, done.push(head)));
                    let rest = retained(before.items, before.fault, rules, opt_view(prev), opt_view(decided));
                    assert(rest.items.len() > 0 && rest.items[0] == head);
                    assert(goal.items == done + rest.items);
                    lemma_stuck_within(options, done.push(head), goal.items);
                    let held = builder.entries();
                    if !short_keys(held) {
                        let j = choose|j: int| 0 <= j < held.len() && (#[trigger] held[j]).0.len() > SHORT_KEY_LEN;
                        let at = parts_entries(parts@, parts@.len() as int).len() + j;
                        assert(goal.items[at] == held[j]);
                    }
                }
                return Err(HummockError::InvalidSST);
            }
            let ghost had = builder.entries();
            proof {
                if had.len() > 0 && prev.unwrap()@ != had.last().0 {
                    crate::key::lemma_full_key_lt_transitive(had.last().0, prev.unwrap()@, fk@);
                }
            }
            builder.add(fk.as_slice(), &value);
            assert(parts_entries(parts@, parts@.len() as int) + builder.entries() =~= done.push(head));
            assert(run_upto(options, done.push(head), done.len() as int + 1) == (Run {
                closed: parts_lists(parts@),
                open: builder.entries(),
                stuck: false,
            })) by {
                if cut {
                    assert(builder.entries() =~= seq![head]);
                } else {
                    assert(builder.entries() =~= open.push(head));
                }
            }
        }
        if mark {
            decided = Some(clone_bytes(uk));
        }
        if !stale {
            proof {
                if builder.entries().len() > 0 && !take {
                    let last = builder.entries().last().0;
                    if prev.unwrap()@ != last {
                        crate::key::lemma_full_key_lt_transitive(last, prev.unwrap()@, fk@);
                    }
                }
            }
            prev = Some(fk);
        }
        let res: Result<(), HummockError> = iter.next();
        proof {
            lemma_merged_landing(iter.streams());
            let after = retained(
                before.items.drop_first(),
                before.fault,
                rules,
                opt_view(prev),
                opt_view(decided),
            );
            if take {
                assert(done.push(head) + after.items =~= done + (seq![head] + after.items));
            }
            if res is Ok {
                if before.items.len() == 1 {
                    assert(before.items.drop_first() =~= Seq::<EntryView>::empty());
                }
                assert(iter.stream().items =~= before.items.drop_first());
            }
        }
        match res {
            Err(e) => {
                return Err(e);
            },
            Ok(_) => {},
        }
    }
    let ghost closed = parts_lists(parts@);
    let ghost open = builder.entries();
    proof {
        assert(goal.items =~= parts_entries(parts@, parts@.len() as int) + builder.entries());
    }
    if !builder.is_empty() {
        let ghost es = builder.entries();
        let (bytes, meta) = builder.finish();
        proof {
            assert(parts_lists(parts@.push((bytes, meta))) =~= closed.push(es));
            assert(parts_entries(parts@.push((bytes, meta)), parts@.len() as int + 1) =~= parts_entries(
                parts@,
                parts@.len() as int,
            ) + es) by {
                lemma_parts_prefix(parts@, parts@.push((bytes, meta)), parts@.len() as int);
            }
        }
        parts.push((bytes, meta));
        assert(part_ok(parts@[parts@.len() - 1], options.bloom_bits_per_key, epoch_bound));
    }
    assert(parts_entries(parts@, parts@.len() as int) + Seq::<EntryView>::empty() =~= parts_entries(
        parts@,
        parts@.len() as int,
    ));
    Ok(parts)
}

/// A key as plain values, if there is one.
pub open spec fn opt_view(k: Option<Vec<u8>>) -> Option<Seq<u8>> {
    match k {
        Some(v) => Some(v@),
        None => None,
    }
}

/// The entries of the first finished tables do not depend on the tables
/// behind them.
pub proof fn lemma_parts_prefix(a: Seq<(Vec<u8>, TableMeta)>, b: Seq<(Vec<u8>, TableMeta)>, n: int)
    requires
        0 <= n <= a.len() <= b.len(),
        forall|i: int| 0 <= i < a.len() ==> a[i] == b[i],
    ensures
        parts_entries(b, n) == parts_entries(a, n),
    decreases n,
{
    if n > 0 {
        lemma_parts_prefix(a, b, n - 1);
    }
}

/// The first `n` tables of a level whose id is in `ids`.
pub open spec fn with_ids_upto(level: Seq<TableView>, ids: Seq<u64>, n: int) -> Seq<TableView>
    decreases n,
{
    if n <= 0 {
        Seq::empty()
    } else if ids.contains(level[n - 1].id) {
        with_ids_upto(level, ids, n - 1).push(level[n - 1])
    } else {
        with_ids_upto(level, ids, n - 1)
    }
}

/// The tables of a level whose id is in `ids`.
pub open spec fn with_ids(level: Seq<TableView>, ids: Seq<u64>) -> Seq<TableView> {
    with_ids_upto(level, ids, level.len() as int)
}

/// The tables that a compaction merges: those taken from the source level,
/// then those taken from the level below.
pub open spec fn task_inputs(v: VersionView, source: int, source_ids: Seq<u64>, target_ids: Seq<u64>) -> Seq<
    TableView,
> {
    with_ids(v.levels[source], source_ids) + with_ids(v.levels[source + 1], target_ids)
}

/// The levels of a version without the tables that a compaction merges.
pub open spec fn levels_without(
    v: VersionView,
    source: int,
    source_ids: Seq<u64>,
    target_ids: Seq<u64>,
) -> Seq<Seq<TableView>> {
    v.levels.update(source, without_ids(v.levels[source], source_ids)).update(
        source + 1,
        without_ids(v.levels[source + 1], target_ids),
    )
}

/// The spans of some tables.
pub open spec fn table_spans(tables: Seq<TableView>) -> Seq<Span> {
    tables.map_values(|t: TableView| (table_smallest_user_key(t), table_largest_user_key(t)))
}

/// The spans of the tables that stay out of a compaction.
pub open spec fn other_spans(
    v: VersionView,
    source: int,
    source_ids: Seq<u64>,
    target_ids: Seq<u64>,
) -> Seq<Span> {
    table_spans(tables_upto(levels_without(v, source, source_ids, target_ids), v.levels.len() as int))
}

/// Copies of the tables of `level` whose id is in `ids`.
pub fn level_with(level: &Vec<Table>, ids: &Vec<u64>) -> (r: Vec<Table>)
    ensures
        level_view(r@) == with_ids(level_view(level@), ids@),
{
    let ghost lv = level_view(level@);
    let mut out: Vec<Table> = Vec::new();
    let mut i: usize = 0;
    assert(level_view(out@) =~= with_ids_upto(lv, ids@, 0));
    while i < level.len()
        invariant
            i <= level.len(),
            lv == level_view(level@),
            level_view(out@) == with_ids_upto(lv, ids@, i as int),
        decreases level.len() - i,
    {
        assert(lv[i as int] == level@[i as int]@);
        if contains_id(ids, level[i].id) {
            let t: Table = level[i].duplicate();
            assert(level_view(out@.push(t)) =~= level_view(out@).push(t@));
            out.push(t);
        }
        i += 1;
    }
    out
}

/// Copies of the tables that a compaction merges.
pub fn collect_inputs(version: &Version, source: usize, source_ids: &Vec<u64>, target_ids: &Vec<u64>) -> (r:
    Vec<Table>)
    requires
        version.wf(),
        source + 1 < NUM_LEVELS,
    ensures
        level_view(r@) == task_inputs(version@, source as int, source_ids@, target_ids@),
        level_tables_wf(level_view(r@)),
{
    let ghost v = version@;
    assert(v.levels[source as int] == level_view(version.levels@[source as int]@));
    assert(v.levels[source + 1] == level_view(version.levels@[source + 1]@));
    assert(level_tables_wf(v.levels[source as int]));
    assert(level_tables_wf(v.levels[source + 1]));
    let mut out: Vec<Table> = level_with(&version.levels[source], source_ids);
    let below: Vec<Table> = level_with(&version.levels[source + 1], target_ids);
    proof {
        lemma_with_ids_subset(v.levels[source as int], source_ids@, v.levels[source as int].len() as int);
        lemma_with_ids_subset(v.levels[source + 1], target_ids@, v.levels[source + 1].len() as int);
    }
    let ghost first = level_view(out@);
    crate::version::append_level(&mut out, &below);
    proof {
        let all = level_view(out@);
        assert forall|j: int| 0 <= j < all.len() implies table_wf(#[trigger] all[j]) by {
            if j < first.len() {
                assert(all[j] == first[j]);
                let source_level = v.levels[source as int];
                let wanted = first[j];
                let i = choose|i: int| 0 <= i < source_level.len() && source_level[i] == wanted;
                assert(table_wf(source_level[i]));
            } else {
                let b = level_view(below@);
                assert(all[j] == b[j - first.len()]);
                let below_level = v.levels[source + 1];
                let wanted = b[j - first.len()];
                let i = choose|i: int| 0 <= i < below_level.len() && below_level[i] == wanted;
                assert(table_wf(below_level[i]));
            }
        }
    }
    out
}

/// The tables picked from a level are tables of the level.
pub proof fn lemma_with_ids_subset(level: Seq<TableView>, ids: Seq<u64>, n: int)
    requires
        0 <= n <= level.len(),
    ensures
        forall|j: int|
            0 <= j < with_ids_upto(level, ids, n).len() ==> level.contains(
                #[trigger] with_ids_upto(level, ids, n)[j],
            ),
    decreases n,
{
    if n > 0 {
        lemma_with_ids_subset(level, ids, n - 1);
        let prev = with_ids_upto(level, ids, n - 1);
        let cur = with_ids_upto(level, ids, n);
        assert forall|j: int| 0 <= j < cur.len() implies level.contains(#[trigger] cur[j]) by {
            if j < prev.len() {
                assert(cur[j] == prev[j]);
            } else {
                assert(cur[j] == level[n - 1]);
            }
        }
    }
}

/// The spans of the tables that stay out of a compaction.
pub fn collect_other_spans(
    version: &Version,
    source: usize,
    source_ids: &Vec<u64>,
    target_ids: &Vec<u64>,
) -> (r: Vec<(Vec<u8>, Vec<u8>)>)
    requires
        version.wf(),
        source + 1 < NUM_LEVELS,
    ensures
        spans_view(r@) == other_spans(version@, source as int, source_ids@, target_ids@),
{
    let ghost v = version@;
    let ghost rest = levels_without(v, source as int, source_ids@, target_ids@);
    let none: Vec<u64> = Vec::new();
    let mut out: Vec<(Vec<u8>, Vec<u8>)> = Vec::new();
    let mut l: usize = 0;
    assert(spans_view(out@) =~= table_spans(tables_upto(rest, 0)));
    while l < version.levels.len()
        invariant
            l <= version.levels.len(),
            v == version@,
            version.wf(),
            source + 1 < NUM_LEVELS,
            none@.len() == 0,
            rest == levels_without(v, source as int, source_ids@, target_ids@),
            spans_view(out@) == table_spans(tables_upto(rest, l as int)),
        decreases version.levels.len() - l,
    {
        assert(v.levels[l as int] == level_view(version.levels@[l as int]@));
        assert(level_tables_wf(v.levels[l as int]));
        let ids: &Vec<u64> = if l == source {
            source_ids
        } else if l == source + 1 {
            target_ids
        } else {
            &none
        };
        let kept: Vec<Table> = level_without(&version.levels[l], ids);
        proof {
            crate::version_manager::lemma_without_ids_subset(v.levels[l as int], ids@, v.levels[l as int].len() as int);
            assert(v.levels.len() == NUM_LEVELS);
            if l != source && l != source + 1 {
                lemma_without_none(v.levels[l as int], v.levels[l as int].len() as int);
                assert(v.levels[l as int].take(v.levels[l as int].len() as int) =~= v.levels[l as int]);
                assert(none@ =~= Seq::<u64>::empty());
            }
            assert(level_view(kept@) == rest[l as int]);
        }
        let ghost start = spans_view(out@);
        let ghost kv = level_view(kept@);
        let mut i: usize = 0;
        assert(spans_view(out@) =~= start + table_spans(kv.take(0)));
        while i < kept.len()
            invariant
                i <= kept.len(),
                kv == level_view(kept@),
                l < v.levels.len(),
                forall|j: int| 0 <= j < kv.len() ==> v.levels[l as int].contains(#[trigger] kv[j]),
                level_tables_wf(v.levels[l as int]),
                spans_view(out@) == start + table_spans(kv.take(i as int)),
            decreases kept.len() - i,
        {
            assert(kv[i as int] == kept@[i as int]@);
            proof {
                let this_level = v.levels[l as int];
                let wanted = kv[i as int];
                let j = choose|j: int| 0 <= j < this_level.len() && this_level[j] == wanted;
                assert(table_wf(this_level[j]));
            }
            let span: (Vec<u8>, Vec<u8>) = (
                clone_bytes(kept[i].smallest_user_key()),
                clone_bytes(kept[i].largest_user_key()),
            );
            let ghost sp = (span.0@, span.1@);
            assert(spans_view(out@.push(span)) =~= spans_view(out@).push(sp));
            assert(table_spans(kv.take(i + 1)) =~= table_spans(kv.take(i as int)).push(sp));
            out.push(span);
            assert(spans_view(out@) =~= start + table_spans(kv.take(i + 1)));
            i += 1;
        }
        assert(kv.take(kept.len() as int) =~= kv);
        assert(table_spans(tables_upto(rest, l + 1)) =~= start + table_spans(kv));
        l += 1;
    }
    out
}

/// A level without no table is the level.
pub proof fn lemma_without_none(level: Seq<TableView>, n: int)
    requires
        0 <= n <= level.len(),
    ensures
        crate::version_manager::without_ids_upto(level, Seq::<u64>::empty(), n) == level.take(n),
    decreases n,
{
    if n > 0 {
        lemma_without_none(level, n - 1);
        assert(level.take(n) =~= level.take(n - 1).push(level[n - 1]));
    } else {
        assert(level.take(0) =~= Seq::<TableView>::empty());
    }
}

/// A merge of a stream without a fault ends without a fault, or with
/// `InvalidSST` at an entry that no table can take.
pub proof fn lemma_retained_fault(
    items: Seq<EntryView>,
    rules: Rules,
    prev: Option<Seq<u8>>,
    decided: Option<Seq<u8>>,
)
    ensures
        retained(items, None, rules, prev, decided).fault is None || retained(
            items,
            None,
            rules,
            prev,
            decided,
        ).fault == Some(HummockError::InvalidSST),
    decreases items.len(),
{
    if items.len() > 0 {
        let e = items[0];
        let uk = spec_user_key(e.0);
        let rest = items.drop_first();
        lemma_retained_fault(rest, rules, prev, decided);
        lemma_retained_fault(rest, rules, Some(e.0), decided);
        lemma_retained_fault(rest, rules, Some(e.0), Some(uk));
    }
}

} // verus!
