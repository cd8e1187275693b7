//! The state store: batches of writes go in as tables at level 0, reads see
//! the current version.
//!
//! The bytes of tables live in the object store. A read or a compaction
//! asks the store for the tables that it needs and opens what comes back:
//! each such function stands beside one that takes the answers of the store
//! as an argument and says what follows from every answer.

use vstd::prelude::*;
use crate::block::EntryView;
use crate::bloom::is_filter_of;
use crate::builder::{
    entry_hashes, MAX_SURE_ENTRIES, one_table_takes, short_keys, table_has_room, TableBuilder,
    TableBuilderOptions,
};
use crate::checksum::ChecksumAlg;
use crate::coding::{compare_bytes, KeyOrder, lemma_lex_lt_transitive, lex_lt};
use crate::compactor::{
    collect_inputs, collect_other_spans, merge_tables, other_spans, part_ok, parts_entries,
    parts_lists, Rules, run_stuck, spec_merge, spec_parts, task_inputs,
};
use crate::distinct_laws::{keys_apart, lemma_compaction_distinct, lemma_with_l0_distinct};
use crate::error::HummockError;
use crate::intact::{
    all_entries, all_entries_upto, lemma_built_table_intact, table_entries, table_intact,
    tables_intact, version_intact, version_keys_distinct,
};
use crate::key::{key_with_epoch, lemma_key_with_epoch_parts, spec_epoch_of, spec_key_with_epoch};
use crate::object::{ObjectStore, spec_table_path, table_path};
use crate::picker::{
    CompactionTask, pick_compaction, pick_from_level0, pick_level0, spec_pick, TaskView,
};
use crate::snapshot::{
    admitting, faithful, fetch_tables, fetched_view, HummockSnapshot, iterator_outcome,
    load_tables, pairs_view,
    read_outcome, scan_outcome, scan_view, spec_get, spec_load, spec_scan, value_view,
};
use crate::table::{spec_open_table, spec_table_entries, Table, TableMeta, TableMetaView, TableView};
use crate::table_iterator::Stream;
use crate::table_order::lemma_intact_sorted;
use crate::user_iterator::{KeyRange, RangeView, UserKeyIterator};
use crate::value::{HummockValue, value_fits};
use crate::version::{
    lemma_version_tables_hold, level_tables_wf, level_view, NUM_LEVELS, table_ids, tables_upto,
    Version, version_has, version_holds, version_ids, version_tables, version_wf, VersionView,
};
use crate::version_manager::{
    all_present,
    commit_allowed, compacted, last_pin, lemma_compacted_members, lemma_last_pin, level_ids, live,
    PinView,
    retire, VersionManager, watermark, with_l0,
};

verus! {

/// The longest user key that a batch may hold: with its epoch it is the
/// longest key whose table still has an index within what a machine of 32
/// bits can hold.
pub const MAX_USER_KEY_LEN: usize = 0x1fff_ffe8;

/// A user key of at most this many bytes is short.
pub const SHORT_USER_KEY_LEN: usize = 0xfff7;

/// Whether the user keys of a batch are short.
pub open spec fn short_batch(b: Seq<(Seq<u8>, Option<Seq<u8>>)>) -> bool {
    forall|i: int| 0 <= i < b.len() ==> (#[trigger] b[i]).0.len() <= SHORT_USER_KEY_LEN
}

/// The options of a store.
#[derive(Clone, Debug)]
pub struct HummockOptions {
    /// The size at which a table counts as full, in bytes.
    pub table_size: u32,
    /// The size at which a block is closed, in bytes.
    pub block_size: u32,
    /// The bits that a table's Bloom filter spends per entry; 0 for no
    /// filter. Five bits per entry give about one false positive in ten.
    pub bloom_bits_per_key: u32,
    /// The directory under which the tables are stored.
    pub remote_dir: String,
    /// The checksum algorithm.
    pub checksum_algo: ChecksumAlg,
    /// Whether the store counts what it does.
    pub stats_enabled: bool,
}

impl HummockOptions {
    /// The options that tests use: tables of 256 MiB, blocks of 64 KiB, a
    /// Bloom filter of five bits per entry, CRC-32C, statistics on.
    pub fn default_for_test() -> (r: HummockOptions)
        ensures
            r.table_size == 268435456,
            r.block_size == 65536,
            r.bloom_bits_per_key == 5,
            r.remote_dir@ == "hummock_001"@,
            r.checksum_algo == ChecksumAlg::Crc32c,
            r.stats_enabled,
    {
        HummockOptions {
            table_size: 268435456,
            block_size: 65536,
            bloom_bits_per_key: 5,
            remote_dir: "hummock_001".to_owned(),
            checksum_algo: ChecksumAlg::Crc32c,
            stats_enabled: true,
        }
    }

    /// The options under which the store builds its tables.
    pub open spec fn spec_builder_options(&self) -> TableBuilderOptions {
        TableBuilderOptions {
            table_capacity: self.table_size,
            block_size: self.block_size,
            bloom_bits_per_key: self.bloom_bits_per_key,
            checksum_algo: self.checksum_algo,
        }
    }

    /// The options under which the store builds its tables.
    pub fn builder_options(&self) -> (r: TableBuilderOptions)
        ensures
            r == self.spec_builder_options(),
            r.table_capacity == self.table_size,
            r.block_size == self.block_size,
            r.bloom_bits_per_key == self.bloom_bits_per_key,
            r.checksum_algo == self.checksum_algo,
    {
        TableBuilderOptions {
            table_capacity: self.table_size,
            block_size: self.block_size,
            bloom_bits_per_key: self.bloom_bits_per_key,
            checksum_algo: self.checksum_algo,
        }
    }
}

/// The name under which the bytes written are counted.
pub const PUT_BYTES_METRIC: &'static str = "hummock_put_bytes";

/// What the store counts.
#[derive(Clone, Copy, Debug)]
pub struct HummockStats {
    /// The bytes of all tables that the write path has stored; the count
    /// wraps round at 2^64.
    pub put_bytes: u64,
}

/// Calls `num_traits::ToPrimitive::to_u64` on a `usize`. The contract states
/// what the crate's conversion between unsigned integers gives where the
/// source is no wider than the destination: the same number.
#[verifier::external_body]
pub(crate) fn usize_to_u64(n: usize) -> (r: Option<u64>)
    ensures
        r == Some(n as u64),
{
    num_traits::ToPrimitive::to_u64(&n)
}

/// A batch as plain values: user keys with what is written under them.
pub open spec fn batch_view(pairs: Seq<(Vec<u8>, HummockValue)>) -> Seq<(Seq<u8>, Option<Seq<u8>>)> {
    pairs.map_values(|p: (Vec<u8>, HummockValue)| (p.0@, p.1@))
}

/// A batch is in order when no user key is empty or too long and the user
/// keys increase strictly.
pub open spec fn batch_valid(b: Seq<(Seq<u8>, Option<Seq<u8>>)>) -> bool {
    &&& forall|i: int| 0 <= i < b.len() ==> 0 < (#[trigger] b[i]).0.len() <= MAX_USER_KEY_LEN
    &&& forall|i: int, j: int| 0 <= i < j < b.len() ==> lex_lt((#[trigger] b[i]).0, (#[trigger] b[j]).0)
}

/// Every value of a batch is short enough for a table.
pub open spec fn batch_fits(b: Seq<(Seq<u8>, Option<Seq<u8>>)>) -> bool {
    forall|i: int| 0 <= i < b.len() ==> value_fits((#[trigger] b[i]).1)
}

/// The entries that a batch becomes at `epoch`.
pub open spec fn batch_entries(b: Seq<(Seq<u8>, Option<Seq<u8>>)>, epoch: u64) -> Seq<EntryView> {
    Seq::new(b.len(), |i: int| (spec_key_with_epoch(b[i].0, epoch), b[i].1))
}

/// Checks a batch: `InvalidKey` where a user key is empty, too long or out
/// of order; else `InvalidSST` where a value is too long for a table.
pub fn validate_batch(pairs: &Vec<(Vec<u8>, HummockValue)>) -> (r: Result<(), HummockError>)
    ensures
        !batch_valid(batch_view(pairs@)) ==> r == Err::<(), HummockError>(HummockError::InvalidKey),
        batch_valid(batch_view(pairs@)) && !batch_fits(batch_view(pairs@)) ==> r == Err::<
            (),
            HummockError,
        >(HummockError::InvalidSST),
        batch_valid(batch_view(pairs@)) && batch_fits(batch_view(pairs@)) ==> r is Ok,
{
    let ghost b = batch_view(pairs@);
    let n: usize = pairs.len();
    let mut i: usize = 0;
    while i < n
        invariant
            i <= n,
            n == pairs.len(),
            b == batch_view(pairs@),
            forall|k: int| 0 <= k < i ==> 0 < (#[trigger] b[k]).0.len() <= MAX_USER_KEY_LEN,
            forall|x: int, y: int| 0 <= x < y < i ==> lex_lt((#[trigger] b[x]).0, (#[trigger] b[y]).0),
        decreases n - i,
    {
        assert(b[i as int] == (pairs@[i as int].0@, pairs@[i as int].1@));
        let k: &Vec<u8> = &pairs[i].0;
        if k.len() == 0 || k.len() > MAX_USER_KEY_LEN {
            return Err(HummockError::InvalidKey);
        }
        if i > 0 {
            assert(b[i - 1] == (pairs@[i - 1].0@, pairs@[i - 1].1@));
            match compare_bytes(pairs[i - 1].0.as_slice(), k.as_slice()) {
                KeyOrder::Less => {},
                _ => {
                    return Err(HummockError::InvalidKey);
                },
            }
            proof {
                assert forall|x: int, y: int| 0 <= x < y < i + 1 implies lex_lt(
                    (#[trigger] b[x]).0,
                    (#[trigger] b[y]).0,
                ) by {
                    if y == i && x < i - 1 {
                        lemma_lex_lt_transitive(b[x].0, b[i - 1].0, b[y].0);
                    }
                }
            }
        }
        i += 1;
    }
    let mut j: usize = 0;
    while j < n
        invariant
            j <= n,
            n == pairs.len(),
            b == batch_view(pairs@),
            batch_valid(b),
            forall|k: int| 0 <= k < j ==> value_fits((#[trigger] b[k]).1),
        decreases n - j,
    {
        assert(b[j as int] == (pairs@[j as int].0@, pairs@[j as int].1@));
        if !pairs[j].1.fits() {
            return Err(HummockError::InvalidSST);
        }
        j += 1;
    }
    Ok(())
}

/// A batch of at most this many pairs with short keys fits into one table,
/// whatever the sizes of its values.
pub const MAX_SURE_BATCH: usize = 16000;

/// Builds the table of a batch at `epoch`: every pair becomes the entry of
/// its full key. Fails with `InvalidSST` where the batch outgrows what one
/// table can hold, and only there; a batch of at most `MAX_SURE_BATCH`
/// pairs with short keys does not.
pub fn build_batch_table(
    options: &HummockOptions,
    epoch: u64,
    pairs: &Vec<(Vec<u8>, HummockValue)>,
) -> (r: Result<(Vec<u8>, TableMeta), HummockError>)
    requires
        batch_valid(batch_view(pairs@)),
        batch_fits(batch_view(pairs@)),
        pairs@.len() > 0,
    ensures
        match r {
            Ok((bytes, meta)) => {
                &&& spec_open_table(bytes@) == Ok::<TableMetaView, HummockError>(meta@)
                &&& spec_table_entries(bytes@, meta@) == Ok::<Seq<EntryView>, HummockError>(
                    batch_entries(batch_view(pairs@), epoch),
                )
                &&& is_filter_of(
                    meta@.filter,
                    entry_hashes(batch_entries(batch_view(pairs@), epoch)),
                    options.bloom_bits_per_key,
                )
                &&& meta@.alg == options.checksum_algo
            },
            Err(e) => e == HummockError::InvalidSST && (pairs@.len() > MAX_SURE_BATCH || !short_batch(
                batch_view(pairs@),
            )),
        },
        r is Ok <==> one_table_takes(options.block_size, batch_entries(batch_view(pairs@), epoch)),
{
    let ghost b = batch_view(pairs@);
    let ghost es = batch_entries(b, epoch);
    let mut builder: TableBuilder = TableBuilder::new(options.builder_options());
    let n: usize = pairs.len();
    let mut i: usize = 0;
    assert(builder.entries() =~= es.take(0));
    while i < n
        invariant
            i <= n,
            n == pairs.len(),
            b == batch_view(pairs@),
            es == batch_entries(b, epoch),
            batch_valid(b),
            batch_fits(b),
            builder.wf(),
            builder.options().bloom_bits_per_key == options.bloom_bits_per_key,
            builder.options().checksum_algo == options.checksum_algo,
            builder.options().block_size == options.block_size,
            builder.entries() == es.take(i as int),
            forall|k: int| 0 <= k < i ==> table_has_room(options.block_size, #[trigger] es.take(k)),
        decreases n - i,
    {
        assert(b[i as int] == (pairs@[i as int].0@, pairs@[i as int].1@));
        proof {
            if n <= MAX_SURE_BATCH && short_batch(b) {
                assert forall|k: int| 0 <= k < es.take(i as int).len() implies (#[trigger] es.take(
                    i as int,
                )[k]).0.len() <= crate::builder::SHORT_KEY_LEN by {
                    lemma_key_with_epoch_parts(b[k].0, epoch);
                }
                builder.lemma_room();
            }
            builder.lemma_layout();
        }
        if !builder.has_room() {
            return Err(HummockError::InvalidSST);
        }
        let fk: Vec<u8> = key_with_epoch(crate::coding::clone_bytes(pairs[i].0.as_slice()), epoch);
        proof {
            lemma_key_with_epoch_parts(b[i as int].0, epoch);
            if i > 0 {
                lemma_key_with_epoch_parts(b[i - 1].0, epoch);
                assert(es.take(i as int).last() == es[i - 1]);
                assert(lex_lt(b[i - 1].0, b[i as int].0));
            }
        }
        builder.add(fk.as_slice(), &pairs[i].1);
        assert(es.take(i + 1) =~= es.take(i as int).push(es[i as int]));
        i += 1;
    }
    assert(es.take(n as int) =~= es);
    let (bytes, meta) = builder.finish();
    Ok((bytes, meta))
}

/// The tables of the version that a new table at level 0 leaves: the new
/// table, then the tables that were there.
pub proof fn lemma_with_l0_tables(v: VersionView, version_id: u64, t: TableView)
    requires
        v.levels.len() >= 1,
    ensures
        version_tables(with_l0(v, version_id, t)) == seq![t] + version_tables(v),
{
    lemma_with_l0_tables_upto(v, version_id, t, v.levels.len() as int);
}

proof fn lemma_with_l0_tables_upto(v: VersionView, version_id: u64, t: TableView, n: int)
    requires
        1 <= n <= v.levels.len(),
    ensures
        tables_upto(with_l0(v, version_id, t).levels, n) == seq![t] + tables_upto(v.levels, n),
    decreases n,
{
    let w = with_l0(v, version_id, t);
    if n == 1 {
        assert(tables_upto(w.levels, 0) =~= Seq::<TableView>::empty());
        assert(tables_upto(v.levels, 0) =~= Seq::<TableView>::empty());
        assert(tables_upto(w.levels, 1) =~= seq![t] + tables_upto(v.levels, 1));
    } else {
        lemma_with_l0_tables_upto(v, version_id, t, n - 1);
        assert(w.levels[n - 1] == v.levels[n - 1]);
        assert(tables_upto(w.levels, n) =~= seq![t] + tables_upto(v.levels, n));
    }
}

/// Every id that is in use, or scheduled for deletion, lies below `bound`.
pub open spec fn ids_below(current: VersionView, pins: Seq<PinView>, obsolete: Seq<u64>, bound: u64) -> bool {
    forall|id: u64| #[trigger] live(current, pins, id) || obsolete.contains(id) ==> id < bound
}

/// Every entry of every table carries an epoch below `bound`.
pub open spec fn epochs_below(tables: Seq<TableView>, bound: u64) -> bool {
    forall|i: int, j: int|
        0 <= i < tables.len() && 0 <= j < table_entries(tables[i]).len() ==> spec_epoch_of(
            #[trigger] table_entries(tables[i])[j].0,
        ) < bound
}

/// How a run of the compactor ended.
#[derive(Clone, Copy, Debug, PartialEq, Eq, Structural)]
pub enum CompactionOutcome {
    /// The version asked for no compaction.
    Idle,
    /// The outputs took the place of the inputs in a new version.
    Committed,
    /// The version manager refused the compaction; nothing changed.
    Conflicted,
}

/// The compaction that a run of the compactor takes up: with `force`, all
/// of a non-empty level 0; else the one that the version asks for.
pub open spec fn task_for(v: VersionView, table_size: u32, force: bool) -> Option<TaskView> {
    if force && v.levels[0].len() > 0 {
        Some(pick_level0(v))
    } else {
        spec_pick(v, table_size)
    }
}

/// `after` is what a compaction leaves of `before`: some tables of one level
/// and of the level below it are gone, and in the level below stand intact
/// tables that hold what the merge of the tables that are gone keeps, given
/// the epoch `mark` below which no reader looks.
pub open spec fn is_compaction_of(before: VersionView, after: VersionView, mark: u64, bound: u64) -> bool {
    exists|source: int, source_ids: Seq<u64>, target_ids: Seq<u64>, outputs: Seq<TableView>|
        {
            &&& 0 <= source
            &&& source + 1 < NUM_LEVELS
            &&& after == #[trigger] compacted(
                before,
                (before.id + 1) as u64,
                source,
                source_ids,
                target_ids,
                outputs,
            )
            &&& tables_intact(outputs)
            &&& (Stream { items: all_entries(outputs), fault: None }) == spec_merge(
                task_inputs(before, source, source_ids, target_ids),
                Rules {
                    watermark: mark,
                    others: other_spans(before, source, source_ids, target_ids),
                    epoch_bound: bound, lowest: source + 2 == NUM_LEVELS
                },
            )
        }
}

/// The tables that a compaction merges.
pub open spec fn task_tables(v: VersionView, t: TaskView) -> Seq<TableView> {
    task_inputs(v, t.source, t.source_ids, t.target_ids)
}

/// The tables that the compaction that is due merges; none where none is due.
pub open spec fn due_inputs(v: VersionView, table_size: u32, force: bool) -> Seq<TableView> {
    match task_for(v, table_size, force) {
        Some(t) => task_tables(v, t),
        None => Seq::empty(),
    }
}

/// What a compaction keeps by: the epoch `mark` below which no reader
/// looks, the key ranges of the tables that stay, the epoch that no entry
/// reaches, and whether it merges into the lowest level.
pub open spec fn task_rules(v: VersionView, t: TaskView, mark: u64, bound: u64) -> Rules {
    Rules {
        watermark: mark,
        others: other_spans(v, t.source, t.source_ids, t.target_ids),
        epoch_bound: bound,
        lowest: t.source + 2 == NUM_LEVELS,
    }
}

/// The pin that a reader of `v` holds.
pub open spec fn pin_of(v: VersionView) -> PinView {
    PinView { version_id: v.id, epoch: v.max_epoch, table_ids: version_ids(v) }
}

/// The entries of each of `tables`.
pub open spec fn table_lists(tables: Seq<TableView>) -> Seq<Seq<EntryView>> {
    Seq::new(tables.len(), |i: int| table_entries(tables[i]))
}

/// `outs` are the tables that a merge which kept `kept` wrote: intact,
/// numbered from `first` up to `top`, and holding what was kept, in order,
/// each table as far as the options say.
pub open spec fn merge_outputs(
    outs: Seq<TableView>,
    kept: Stream,
    first: u64,
    top: u64,
    options: TableBuilderOptions,
) -> bool {
    &&& tables_intact(outs)
    &&& kept == (Stream { items: all_entries(outs), fault: None })
    &&& table_lists(outs) == spec_parts(options, kept.items)
    &&& !run_stuck(options, kept.items)
    &&& top == first + outs.len()
    &&& forall|i: int| 0 <= i < outs.len() ==> (#[trigger] outs[i]).id == first + i
}

/// The outcome `r` of offering the outputs `outs` of the compaction `t` to
/// the version manager while the compactor reads `before`: committed where
/// the version manager allows it, and then `after` holds the outputs in
/// place of the inputs; else refused, and nothing changed.
pub open spec fn committed_as(
    before: VersionView,
    pins: Seq<PinView>,
    obsolete: Seq<u64>,
    t: TaskView,
    outs: Seq<TableView>,
    after: VersionView,
    r: Result<CompactionOutcome, HummockError>,
) -> bool {
    let allowed = commit_allowed(
        before,
        pins.push(pin_of(before)),
        obsolete,
        t.source,
        t.source_ids,
        t.target_ids,
        outs,
    );
    if allowed {
        r == Ok::<CompactionOutcome, HummockError>(CompactionOutcome::Committed) && after
            == compacted(before, (before.id + 1) as u64, t.source, t.source_ids, t.target_ids, outs)
    } else {
        r == Ok::<CompactionOutcome, HummockError>(CompactionOutcome::Conflicted) && after == before
    }
}

/// What a run of the compactor on the compaction `t` comes to when the
/// object store answers `fetched` for its tables. A failed fetch or a
/// table that does not open ends it with that error. A fault that the merge
/// meets ends it with that fault. The other errors are `InvalidSST` where
/// an entry that is kept continues a user key in a table without room,
/// `ObjectStoreError` where an output is not stored, and `Aborted` where
/// the ids run out. Else the outputs hold what the merge keeps, cut into
/// tables as the options say, and the version manager decides. Once the
/// version numbers have run out, every run that finds a compaction ends
/// with `Aborted`.
pub open spec fn compaction_step(
    before: VersionView,
    pins: Seq<PinView>,
    obsolete: Seq<u64>,
    first: u64,
    t: TaskView,
    fetched: Seq<Option<Seq<u8>>>,
    after: VersionView,
    top: u64,
    objects: Map<Seq<char>, Seq<u8>>,
    stored: Map<Seq<char>, Seq<u8>>,
    remote_dir: Seq<char>,
    options: TableBuilderOptions,
    r: Result<CompactionOutcome, HummockError>,
) -> bool {
    if before.id == u64::MAX {
        r == Err::<CompactionOutcome, HummockError>(HummockError::Aborted)
    } else {
        compaction_result(before, pins, obsolete, first, t, fetched, after, top, objects, stored, remote_dir, options, r)
    }
}

/// What a run of the compactor comes to while version numbers are left.
pub open spec fn compaction_result(
    before: VersionView,
    pins: Seq<PinView>,
    obsolete: Seq<u64>,
    first: u64,
    t: TaskView,
    fetched: Seq<Option<Seq<u8>>>,
    after: VersionView,
    top: u64,
    objects: Map<Seq<char>, Seq<u8>>,
    stored: Map<Seq<char>, Seq<u8>>,
    remote_dir: Seq<char>,
    options: TableBuilderOptions,
    r: Result<CompactionOutcome, HummockError>,
) -> bool {
    match spec_load(table_ids(task_tables(before, t)), fetched) {
        Err(e) => r == Err::<CompactionOutcome, HummockError>(e),
        Ok(tables) => {
            let kept = spec_merge(tables, task_rules(before, t, watermark(before, pins), first));
            match r {
                Err(e) => {
                    ||| kept.fault == Some(e)
                    ||| e == HummockError::InvalidSST && (kept.items.len() > MAX_SURE_ENTRIES
                        || !short_keys(kept.items)) && run_stuck(
                        options,
                        kept.items,
                    )
                    ||| e == HummockError::ObjectStoreError && kept.fault is None && kept.items.len() > 0
                    ||| e == HummockError::Aborted && kept.fault is None && top == u64::MAX
                },
                Ok(_) => exists|outs: Seq<TableView>| #[trigger]
                    merge_outputs(outs, kept, first, top, options) && committed_as(
                        before,
                        pins,
                        obsolete,
                        t,
                        outs,
                        after,
                        r,
                    ) && stored_as(objects, stored, remote_dir, outs, after, pins),
            }
        },
    }
}

/// The objects once the first `n` of `tables` are stored under
/// `remote_dir`, each under the path of its id.
pub open spec fn with_tables(
    objects: Map<Seq<char>, Seq<u8>>,
    remote_dir: Seq<char>,
    tables: Seq<TableView>,
    n: int,
) -> Map<Seq<char>, Seq<u8>>
    decreases n,
{
    if n <= 0 {
        objects
    } else {
        with_tables(objects, remote_dir, tables, n - 1).insert(
            spec_table_path(remote_dir, tables[n - 1].id),
            tables[n - 1].data,
        )
    }
}

/// What is stored once the first tables are written does not depend on the
/// tables behind them.
pub proof fn lemma_with_tables_prefix(
    objects: Map<Seq<char>, Seq<u8>>,
    remote_dir: Seq<char>,
    a: Seq<TableView>,
    b: Seq<TableView>,
    n: int,
)
    requires
        0 <= n <= a.len() <= b.len(),
        forall|i: int| 0 <= i < a.len() ==> a[i] == b[i],
    ensures
        with_tables(objects, remote_dir, b, n) == with_tables(objects, remote_dir, a, n),
    decreases n,
{
    if n > 0 {
        lemma_with_tables_prefix(objects, remote_dir, a, b, n - 1);
    }
}

/// The objects `after` a run of the compactor that stored the tables
/// `outs`: what was there `before`, the outputs, and without some tables
/// that neither the version `v` nor a pin holds.
pub open spec fn stored_as(
    before: Map<Seq<char>, Seq<u8>>,
    after: Map<Seq<char>, Seq<u8>>,
    remote_dir: Seq<char>,
    outs: Seq<TableView>,
    v: VersionView,
    pins: Seq<PinView>,
) -> bool {
    exists|gone: Seq<u64>|
        after == #[trigger] without_tables(
            with_tables(before, remote_dir, outs, outs.len() as int),
            remote_dir,
            gone,
            gone.len() as int,
        ) && forall|i: int| 0 <= i < gone.len() ==> !live(v, pins, #[trigger] gone[i])
}

/// Deleting tables that nothing holds, after `outs` were stored, leaves the
/// objects that a run of the compactor is said to leave.
pub proof fn lemma_stored_as(
    before: Map<Seq<char>, Seq<u8>>,
    mid: Map<Seq<char>, Seq<u8>>,
    after: Map<Seq<char>, Seq<u8>>,
    remote_dir: Seq<char>,
    outs: Seq<TableView>,
    v: VersionView,
    pins: Seq<PinView>,
)
    requires
        mid == with_tables(before, remote_dir, outs, outs.len() as int),
        exists|gone: Seq<u64>|
            after == #[trigger] without_tables(mid, remote_dir, gone, gone.len() as int) && forall|i: int|
                0 <= i < gone.len() ==> !live(v, pins, #[trigger] gone[i]),
    ensures
        stored_as(before, after, remote_dir, outs, v, pins),
{
    let gone = choose|gone: Seq<u64>|
        after == #[trigger] without_tables(mid, remote_dir, gone, gone.len() as int) && forall|i: int|
            0 <= i < gone.len() ==> !live(v, pins, #[trigger] gone[i]);
    assert(after == without_tables(
        with_tables(before, remote_dir, outs, outs.len() as int),
        remote_dir,
        gone,
        gone.len() as int,
    ));
}

/// The entries of tables made from finished parts are the entries of the parts.
pub proof fn lemma_parts_tables(
    parts: Seq<(Vec<u8>, TableMeta)>,
    tables: Seq<TableView>,
    bits_per_key: u32,
    bound: u64,
    n: int,
)
    requires
        0 <= n <= parts.len(),
        parts.len() == tables.len(),
        forall|i: int| 0 <= i < parts.len() ==> part_ok(#[trigger] parts[i], bits_per_key, bound),
        forall|i: int|
            0 <= i < parts.len() ==> (#[trigger] tables[i]).data == parts[i].0@ && tables[i].meta
                == parts[i].1@,
    ensures
        all_entries_upto(tables, n) == parts_entries(parts, n),
        forall|i: int| 0 <= i < n ==> table_intact(#[trigger] tables[i]),
        forall|i: int, j: int|
            0 <= i < n && 0 <= j < table_entries(tables[i]).len() ==> spec_epoch_of(
                #[trigger] table_entries(tables[i])[j].0,
            ) < bound,
    decreases n,
{
    if n > 0 {
        lemma_parts_tables(parts, tables, bits_per_key, bound, n - 1);
        let t = tables[n - 1];
        assert(part_ok(parts[n - 1], bits_per_key, bound));
        let es = spec_table_entries(t.data, t.meta).unwrap();
        lemma_built_table_intact(t, es, bits_per_key);
    }
}

/// What is left of `objects` once the tables of the first `n` of `ids` are
/// removed from under `remote_dir`.
pub open spec fn without_tables(
    objects: Map<Seq<char>, Seq<u8>>,
    remote_dir: Seq<char>,
    ids: Seq<u64>,
    n: int,
) -> Map<Seq<char>, Seq<u8>>
    decreases n,
{
    if n <= 0 {
        objects
    } else {
        without_tables(objects, remote_dir, ids, n - 1).remove(spec_table_path(remote_dir, ids[n - 1]))
    }
}

/// What `before` holds under `path`, `after` holds too.
pub open spec fn object_kept(
    before: Map<Seq<char>, Seq<u8>>,
    after: Map<Seq<char>, Seq<u8>>,
    path: Seq<char>,
) -> bool {
    before.contains_key(path) ==> after.contains_key(path) && after[path] == before[path]
}

/// The object of every table that `v` or a pin holds is kept.
pub open spec fn live_kept(
    before: Map<Seq<char>, Seq<u8>>,
    after: Map<Seq<char>, Seq<u8>>,
    remote_dir: Seq<char>,
    v: VersionView,
    pins: Seq<PinView>,
) -> bool {
    forall|id: u64|
        live(v, pins, id) ==> #[trigger] object_kept(before, after, spec_table_path(remote_dir, id))
}

/// The object of every table with an id below `bound` is kept.
pub open spec fn old_kept(
    before: Map<Seq<char>, Seq<u8>>,
    after: Map<Seq<char>, Seq<u8>>,
    remote_dir: Seq<char>,
    bound: u64,
) -> bool {
    forall|id: u64| id < bound ==> #[trigger] object_kept(before, after, spec_table_path(remote_dir, id))
}

/// The object of every table with an id below `bound` that `v` or a pin
/// holds is kept.
pub open spec fn held_kept(
    before: Map<Seq<char>, Seq<u8>>,
    after: Map<Seq<char>, Seq<u8>>,
    remote_dir: Seq<char>,
    v: VersionView,
    pins: Seq<PinView>,
    bound: u64,
) -> bool {
    forall|id: u64|
        id < bound && live(v, pins, id) ==> #[trigger] object_kept(
            before,
            after,
            spec_table_path(remote_dir, id),
        )
}

/// Removing tables keeps the object of every other table.
pub proof fn lemma_without_keeps(
    objects: Map<Seq<char>, Seq<u8>>,
    remote_dir: Seq<char>,
    gone: Seq<u64>,
    n: int,
    id: u64,
)
    requires
        0 <= n <= gone.len(),
        forall|i: int| 0 <= i < n ==> gone[i] != id,
    ensures
        object_kept(
            objects,
            without_tables(objects, remote_dir, gone, n),
            spec_table_path(remote_dir, id),
        ),
    decreases n,
{
    if n > 0 {
        lemma_without_keeps(objects, remote_dir, gone, n - 1, id);
        if spec_table_path(remote_dir, gone[n - 1]) == spec_table_path(remote_dir, id) {
            crate::object::lemma_table_path_injective(remote_dir, gone[n - 1], id);
        }
    }
}

/// Removing tables that nothing holds keeps the object of every table that
/// is held.
pub proof fn lemma_without_live_kept(
    objects: Map<Seq<char>, Seq<u8>>,
    remote_dir: Seq<char>,
    gone: Seq<u64>,
    v: VersionView,
    pins: Seq<PinView>,
)
    requires
        forall|i: int| 0 <= i < gone.len() ==> !live(v, pins, #[trigger] gone[i]),
    ensures
        live_kept(
            objects,
            without_tables(objects, remote_dir, gone, gone.len() as int),
            remote_dir,
            v,
            pins,
        ),
{
    let after = without_tables(objects, remote_dir, gone, gone.len() as int);
    assert forall|id: u64| live(v, pins, id) implies #[trigger] object_kept(
        objects,
        after,
        spec_table_path(remote_dir, id),
    ) by {
        lemma_without_keeps(objects, remote_dir, gone, gone.len() as int, id);
    }
}

/// Storing a table under a new id keeps the object of every older table.
pub proof fn lemma_insert_old_kept(
    before: Map<Seq<char>, Seq<u8>>,
    objects: Map<Seq<char>, Seq<u8>>,
    remote_dir: Seq<char>,
    id: u64,
    data: Seq<u8>,
    bound: u64,
)
    requires
        id >= bound,
        old_kept(before, objects, remote_dir, bound),
    ensures
        old_kept(before, objects.insert(spec_table_path(remote_dir, id), data), remote_dir, bound),
{
    let after = objects.insert(spec_table_path(remote_dir, id), data);
    assert forall|x: u64| x < bound implies #[trigger] object_kept(
        before,
        after,
        spec_table_path(remote_dir, x),
    ) by {
        assert(object_kept(before, objects, spec_table_path(remote_dir, x)));
        if spec_table_path(remote_dir, id) == spec_table_path(remote_dir, x) {
            crate::object::lemma_table_path_injective(remote_dir, id, x);
        }
    }
}

/// What is kept twice over is kept.
pub proof fn lemma_held_kept(
    a: Map<Seq<char>, Seq<u8>>,
    b: Map<Seq<char>, Seq<u8>>,
    c: Map<Seq<char>, Seq<u8>>,
    remote_dir: Seq<char>,
    v: VersionView,
    pins: Seq<PinView>,
    bound: u64,
)
    requires
        old_kept(a, b, remote_dir, bound),
        live_kept(b, c, remote_dir, v, pins),
    ensures
        held_kept(a, c, remote_dir, v, pins, bound),
{
    assert forall|id: u64| id < bound && live(v, pins, id) implies #[trigger] object_kept(
        a,
        c,
        spec_table_path(remote_dir, id),
    ) by {
        assert(object_kept(a, b, spec_table_path(remote_dir, id)));
        assert(object_kept(b, c, spec_table_path(remote_dir, id)));
    }
}

/// The object store has acknowledged `data` under `path`, and nothing
/// else since.
pub open spec fn object_is(objects: Map<Seq<char>, Seq<u8>>, path: Seq<char>, data: Seq<u8>) -> bool {
    objects.contains_key(path) && objects[path] == data
}

/// The object store has acknowledged the bytes of every table that `v`
/// holds, under the path of the table.
pub open spec fn version_stored(objects: Map<Seq<char>, Seq<u8>>, remote_dir: Seq<char>, v: VersionView) -> bool {
    forall|l: int, i: int|
        0 <= l < v.levels.len() && 0 <= i < v.levels[l].len() ==> object_is(
            objects,
            spec_table_path(remote_dir, (#[trigger] v.levels[l][i]).id),
            v.levels[l][i].data,
        )
}

/// The tables of a version stay stored where the object of every table
/// that is held is kept.
pub proof fn lemma_stored_live_kept(
    before: Map<Seq<char>, Seq<u8>>,
    after: Map<Seq<char>, Seq<u8>>,
    remote_dir: Seq<char>,
    v: VersionView,
    pins: Seq<PinView>,
)
    requires
        version_stored(before, remote_dir, v),
        live_kept(before, after, remote_dir, v, pins),
    ensures
        version_stored(after, remote_dir, v),
{
    assert forall|l: int, i: int| 0 <= l < v.levels.len() && 0 <= i < v.levels[l].len() implies object_is(
        after,
        spec_table_path(remote_dir, (#[trigger] v.levels[l][i]).id),
        v.levels[l][i].data,
    ) by {
        let t = v.levels[l][i];
        assert(version_has(v, t.id));
        assert(live(v, pins, t.id));
        assert(object_kept(before, after, spec_table_path(remote_dir, t.id)));
    }
}

/// The tables of a version stay stored where the object of every table
/// with an id below `bound` is kept, and the ids in use lie below `bound`.
pub proof fn lemma_stored_old_kept(
    before: Map<Seq<char>, Seq<u8>>,
    after: Map<Seq<char>, Seq<u8>>,
    remote_dir: Seq<char>,
    v: VersionView,
    pins: Seq<PinView>,
    obsolete: Seq<u64>,
    bound: u64,
)
    requires
        version_stored(before, remote_dir, v),
        old_kept(before, after, remote_dir, bound),
        ids_below(v, pins, obsolete, bound),
    ensures
        version_stored(after, remote_dir, v),
{
    assert forall|l: int, i: int| 0 <= l < v.levels.len() && 0 <= i < v.levels[l].len() implies object_is(
        after,
        spec_table_path(remote_dir, (#[trigger] v.levels[l][i]).id),
        v.levels[l][i].data,
    ) by {
        let t = v.levels[l][i];
        assert(version_has(v, t.id));
        assert(live(v, pins, t.id));
        assert(object_kept(before, after, spec_table_path(remote_dir, t.id)));
    }
}

/// A stored table at the front of level 0 leaves the version stored.
pub proof fn lemma_stored_with_l0(
    objects: Map<Seq<char>, Seq<u8>>,
    remote_dir: Seq<char>,
    v: VersionView,
    version_id: u64,
    t: TableView,
)
    requires
        v.levels.len() >= 1,
        version_stored(objects, remote_dir, v),
        object_is(objects, spec_table_path(remote_dir, t.id), t.data),
    ensures
        version_stored(objects, remote_dir, with_l0(v, version_id, t)),
{
    let w = with_l0(v, version_id, t);
    assert forall|l: int, i: int| 0 <= l < w.levels.len() && 0 <= i < w.levels[l].len() implies object_is(
        objects,
        spec_table_path(remote_dir, (#[trigger] w.levels[l][i]).id),
        w.levels[l][i].data,
    ) by {
        if l == 0 {
            if i > 0 {
                assert(w.levels[0][i] == v.levels[0][i - 1]);
            }
        } else {
            assert(w.levels[l][i] == v.levels[l][i]);
        }
    }
}

/// The tables that were stored are in the object store, each under its path.
pub proof fn lemma_with_tables_stored(
    objects: Map<Seq<char>, Seq<u8>>,
    remote_dir: Seq<char>,
    outs: Seq<TableView>,
    n: int,
    first: u64,
)
    requires
        0 <= n <= outs.len(),
        forall|i: int| 0 <= i < outs.len() ==> (#[trigger] outs[i]).id == first + i,
    ensures
        forall|i: int|
            0 <= i < n ==> object_is(
                with_tables(objects, remote_dir, outs, n),
                spec_table_path(remote_dir, (#[trigger] outs[i]).id),
                outs[i].data,
            ),
    decreases n,
{
    if n > 0 {
        lemma_with_tables_stored(objects, remote_dir, outs, n - 1, first);
        let prev = with_tables(objects, remote_dir, outs, n - 1);
        let cur = with_tables(objects, remote_dir, outs, n);
        assert forall|i: int| 0 <= i < n implies object_is(
            cur,
            spec_table_path(remote_dir, (#[trigger] outs[i]).id),
            outs[i].data,
        ) by {
            if i < n - 1 {
                assert(object_is(prev, spec_table_path(remote_dir, outs[i].id), outs[i].data));
                if spec_table_path(remote_dir, outs[i].id) == spec_table_path(remote_dir, outs[n - 1].id) {
                    crate::object::lemma_table_path_injective(remote_dir, outs[i].id, outs[n - 1].id);
                }
            }
        }
    }
}

/// A compaction whose outputs are stored leaves the version stored.
pub proof fn lemma_stored_compacted(
    objects: Map<Seq<char>, Seq<u8>>,
    remote_dir: Seq<char>,
    v: VersionView,
    version_id: u64,
    source: int,
    source_ids: Seq<u64>,
    target_ids: Seq<u64>,
    outs: Seq<TableView>,
)
    requires
        0 <= source,
        source + 1 < v.levels.len(),
        version_stored(objects, remote_dir, v),
        forall|i: int|
            0 <= i < outs.len() ==> object_is(
                objects,
                spec_table_path(remote_dir, (#[trigger] outs[i]).id),
                outs[i].data,
            ),
    ensures
        version_stored(objects, remote_dir, compacted(v, version_id, source, source_ids, target_ids, outs)),
{
    let w = compacted(v, version_id, source, source_ids, target_ids, outs);
    lemma_compacted_members(v, version_id, source, source_ids, target_ids, outs);
    assert forall|l: int, i: int| 0 <= l < w.levels.len() && 0 <= i < w.levels[l].len() implies object_is(
        objects,
        spec_table_path(remote_dir, (#[trigger] w.levels[l][i]).id),
        w.levels[l][i].data,
    ) by {
        let t = w.levels[l][i];
        if outs.contains(t) {
            let k = choose|k: int| 0 <= k < outs.len() && outs[k] == t;
            assert(object_is(objects, spec_table_path(remote_dir, outs[k].id), outs[k].data));
        } else {
            assert(version_holds(v, t));
            let (a, b) = choose|a: int, b: int|
                0 <= a < v.levels.len() && 0 <= b < v.levels[a].len() && #[trigger] v.levels[a][b] == t;
            assert(object_is(objects, spec_table_path(remote_dir, v.levels[a][b].id), v.levels[a][b].data));
        }
    }
}

/// The object store has acknowledged the bytes of every one of `tables`,
/// under the path of the table.
pub open spec fn tables_stored(
    objects: Map<Seq<char>, Seq<u8>>,
    remote_dir: Seq<char>,
    tables: Seq<TableView>,
) -> bool {
    forall|i: int|
        0 <= i < tables.len() ==> object_is(
            objects,
            spec_table_path(remote_dir, (#[trigger] tables[i]).id),
            tables[i].data,
        )
}

/// What an object store that holds `objects` answers when it is asked for
/// `tables`.
pub open spec fn answers_of(
    objects: Map<Seq<char>, Seq<u8>>,
    remote_dir: Seq<char>,
    tables: Seq<TableView>,
) -> Seq<Option<Seq<u8>>> {
    Seq::new(
        tables.len(),
        |i: int|
            if objects.contains_key(spec_table_path(remote_dir, tables[i].id)) {
                Some(objects[spec_table_path(remote_dir, tables[i].id)])
            } else {
                None
            },
    )
}

/// A store that answers with what it has acknowledged answers a reader of
/// stored tables with the bytes that were written.
pub proof fn lemma_stored_answers(
    objects: Map<Seq<char>, Seq<u8>>,
    remote_dir: Seq<char>,
    tables: Seq<TableView>,
)
    requires
        tables_stored(objects, remote_dir, tables),
    ensures
        faithful(tables, answers_of(objects, remote_dir, tables)),
{
    let fetched = answers_of(objects, remote_dir, tables);
    assert forall|i: int| 0 <= i < tables.len() implies #[trigger] fetched[i] == Some(tables[i].data) by {
        assert(object_is(objects, spec_table_path(remote_dir, tables[i].id), tables[i].data));
    }
}

/// Snapshot isolation, for the objects: the tables of a snapshot stay
/// stored, with their bytes, through whatever keeps their objects. Writes
/// keep the object of every table that was numbered before them, and the
/// compactor that of every table that a pin holds.
pub proof fn lemma_stored_stay(
    before: Map<Seq<char>, Seq<u8>>,
    after: Map<Seq<char>, Seq<u8>>,
    remote_dir: Seq<char>,
    tables: Seq<TableView>,
)
    requires
        tables_stored(before, remote_dir, tables),
        forall|i: int|
            0 <= i < tables.len() ==> object_kept(
                before,
                after,
                spec_table_path(remote_dir, (#[trigger] tables[i]).id),
            ),
    ensures
        tables_stored(after, remote_dir, tables),
        answers_of(after, remote_dir, tables) == answers_of(before, remote_dir, tables),
{
    assert forall|i: int| 0 <= i < tables.len() implies object_is(
        after,
        spec_table_path(remote_dir, (#[trigger] tables[i]).id),
        tables[i].data,
    ) by {
        assert(object_is(before, spec_table_path(remote_dir, tables[i].id), tables[i].data));
        assert(object_kept(before, after, spec_table_path(remote_dir, tables[i].id)));
    }
    assert(answers_of(after, remote_dir, tables) =~= answers_of(before, remote_dir, tables));
}

/// The tables of a stored version are stored.
pub proof fn lemma_version_stored_tables(
    objects: Map<Seq<char>, Seq<u8>>,
    remote_dir: Seq<char>,
    v: VersionView,
)
    requires
        version_stored(objects, remote_dir, v),
    ensures
        tables_stored(objects, remote_dir, version_tables(v)),
{
    lemma_version_tables_hold(v);
    let tables = version_tables(v);
    assert forall|k: int| 0 <= k < tables.len() implies object_is(
        objects,
        spec_table_path(remote_dir, (#[trigger] tables[k]).id),
        tables[k].data,
    ) by {
        assert(version_holds(v, tables[k]));
        let (l, i) = choose|l: int, i: int|
            0 <= l < v.levels.len() && 0 <= i < v.levels[l].len() && #[trigger] v.levels[l][i] == tables[k];
        assert(object_is(objects, spec_table_path(remote_dir, v.levels[l][i].id), v.levels[l][i].data));
    }
}

/// The state store.
pub struct HummockStorage<S: ObjectStore> {
    options: HummockOptions,
    unique_id: u64,
    version_manager: VersionManager,
    store: S,
    acknowledged: Ghost<Map<Seq<char>, Seq<u8>>>,
    stats: Option<HummockStats>,
    compaction_pending: bool,
}

impl<S: ObjectStore> HummockStorage<S> {
    /// The current version.
    pub closed spec fn current(&self) -> VersionView {
        self.version_manager.current()
    }

    /// The pins on versions.
    pub closed spec fn pins(&self) -> Seq<PinView> {
        self.version_manager.pins()
    }

    /// The tables scheduled for deletion.
    pub closed spec fn obsolete(&self) -> Seq<u64> {
        self.version_manager.obsolete()
    }

    /// The id that the store hands out next: to a batch as its epoch, to a
    /// version or to a table as its id.
    pub closed spec fn next_id(&self) -> u64 {
        self.unique_id
    }

    /// What the object store has acknowledged: the objects that the store
    /// was given and has not been told to delete, each under its path.
    pub closed spec fn objects(&self) -> Map<Seq<char>, Seq<u8>> {
        self.acknowledged@
    }

    /// The object store that the tables are given to.
    pub closed spec fn store(&self) -> S {
        self.store
    }

    /// The options of the store.
    pub closed spec fn options(&self) -> HummockOptions {
        self.options
    }

    /// The bytes counted so far, if the store counts.
    pub closed spec fn put_bytes(&self) -> Option<u64> {
        match self.stats {
            Some(s) => Some(s.put_bytes),
            None => None,
        }
    }

    /// Whether a notice for the compactor is waiting.
    pub closed spec fn compaction_pending(&self) -> bool {
        self.compaction_pending
    }

    /// Whether the store can still number a batch and a version.
    pub open spec fn has_ids_left(&self) -> bool {
        self.next_id() < u64::MAX && self.current().id < u64::MAX
    }

    /// The version manager is well formed, every id in use lies below the
    /// next id, and the current version is intact and holds no epoch from
    /// the next id on.
    pub closed spec fn wf(&self) -> bool {
        &&& self.version_manager.wf()
        &&& self.version_manager.current().max_epoch <= self.unique_id
        &&& ids_below(
            self.version_manager.current(),
            self.version_manager.pins(),
            self.version_manager.obsolete(),
            self.unique_id,
        )
        &&& version_intact(self.version_manager.current())
        &&& epochs_below(version_tables(self.version_manager.current()), self.unique_id)
        &&& (self.stats is Some <==> self.options.stats_enabled)
        &&& version_stored(self.acknowledged@, self.options.remote_dir@, self.version_manager.current())
    }

    /// What `wf` says of the current version.
    pub proof fn lemma_wf(&self)
        requires
            self.wf(),
        ensures
            version_intact(self.current()),
            epochs_below(version_tables(self.current()), self.next_id()),
            self.current().max_epoch <= self.next_id(),
            ids_below(self.current(), self.pins(), self.obsolete(), self.next_id()),
            version_stored(self.objects(), self.options().remote_dir@, self.current()),
            tables_stored(self.objects(), self.options().remote_dir@, version_tables(self.current())),
    {
        lemma_version_stored_tables(self.objects(), self.options().remote_dir@, self.current());
    }

    /// A store over `store`, without tables.
    pub fn new(store: S, options: HummockOptions) -> (r: HummockStorage<S>)
        ensures
            r.wf(),
            r.has_ids_left(),
            version_keys_distinct(r.current()),
            r.next_id() == 0,
            r.current().id == 0,
            r.current().max_epoch == 0,
            version_tables(r.current()).len() == 0,
            r.pins().len() == 0,
            r.obsolete().len() == 0,
            r.objects() == Map::<Seq<char>, Seq<u8>>::empty(),
            r.store() == store,
            r.options() == options,
            r.put_bytes() == if options.stats_enabled {
                Some(0u64)
            } else {
                None::<u64>
            },
            !r.compaction_pending(),
    {
        let stats: Option<HummockStats> = if options.stats_enabled {
            Some(HummockStats { put_bytes: 0 })
        } else {
            None
        };
        let r = HummockStorage {
            options,
            unique_id: 0,
            version_manager: VersionManager::new(),
            store,
            acknowledged: Ghost(Map::empty()),
            stats,
            compaction_pending: false,
        };
        proof {
            r.version_manager.lemma_wf();
            assert forall|id: u64| #[trigger] live(r.current(), r.pins(), id) || r.obsolete().contains(
                id,
            ) implies id < 0 by {
                if crate::version_manager::pinned(r.pins(), id) {
                    assert(false);
                }
            }
        }
        r
    }

    /// What the store counts, if it counts.
    pub fn get_stats_ref(&self) -> (r: Option<&HummockStats>)
        ensures
            match r {
                Some(s) => self.put_bytes() == Some(s.put_bytes),
                None => self.put_bytes() is None,
            },
    {
        self.stats.as_ref()
    }

    /// The options of the store.
    pub fn get_options(&self) -> (r: &HummockOptions)
        ensures
            *r == self.options(),
    {
        &self.options
    }

    /// The object store that the tables are given to.
    pub fn object_store(&self) -> (r: &S)
        ensures
            *r == self.store(),
    {
        &self.store
    }

    /// The id that the store hands out next.
    pub fn next_unique_id(&self) -> (r: u64)
        ensures
            r == self.next_id(),
    {
        self.unique_id
    }

    /// Takes the notice for the compactor, if one is waiting. Notices do
    /// not pile up: many writes leave one notice.
    pub fn take_compaction_notice(&mut self) -> (r: bool)
        requires
            old(self).wf(),
        ensures
            final(self).wf(),
            r == old(self).compaction_pending(),
            !final(self).compaction_pending(),
            final(self).current() == old(self).current(),
            final(self).pins() == old(self).pins(),
            final(self).obsolete() == old(self).obsolete(),
            final(self).next_id() == old(self).next_id(),
            final(self).objects() == old(self).objects(),
            final(self).store() == old(self).store(),
            final(self).put_bytes() == old(self).put_bytes(),
            final(self).options() == old(self).options(),
    {
        let r: bool = self.compaction_pending;
        self.compaction_pending = false;
        r
    }

    /// Pins the current version and returns a snapshot of it.
    pub fn get_snapshot(&mut self) -> (r: HummockSnapshot)
        requires
            old(self).wf(),
        ensures
            final(self).wf(),
            r.wf(),
            r.version@ == old(self).current(),
            r.epoch == old(self).current().max_epoch,
            version_intact(r.version@),
            tables_stored(
                final(self).objects(),
                final(self).options().remote_dir@,
                version_tables(r.version@),
            ),
            final(self).current() == old(self).current(),
            final(self).options() == old(self).options(),
            final(self).next_id() == old(self).next_id(),
            final(self).objects() == old(self).objects(),
            final(self).store() == old(self).store(),
            final(self).obsolete() == old(self).obsolete(),
            final(self).put_bytes() == old(self).put_bytes(),
            final(self).compaction_pending() == old(self).compaction_pending(),
            final(self).pins() == old(self).pins().push(
                PinView {
                    version_id: old(self).current().id,
                    epoch: old(self).current().max_epoch,
                    table_ids: crate::version::version_ids(old(self).current()),
                },
            ),
    {
        proof {
            self.version_manager.lemma_wf();
        }
        let ghost old_pins = self.version_manager.pins();
        let version: Version = self.version_manager.pin();
        proof {
            lemma_version_stored_tables(
                self.acknowledged@,
                self.options.remote_dir@,
                self.version_manager.current(),
            );
            self.version_manager.lemma_wf();
            crate::version_manager::lemma_version_ids_has(self.version_manager.current());
            let new_pins = self.version_manager.pins();
            assert forall|id: u64| #[trigger] live(self.current(), new_pins, id)
                || self.obsolete().contains(id) implies id < self.unique_id by {
                if crate::version_manager::pinned(new_pins, id) {
                    let k = choose|k: int| 0 <= k < new_pins.len() && (#[trigger] new_pins[k]).table_ids.contains(id);
                    if k < old_pins.len() {
                        assert(new_pins[k] == old_pins[k]);
                        assert(crate::version_manager::pinned(old_pins, id));
                        assert(live(self.current(), old_pins, id));
                    } else {
                        assert(version_has(self.current(), id));
                        assert(live(self.current(), old_pins, id));
                    }
                } else {
                    assert(live(self.current(), old_pins, id) || self.obsolete().contains(id));
                }
            }
            assert(ids_below(self.current(), new_pins, self.obsolete(), self.unique_id));
        }
        HummockSnapshot::new(version)
    }

    /// The ids of the tables that a lookup of `key` fetches from the object
    /// store: the tables of the current version whose Bloom filter admits
    /// the key.
    pub fn lookup_ids(&self, key: &[u8]) -> (r: Vec<u64>)
        requires
            self.wf(),
        ensures
            r@ == crate::version::table_ids(admitting(version_tables(self.current()), key@)),
    {
        proof {
            self.version_manager.lemma_wf();
        }
        let snapshot: HummockSnapshot = HummockSnapshot::new(
            self.version_manager.current_version().duplicate(),
        );
        snapshot.lookup_ids(key)
    }

    /// The ids of the tables that a scan fetches from the object store: all
    /// tables of the current version.
    pub fn scan_ids(&self) -> (r: Vec<u64>)
        ensures
            r@ == crate::version::table_ids(version_tables(self.current())),
    {
        self.version_manager.current_version().ids()
    }

    /// The newest value of `key` in the current version, given what the
    /// object store answered for the tables of `lookup_ids(key)`: the bytes
    /// of the put with the largest epoch, or nothing where the key is absent
    /// or where its newest entry is a tombstone. An empty key is refused; a
    /// failed fetch gives `ObjectStoreError`; bytes that are refused give the
    /// error that they are refused with. Where the store answered with the
    /// bytes that were written, the lookup does not fail.
    pub fn get_fetched(&self, key: &[u8], fetched: &Vec<Result<Vec<u8>, HummockError>>) -> (r: Result<
        Option<Vec<u8>>,
        HummockError,
    >)
        requires
            self.wf(),
        ensures
            value_view(r) == read_outcome(
                admitting(version_tables(self.current()), key@),
                fetched_view(fetched@),
                key@,
                self.current().max_epoch,
            ),
            key@.len() > 0 && faithful(
                admitting(version_tables(self.current()), key@),
                fetched_view(fetched@),
            ) ==> value_view(r) == spec_get(
                version_tables(self.current()),
                key@,
                self.current().max_epoch,
            ) && value_view(r) == Ok::<Option<Seq<u8>>, HummockError>(
                crate::read_laws::value_seen(
                    all_entries(version_tables(self.current())),
                    key@,
                    self.current().max_epoch,
                ),
            ),
            (r matches Err(e) ==> e == HummockError::ObjectStoreError || crate::error::read_fault(e)),
    {
        proof {
            self.version_manager.lemma_wf();
            if key@.len() > 0 {
                crate::read_laws::lemma_get_sees_newest(
                    version_tables(self.current()),
                    key@,
                    self.current().max_epoch,
                );
            }
        }
        let snapshot: HummockSnapshot = HummockSnapshot::new(
            self.version_manager.current_version().duplicate(),
        );
        snapshot.get_fetched(key, fetched)
    }

    /// The newest value of `key` in the current version. The tables whose
    /// Bloom filter admits the key are fetched from the object store; what
    /// the store answers decides as `get_fetched` says.
    pub fn get(&self, key: &[u8]) -> (r: Result<Option<Vec<u8>>, HummockError>)
        requires
            self.wf(),
        ensures
            key@.len() == 0 ==> r == Err::<Option<Vec<u8>>, HummockError>(HummockError::InvalidKey),
            key@.len() > 0 && admitting(version_tables(self.current()), key@).len() == 0 ==> r == Ok::<
                Option<Vec<u8>>,
                HummockError,
            >(None),
            key@.len() > 0 ==> exists|fetched: Seq<Option<Seq<u8>>>|
                fetched.len() == admitting(version_tables(self.current()), key@).len() && value_view(r)
                    == #[trigger] read_outcome(
                    admitting(version_tables(self.current()), key@),
                    fetched,
                    key@,
                    self.current().max_epoch,
                ),
            (r matches Err(e) ==> e == HummockError::ObjectStoreError || crate::error::read_fault(e)),
    {
        proof {
            self.version_manager.lemma_wf();
        }
        let snapshot: HummockSnapshot = HummockSnapshot::new(
            self.version_manager.current_version().duplicate(),
        );
        let r = snapshot.get(&self.store, self.options.remote_dir.as_str(), key);
        proof {
            if key@.len() > 0 {
                let wanted = admitting(version_tables(self.current()), key@);
                let epoch = self.current().max_epoch;
                let f = choose|f: Seq<Option<Seq<u8>>>|
                    f.len() == wanted.len() && value_view(r) == #[trigger] read_outcome(wanted, f, key@, epoch);
                assert(value_view(r) == read_outcome(wanted, f, key@, epoch));
            }
        }
        r
    }

    /// All pairs of `range` in the current version, given what the object
    /// store answered for the tables of `scan_ids()`. Where the store
    /// answered with the bytes that were written, the scan does not fail and
    /// yields exactly the user keys of the range whose newest entry is a
    /// put, each once and with the bytes of that put, in ascending order.
    pub fn scan_fetched(&self, range: KeyRange, fetched: &Vec<Result<Vec<u8>, HummockError>>) -> (r:
        Result<Vec<(Vec<u8>, Vec<u8>)>, HummockError>)
        requires
            self.wf(),
        ensures
            scan_view(r) == scan_outcome(
                version_tables(self.current()),
                fetched_view(fetched@),
                range@,
                self.current().max_epoch,
            ),
            faithful(version_tables(self.current()), fetched_view(fetched@)) ==> (r matches Ok(out)
                && pairs_view(out@) == crate::user_iterator::scan_stream(
                version_tables(self.current()),
                range@,
                self.current().max_epoch,
            ).items && crate::scan_laws::ascending(pairs_view(out@)) && (forall|k: int|
                0 <= k < out@.len() ==> crate::user_iterator::in_range(
                    (#[trigger] pairs_view(out@)[k]).0,
                    range@,
                ) && crate::read_laws::value_seen(
                    all_entries(version_tables(self.current())),
                    pairs_view(out@)[k].0,
                    self.current().max_epoch,
                ) == Some(pairs_view(out@)[k].1)) && (forall|uk: Seq<u8>|
                crate::user_iterator::in_range(uk, range@) && crate::read_laws::value_seen(
                    all_entries(version_tables(self.current())),
                    uk,
                    self.current().max_epoch,
                ) is Some ==> #[trigger] crate::scan_laws::yields_key(pairs_view(out@), uk))),
            (r matches Err(e) ==> e == HummockError::ObjectStoreError || crate::error::read_fault(e)),
    {
        proof {
            self.version_manager.lemma_wf();
            let tables = version_tables(self.current());
            let epoch = self.current().max_epoch;
            crate::scan_laws::lemma_scan_sound(tables, range@, epoch);
            assert forall|uk: Seq<u8>|
                crate::user_iterator::in_range(uk, range@) && crate::read_laws::value_seen(
                    all_entries(tables),
                    uk,
                    epoch,
                ) is Some implies #[trigger] crate::scan_laws::yields_key(
                crate::user_iterator::scan_stream(tables, range@, epoch).items,
                uk,
            ) by {
                crate::scan_laws::lemma_scan_complete(tables, range@, epoch, uk);
            }
        }
        let snapshot: HummockSnapshot = HummockSnapshot::new(
            self.version_manager.current_version().duplicate(),
        );
        snapshot.scan_fetched(range, fetched)
    }

    /// All pairs of `range` in the current version. The tables are fetched
    /// from the object store; what the store answers decides as
    /// `scan_fetched` says.
    pub fn scan(&self, range: KeyRange) -> (r: Result<Vec<(Vec<u8>, Vec<u8>)>, HummockError>)
        requires
            self.wf(),
        ensures
            version_tables(self.current()).len() == 0 ==> (r matches Ok(out) && out@.len() == 0),
            exists|fetched: Seq<Option<Seq<u8>>>|
                fetched.len() == version_tables(self.current()).len() && scan_view(r)
                    == #[trigger] scan_outcome(
                    version_tables(self.current()),
                    fetched,
                    range@,
                    self.current().max_epoch,
                ),
            (r matches Err(e) ==> e == HummockError::ObjectStoreError || crate::error::read_fault(e)),
    {
        proof {
            self.version_manager.lemma_wf();
        }
        let snapshot: HummockSnapshot = HummockSnapshot::new(
            self.version_manager.current_version().duplicate(),
        );
        let ghost bounds = range@;
        let r = snapshot.scan(&self.store, self.options.remote_dir.as_str(), range);
        proof {
            let tables = version_tables(self.current());
            let epoch = self.current().max_epoch;
            let f = choose|f: Seq<Option<Seq<u8>>>|
                f.len() == tables.len() && scan_view(r) == #[trigger] scan_outcome(tables, f, bounds, epoch);
            assert(scan_view(r) == scan_outcome(tables, f, bounds, epoch));
        }
        r
    }

    /// An iterator over the user keys of `range` in the current version,
    /// given what the object store answered for the tables of `scan_ids()`.
    pub fn range_scan_fetched(&self, range: KeyRange, fetched: &Vec<Result<Vec<u8>, HummockError>>) -> (r:
        Result<UserKeyIterator, HummockError>)
        requires
            self.wf(),
        ensures
            iterator_outcome(
                version_tables(self.current()),
                fetched_view(fetched@),
                range@,
                self.current().max_epoch,
                r,
            ),
            faithful(version_tables(self.current()), fetched_view(fetched@)) ==> (r matches Ok(it)
                && it.tables() == version_tables(self.current())),
    {
        proof {
            self.version_manager.lemma_wf();
            let tables = version_tables(self.current());
            if faithful(tables, fetched_view(fetched@)) {
                crate::version::lemma_tables_upto_wf(
                    self.current().levels,
                    self.current().levels.len() as int,
                );
                crate::snapshot::lemma_faithful_load(tables, fetched_view(fetched@), tables.len() as int);
            }
        }
        let snapshot: HummockSnapshot = HummockSnapshot::new(
            self.version_manager.current_version().duplicate(),
        );
        snapshot.range_scan_fetched(range, fetched)
    }

    /// An iterator over the user keys of `range` in the current version. The
    /// tables are fetched from the object store.
    pub fn range_scan(&self, range: KeyRange) -> (r: Result<UserKeyIterator, HummockError>)
        requires
            self.wf(),
        ensures
            version_tables(self.current()).len() == 0 ==> r is Ok,
            r matches Ok(it) ==> (it.iter.wf() && it.range@ == range@ && it.epoch
                == self.current().max_epoch && it.tables().len() == version_tables(
                self.current(),
            ).len()),
            exists|fetched: Seq<Option<Seq<u8>>>|
                fetched.len() == version_tables(self.current()).len() && #[trigger] iterator_outcome(
                    version_tables(self.current()),
                    fetched,
                    range@,
                    self.current().max_epoch,
                    r,
                ),
    {
        proof {
            self.version_manager.lemma_wf();
        }
        let ghost bounds = range@;
        let snapshot: HummockSnapshot = HummockSnapshot::new(
            self.version_manager.current_version().duplicate(),
        );
        let r = snapshot.range_scan(&self.store, self.options.remote_dir.as_str(), range);
        proof {
            let tables = version_tables(self.current());
            let epoch = self.current().max_epoch;
            let f = choose|f: Seq<Option<Seq<u8>>>|
                f.len() == tables.len() && #[trigger] iterator_outcome(tables, f, bounds, epoch, r);
            assert(iterator_outcome(tables, f, bounds, epoch, r));
        }
        r
    }

    /// Whether the store can still number a batch and a version.
    pub fn ids_left(&self) -> (r: bool)
        ensures
            r == self.has_ids_left(),
    {
        self.unique_id < u64::MAX && self.version_manager.current_version().id < u64::MAX
    }

    /// Publishes the table of the batch at `epoch`, once the object store
    /// has answered the upload: where it has acknowledged the bytes, they
    /// stand under the path of the table. A failed upload publishes nothing,
    /// and nothing is published once the version numbers have run out.
    pub fn publish_table(
        &mut self,
        epoch: u64,
        bytes: Vec<u8>,
        meta: TableMeta,
        uploaded: Result<(), HummockError>,
    ) -> (r: Result<(), HummockError>)
        requires
            old(self).wf(),
            epoch < old(self).next_id(),
            table_intact(TableView { id: epoch, data: bytes@, meta: meta@ }),
            uploaded is Ok ==> object_is(
                old(self).objects(),
                spec_table_path(old(self).options().remote_dir@, epoch),
                bytes@,
            ),
            forall|j: int|
                0 <= j < table_entries(TableView { id: epoch, data: bytes@, meta: meta@ }).len()
                    ==> spec_epoch_of(
                    #[trigger] table_entries(TableView { id: epoch, data: bytes@, meta: meta@ })[j].0,
                ) <= epoch,
        ensures
            final(self).wf(),
            final(self).next_id() == old(self).next_id(),
            final(self).pins() == old(self).pins(),
            final(self).obsolete() == old(self).obsolete(),
            final(self).objects() == old(self).objects(),
            final(self).store() == old(self).store(),
            final(self).options() == old(self).options(),
            version_keys_distinct(old(self).current()) && (forall|l: int|
                0 <= l < NUM_LEVELS ==> keys_apart(
                    seq![TableView { id: epoch, data: bytes@, meta: meta@ }],
                    #[trigger] old(self).current().levels[l],
                )) ==> version_keys_distinct(final(self).current()),
            0 < bytes@.len() <= u64::MAX,
            uploaded is Err ==> r == Err::<(), HummockError>(HummockError::ObjectStoreError),
            uploaded is Ok && old(self).current().id == u64::MAX ==> r == Err::<(), HummockError>(
                HummockError::Aborted,
            ),
            uploaded is Ok && old(self).current().id < u64::MAX && (live(old(self).current(), old(self).pins(), epoch) || old(self).obsolete().contains(epoch)) ==> r == Err::<(), HummockError>(
                HummockError::VersionConflict,
            ),
            uploaded is Ok && old(self).current().id < u64::MAX && !live(old(self).current(), old(self).pins(), epoch) && !old(self).obsolete().contains(epoch) ==> r is Ok,
            r is Err ==> final(self).current() == old(self).current() && final(self).put_bytes() == old(self).put_bytes() && final(self).compaction_pending() == old(self).compaction_pending(),
            r is Ok ==> final(self).current() == with_l0(
                old(self).current(),
                (old(self).current().id + 1) as u64,
                TableView { id: epoch, data: bytes@, meta: meta@ },
            ) && final(self).compaction_pending() && final(self).put_bytes() == match old(self).put_bytes() {
                Some(n) => Some(vstd::wrapping::u64_specs::wrapping_add(n, bytes@.len() as u64)),
                None => None::<u64>,
            },
    {
        let size: usize = bytes.len();
        proof {
            crate::table::lemma_open_table_len(bytes@);
            assert(0 < size <= u64::MAX);
        }
        match uploaded {
            Err(_) => {
                return Err(HummockError::ObjectStoreError);
            },
            Ok(_) => {},
        }
        if self.version_manager.current_version().id == u64::MAX {
            return Err(HummockError::Aborted);
        }
        proof {
            self.version_manager.lemma_wf();
        }
        let ghost t = TableView { id: epoch, data: bytes@, meta: meta@ };
        let ghost old_cur = self.version_manager.current();
        let ghost old_pins = self.version_manager.pins();
        let ghost old_obs = self.version_manager.obsolete();
        let table: Table = Table::from_parts(epoch, bytes, meta);
        let len: usize = table.size();
        let version_id: u64 = self.version_manager.current_version().id + 1;
        match self.version_manager.add_l0(version_id, table.unloaded()) {
            Err(e) => {
                return Err(e);
            },
            Ok(_) => {},
        }
        proof {
            self.version_manager.lemma_wf();
            let new_cur = self.version_manager.current();
            lemma_with_l0_tables(old_cur, version_id, t);
            lemma_stored_with_l0(self.acknowledged@, self.options.remote_dir@, old_cur, version_id, t);
            lemma_intact_sorted(t);
            if version_keys_distinct(old_cur) && (forall|l: int|
                0 <= l < NUM_LEVELS ==> keys_apart(seq![t], #[trigger] old_cur.levels[l])) {
                lemma_with_l0_distinct(old_cur, version_id, t);
            }
            let old_tables = version_tables(old_cur);
            let new_tables = version_tables(new_cur);
            assert forall|i: int| 0 <= i < new_tables.len() implies table_intact(#[trigger] new_tables[i]) by {
                if i > 0 {
                    assert(new_tables[i] == old_tables[i - 1]);
                }
            }
            assert forall|i: int, j: int|
                0 <= i < new_tables.len() && 0 <= j < table_entries(new_tables[i]).len() implies spec_epoch_of(
                #[trigger] table_entries(new_tables[i])[j].0,
            ) < self.unique_id by {
                if i > 0 {
                    assert(new_tables[i] == old_tables[i - 1]);
                }
            }
            assert forall|id: u64| #[trigger] live(new_cur, old_pins, id) || old_obs.contains(
                id,
            ) implies id < self.unique_id by {
                if version_has(new_cur, id) {
                    let (l, i) = choose|l: int, i: int|
                        0 <= l < new_cur.levels.len() && 0 <= i < new_cur.levels[l].len() && (
                        #[trigger] new_cur.levels[l][i]).id == id;
                    if l == 0 {
                        if i > 0 {
                            assert(old_cur.levels[0][i - 1].id == id);
                            assert(live(old_cur, old_pins, id));
                        }
                    } else {
                        assert(old_cur.levels[l][i].id == id);
                        assert(live(old_cur, old_pins, id));
                    }
                } else {
                    assert(live(old_cur, old_pins, id) || old_obs.contains(id));
                }
            }
            assert(ids_below(new_cur, old_pins, old_obs, self.unique_id));
        }
        match self.stats {
            Some(st) => {
                let counted: u64 = match usize_to_u64(len) {
                    Some(n) => n,
                    None => 0,
                };
                self.stats = Some(HummockStats { put_bytes: st.put_bytes.wrapping_add(counted) });
            },
            None => {},
        }
        self.compaction_pending = true;
        Ok(())
    }

    /// Writes a batch: the pairs, ordered by user key, become one table at
    /// level 0 under the next epoch. An empty batch takes its epoch and
    /// publishes nothing. A batch that is out of order, or holds an empty
    /// key, is refused before it takes an epoch. A batch that holds a value
    /// too long for a table, or whose index or blocks outgrow what one table
    /// can address, is refused with `InvalidSST`, and no other batch is.
    /// Once the epochs or the version numbers have run out, every batch that
    /// is in order is refused with `Aborted`.
    pub fn write_batch(&mut self, kv_pairs: Vec<(Vec<u8>, HummockValue)>) -> (r: Result<
        (),
        HummockError,
    >)
        requires
            old(self).wf(),
        ensures
            final(self).wf(),
            final(self).pins() == old(self).pins(),
            final(self).obsolete() == old(self).obsolete(),
            final(self).options() == old(self).options(),
            !batch_valid(batch_view(kv_pairs@)) ==> r == Err::<(), HummockError>(
                HummockError::InvalidKey,
            ),
            batch_valid(batch_view(kv_pairs@)) && batch_fits(batch_view(kv_pairs@))
                && !old(self).has_ids_left() ==> r == Err::<(), HummockError>(HummockError::Aborted)
                && final(self).next_id() == old(self).next_id() && final(self).objects() == old(
                self,
            ).objects(),
            r == Err::<(), HummockError>(HummockError::Aborted) ==> !old(self).has_ids_left(),
            old_kept(
                old(self).objects(),
                final(self).objects(),
                old(self).options().remote_dir@,
                old(self).next_id(),
            ),
            batch_valid(batch_view(kv_pairs@)) && !batch_fits(batch_view(kv_pairs@)) ==> r == Err::<
                (),
                HummockError,
            >(HummockError::InvalidSST),
            version_keys_distinct(old(self).current()) ==> version_keys_distinct(final(self).current()),
            r == Err::<(), HummockError>(HummockError::InvalidKey) ==> !batch_valid(batch_view(kv_pairs@)),
            r == Err::<(), HummockError>(HummockError::InvalidSST) ==> !batch_fits(batch_view(kv_pairs@))
                || ((kv_pairs@.len() > MAX_SURE_BATCH || !short_batch(batch_view(kv_pairs@)))
                && !one_table_takes(
                old(self).options().block_size,
                batch_entries(batch_view(kv_pairs@), old(self).next_id()),
            )),
            old(self).has_ids_left() && batch_valid(batch_view(kv_pairs@)) && batch_fits(
                batch_view(kv_pairs@),
            ) && !one_table_takes(
                old(self).options().block_size,
                batch_entries(batch_view(kv_pairs@), old(self).next_id()),
            ) ==> r == Err::<(), HummockError>(HummockError::InvalidSST),
            old(self).has_ids_left() && batch_valid(batch_view(kv_pairs@)) && batch_fits(
                batch_view(kv_pairs@),
            ) && one_table_takes(
                old(self).options().block_size,
                batch_entries(batch_view(kv_pairs@), old(self).next_id()),
            ) ==> r is Ok || r == Err::<(), HummockError>(HummockError::ObjectStoreError),
            r is Err || kv_pairs@.len() == 0 ==> final(self).compaction_pending() == old(self).compaction_pending(),
            !batch_valid(batch_view(kv_pairs@)) || !batch_fits(batch_view(kv_pairs@)) ==> final(self).next_id() == old(self).next_id() && final(self).objects() == old(self).objects(),
            old(self).has_ids_left() && batch_valid(batch_view(kv_pairs@)) && batch_fits(batch_view(kv_pairs@)) ==> final(self).next_id() == old(self).next_id() + 1,
            old(self).has_ids_left() && batch_valid(batch_view(kv_pairs@)) && kv_pairs@.len() == 0 ==> r is Ok && final(self).current() == old(self).current() && final(self).objects() == old(self).objects()
                && final(self).put_bytes() == old(self).put_bytes(),
            r matches Err(e) ==> (e == HummockError::InvalidKey || e == HummockError::InvalidSST || e
                == HummockError::ObjectStoreError || e == HummockError::Aborted) && final(self).current() == old(self).current()
                && final(self).put_bytes() == old(self).put_bytes() && final(self).objects() == old(self).objects(),
            old(self).has_ids_left() && batch_valid(batch_view(kv_pairs@)) && batch_fits(
                batch_view(kv_pairs@),
            ) && kv_pairs@.len() <= MAX_SURE_BATCH && short_batch(batch_view(kv_pairs@)) ==> r is Ok
                || r == Err::<(), HummockError>(
                HummockError::ObjectStoreError,
            ),
            r is Ok ==> forall|i: int|
                0 <= i < kv_pairs@.len() ==> spec_get(
                    version_tables(final(self).current()),
                    (#[trigger] batch_view(kv_pairs@)[i]).0,
                    final(self).current().max_epoch,
                ) == Ok::<Option<Seq<u8>>, HummockError>(batch_view(kv_pairs@)[i].1),
            r is Ok && kv_pairs@.len() > 0 ==> {
                let t = final(self).current().levels[0][0];
                &&& final(self).current() == with_l0(
                    old(self).current(),
                    (old(self).current().id + 1) as u64,
                    t,
                )
                &&& t.id == old(self).next_id()
                &&& table_intact(t)
                &&& table_entries(t) == batch_entries(batch_view(kv_pairs@), old(self).next_id())
                &&& final(self).objects() == old(self).objects().insert(
                    spec_table_path(old(self).options().remote_dir@, old(self).next_id()),
                    t.data,
                )
                &&& final(self).compaction_pending()
                &&& 0 < t.data.len() <= u64::MAX
                &&& final(self).put_bytes() == match old(self).put_bytes() {
                    Some(n) => Some(vstd::wrapping::u64_specs::wrapping_add(n, t.data.len() as u64)),
                    None => None::<u64>,
                }
            },
    {
        match validate_batch(&kv_pairs) {
            Err(e) => {
                return Err(e);
            },
            Ok(_) => {},
        }
        if !self.ids_left() {
            return Err(HummockError::Aborted);
        }
        proof {
            self.version_manager.lemma_wf();
        }
        let ghost b = batch_view(kv_pairs@);
        let epoch: u64 = self.unique_id;
        assert(ids_below(self.current(), self.pins(), self.obsolete(), epoch));
        self.unique_id = self.unique_id + 1;
        assert(self.wf()) by {
            assert(ids_below(self.current(), self.pins(), self.obsolete(), self.unique_id));
        }
        if kv_pairs.len() == 0 {
            return Ok(());
        }
        let (bytes, meta) = match build_batch_table(&self.options, epoch, &kv_pairs) {
            Err(e) => {
                return Err(e);
            },
            Ok(built) => built,
        };
        let ghost t = TableView { id: epoch, data: bytes@, meta: meta@ };
        proof {
            lemma_built_table_intact(t, batch_entries(b, epoch), self.options.bloom_bits_per_key);
            assert forall|j: int| 0 <= j < table_entries(t).len() implies spec_epoch_of(
                #[trigger] table_entries(t)[j].0,
            ) <= epoch by {
                lemma_key_with_epoch_parts(b[j].0, epoch);
            }
            assert(!live(self.current(), self.pins(), epoch) && !self.obsolete().contains(epoch));
            let cur = self.current();
            lemma_version_tables_hold(cur);
            assert forall|l: int| 0 <= l < NUM_LEVELS implies keys_apart(seq![t], #[trigger] cur.levels[l]) by {
                let one = seq![t];
                let level = cur.levels[l];
                assert forall|i: int, j: int, i2: int, j2: int|
                    0 <= i < one.len() && 0 <= j < table_entries(one[i]).len() && 0 <= i2 < level.len() && 0
                        <= j2 < table_entries(level[i2]).len() implies (#[trigger] table_entries(
                    one[i],
                )[j]).0 != (#[trigger] table_entries(level[i2])[j2]).0 by {
                    lemma_key_with_epoch_parts(b[j].0, epoch);
                    assert(version_tables(cur).contains(cur.levels[l][i2]));
                    let k = choose|k: int|
                        0 <= k < version_tables(cur).len() && version_tables(cur)[k] == cur.levels[l][i2];
                    assert(spec_epoch_of(table_entries(version_tables(cur)[k])[j2].0) < epoch);
                }
            }
        }
        let path: String = table_path(self.options.remote_dir.as_str(), epoch);
        let uploaded: Result<(), HummockError> = self.store.put(path.as_str(), bytes.as_slice());
        proof {
            if uploaded is Ok {
                let had = self.acknowledged@;
                lemma_insert_old_kept(had, had, self.options.remote_dir@, epoch, bytes@, epoch);
                self.acknowledged = Ghost(self.acknowledged@.insert(path@, bytes@));
                lemma_stored_old_kept(
                    had,
                    self.acknowledged@,
                    self.options.remote_dir@,
                    self.current(),
                    self.pins(),
                    self.obsolete(),
                    epoch,
                );
            }
        }
        let ghost old_cur = self.current();
        let r = self.publish_table(epoch, bytes, meta, uploaded);
        proof {
            if r is Ok {
                let new_cur = self.current();
                assert(new_cur.levels[0][0] == t);
                assert forall|i: int| 0 <= i < kv_pairs@.len() implies spec_get(
                    version_tables(new_cur),
                    (#[trigger] b[i]).0,
                    new_cur.max_epoch,
                ) == Ok::<Option<Seq<u8>>, HummockError>(b[i].1) by {
                    crate::read_laws::lemma_read_your_writes(
                        old_cur,
                        (old_cur.id + 1) as u64,
                        t,
                        b,
                        epoch,
                        i,
                    );
                }
            }
        }
        r
    }

    /// Deletes from the object store the tables that no version needs any
    /// more, and returns their ids. A table that the object store fails to
    /// delete is left behind and not returned. No table that the current
    /// version or a pinned version holds is ever deleted.
    pub fn delete_obsolete(&mut self) -> (r: Vec<u64>)
        requires
            old(self).wf(),
        ensures
            final(self).wf(),
            forall|i: int|
                0 <= i < r@.len() ==> old(self).obsolete().contains(#[trigger] r@[i]) && !live(
                    final(self).current(),
                    final(self).pins(),
                    r@[i],
                ),
            r@.len() <= old(self).obsolete().len(),
            final(self).objects() == without_tables(
                old(self).objects(),
                old(self).options().remote_dir@,
                r@,
                r@.len() as int,
            ),
            live_kept(
                old(self).objects(),
                final(self).objects(),
                old(self).options().remote_dir@,
                final(self).current(),
                final(self).pins(),
            ),
            final(self).obsolete().len() == 0,
            final(self).current() == old(self).current(),
            final(self).pins() == old(self).pins(),
            final(self).next_id() == old(self).next_id(),
            final(self).options() == old(self).options(),
            final(self).put_bytes() == old(self).put_bytes(),
            final(self).compaction_pending() == old(self).compaction_pending(),
    {
        proof {
            self.version_manager.lemma_wf();
        }
        let ghost doomed = self.version_manager.obsolete();
        let ids: Vec<u64> = self.version_manager.take_obsolete();
        proof {
            self.version_manager.lemma_wf();
            assert(ids_below(self.current(), self.pins(), self.obsolete(), self.unique_id));
        }
        let mut deleted: Vec<u64> = Vec::new();
        let mut i: usize = 0;
        while i < ids.len()
            invariant
                i <= ids.len(),
                deleted@.len() <= i,
                ids@ == doomed,
                crate::version_manager::none_live(doomed, self.current(), self.pins()),
                forall|k: int| 0 <= k < deleted@.len() ==> doomed.contains(#[trigger] deleted@[k]),
                self.objects() == without_tables(
                    old(self).objects(),
                    old(self).options().remote_dir@,
                    deleted@,
                    deleted@.len() as int,
                ),
                self.wf(),
                self.obsolete().len() == 0,
                self.current() == old(self).current(),
                self.pins() == old(self).pins(),
                self.next_id() == old(self).next_id(),
                self.options() == old(self).options(),
                self.put_bytes() == old(self).put_bytes(),
                self.compaction_pending() == old(self).compaction_pending(),
            decreases ids.len() - i,
        {
            let path: String = table_path(self.options.remote_dir.as_str(), ids[i]);
            match self.store.delete(path.as_str()) {
                Ok(_) => {
                    let ghost before = deleted@;
                    proof {
                        let had = self.acknowledged@;
                        let dir = self.options.remote_dir@;
                        let one = seq![ids@[i as int]];
                        assert(!live(self.current(), self.pins(), doomed[i as int]));
                        lemma_without_live_kept(had, dir, one, self.current(), self.pins());
                        assert(without_tables(had, dir, one, 0) == had);
                        assert(without_tables(had, dir, one, 1) == had.remove(path@));
                        self.acknowledged = Ghost(self.acknowledged@.remove(path@));
                        lemma_stored_live_kept(had, self.acknowledged@, dir, self.current(), self.pins());
                    }
                    deleted.push(ids[i]);
                    proof {
                        lemma_without_tables_prefix(
                            old(self).objects(),
                            self.options.remote_dir@,
                            before,
                            deleted@,
                            before.len() as int,
                        );
                    }
                },
                Err(_) => {},
            }
            i += 1;
        }
        proof {
            assert forall|k: int| 0 <= k < deleted@.len() implies !live(
                self.current(),
                self.pins(),
                #[trigger] deleted@[k],
            ) by {
                let j = choose|j: int| 0 <= j < doomed.len() && doomed[j] == deleted@[k];
                assert(!live(self.current(), self.pins(), doomed[j]));
            }
            lemma_without_live_kept(
                old(self).objects(),
                old(self).options().remote_dir@,
                deleted@,
                self.current(),
                self.pins(),
            );
        }
        deleted
    }

    /// Gives a snapshot back: takes its pin off its version, and deletes
    /// the tables that no version needs any more. Returns whether the
    /// snapshot's version was pinned.
    pub fn release_snapshot(&mut self, snapshot: HummockSnapshot) -> (r: bool)
        requires
            old(self).wf(),
        ensures
            final(self).wf(),
            r == (last_pin(old(self).pins(), snapshot.version@.id) >= 0),
            r ==> final(self).pins() == old(self).pins().remove(
                last_pin(old(self).pins(), snapshot.version@.id),
            ),
            !r ==> final(self).pins() == old(self).pins(),
            exists|gone: Seq<u64>|
                final(self).objects() == #[trigger] without_tables(
                    old(self).objects(),
                    old(self).options().remote_dir@,
                    gone,
                    gone.len() as int,
                ) && forall|i: int|
                    0 <= i < gone.len() ==> !live(
                        final(self).current(),
                        final(self).pins(),
                        #[trigger] gone[i],
                    ),
            live_kept(
                old(self).objects(),
                final(self).objects(),
                old(self).options().remote_dir@,
                final(self).current(),
                final(self).pins(),
            ),
            final(self).obsolete().len() == 0,
            final(self).current() == old(self).current(),
            final(self).next_id() == old(self).next_id(),
            final(self).options() == old(self).options(),
            final(self).put_bytes() == old(self).put_bytes(),
            final(self).compaction_pending() == old(self).compaction_pending(),
    {
        proof {
            self.version_manager.lemma_wf();
        }
        let ghost old_pins = self.version_manager.pins();
        let ghost old_obs = self.version_manager.obsolete();
        let was_pinned: bool = self.version_manager.unpin(snapshot.version_id());
        proof {
            self.version_manager.lemma_wf();
            let new_pins = self.version_manager.pins();
            let new_obs = self.version_manager.obsolete();
            if was_pinned {
                let k = last_pin(old_pins, snapshot.version@.id);
                crate::version_manager::lemma_last_pin(old_pins, snapshot.version@.id, old_pins.len() as int);
                lemma_retired_from(old_obs, old_pins[k].table_ids, old_pins[k].table_ids.len() as int, self.current(), new_pins);
                assert forall|id: u64| #[trigger] live(self.current(), new_pins, id) || new_obs.contains(
                    id,
                ) implies id < self.unique_id by {
                    if crate::version_manager::pinned(new_pins, id) {
                        let j = choose|j: int| 0 <= j < new_pins.len() && (#[trigger] new_pins[j]).table_ids.contains(id);
                        if j < k {
                            assert(old_pins[j] == new_pins[j]);
                        } else {
                            assert(old_pins[j + 1] == new_pins[j]);
                        }
                        assert(crate::version_manager::pinned(old_pins, id));
                        assert(live(self.current(), old_pins, id));
                    } else if new_obs.contains(id) {
                        if !old_obs.contains(id) {
                            assert(old_pins[k].table_ids.contains(id));
                            assert(crate::version_manager::pinned(old_pins, id));
                            assert(live(self.current(), old_pins, id));
                        }
                    } else {
                        assert(live(self.current(), old_pins, id));
                    }
                }
            }
            assert(ids_below(self.current(), new_pins, new_obs, self.unique_id));
        }
        assert(self.objects() == old(self).objects());
        assert(self.options() == old(self).options());
        let gone: Vec<u64> = self.delete_obsolete();
        assert(self.objects() == without_tables(
            old(self).objects(),
            old(self).options().remote_dir@,
            gone@,
            gone@.len() as int,
        ));
        was_pinned
    }

    /// Numbers the finished parts of a merge from the next free id on,
    /// stores each under the path of its number, and makes tables of them.
    /// Stops at the first part that the object store refuses, and with
    /// `Aborted` where the ids have run out.
    pub fn upload_parts(&mut self, parts: Vec<(Vec<u8>, TableMeta)>) -> (r: Result<
        Vec<Table>,
        HummockError,
    >)
        requires
            old(self).wf(),
            forall|i: int|
                0 <= i < parts@.len() ==> part_ok(
                    #[trigger] parts@[i],
                    old(self).options().bloom_bits_per_key,
                    old(self).next_id(),
                ),
        ensures
            final(self).wf(),
            final(self).current() == old(self).current(),
            final(self).pins() == old(self).pins(),
            final(self).obsolete() == old(self).obsolete(),
            final(self).options() == old(self).options(),
            final(self).put_bytes() == old(self).put_bytes(),
            final(self).compaction_pending() == old(self).compaction_pending(),
            final(self).next_id() >= old(self).next_id(),
            old(self).next_id() + parts@.len() <= u64::MAX ==> r is Ok || r == Err::<
                Vec<Table>,
                HummockError,
            >(HummockError::ObjectStoreError),
            parts@.len() == 0 ==> r is Ok,
            old_kept(
                old(self).objects(),
                final(self).objects(),
                old(self).options().remote_dir@,
                old(self).next_id(),
            ),
            match r {
                Ok(outs) => {
                    &&& outs@.len() == parts@.len()
                    &&& final(self).next_id() == old(self).next_id() + parts@.len()
                    &&& final(self).objects() == with_tables(
                        old(self).objects(),
                        old(self).options().remote_dir@,
                        level_view(outs@),
                        outs@.len() as int,
                    )
                    &&& forall|i: int|
                        0 <= i < outs@.len() ==> (#[trigger] level_view(outs@)[i]).data == parts@[i].0@
                            && level_view(outs@)[i].meta == parts@[i].1@ && level_view(outs@)[i].id
                            == old(self).next_id() + i
                },
                Err(e) => e == HummockError::ObjectStoreError || (e == HummockError::Aborted
                    && final(self).next_id() == u64::MAX),
            },
    {
        let ghost all = parts@;
        let ghost first = self.next_id();
        let ghost dir = self.options().remote_dir@;
        let ghost before = self.objects();
        let mut rest: Vec<(Vec<u8>, TableMeta)> = parts;
        let mut outs: Vec<Table> = Vec::new();
        while rest.len() > 0
            invariant
                self.wf(),
                self.current() == old(self).current(),
                self.pins() == old(self).pins(),
                self.obsolete() == old(self).obsolete(),
                self.options() == old(self).options(),
                self.put_bytes() == old(self).put_bytes(),
                self.compaction_pending() == old(self).compaction_pending(),
                first == old(self).next_id(),
                dir == old(self).options().remote_dir@,
                before == old(self).objects(),
                all == parts@,
                self.next_id() == first + outs@.len(),
                self.objects() == with_tables(before, dir, level_view(outs@), outs@.len() as int),
                old_kept(before, self.objects(), dir, first),
                outs@.len() + rest@.len() == all.len(),
                forall|i: int| 0 <= i < rest@.len() ==> #[trigger] rest@[i] == all[outs@.len() + i],
                forall|i: int|
                    0 <= i < all.len() ==> part_ok(#[trigger] all[i], self.options().bloom_bits_per_key, first),
                forall|i: int|
                    0 <= i < outs@.len() ==> (#[trigger] level_view(outs@)[i]).data == all[i].0@
                        && level_view(outs@)[i].meta == all[i].1@ && level_view(outs@)[i].id == first
                        + i,
            decreases rest@.len(),
        {
            if self.unique_id == u64::MAX {
                return Err(HummockError::Aborted);
            }
            let id: u64 = self.unique_id;
            assert(ids_below(self.current(), self.pins(), self.obsolete(), id));
            self.unique_id = self.unique_id + 1;
            proof {
                self.version_manager.lemma_wf();
                assert(ids_below(self.current(), self.pins(), self.obsolete(), self.unique_id));
            }
            let ghost k = outs@.len() as int;
            assert(rest@[0] == all[k]);
            assert(part_ok(all[k], self.options().bloom_bits_per_key, first));
            let (bytes, meta) = rest.remove(0);
            let path: String = table_path(self.options.remote_dir.as_str(), id);
            match self.store.put(path.as_str(), bytes.as_slice()) {
                Err(_) => {
                    return Err(HummockError::ObjectStoreError);
                },
                Ok(_) => {
                    proof {
                        let had = self.acknowledged@;
                        lemma_insert_old_kept(before, had, dir, id, bytes@, first);
                        lemma_insert_old_kept(had, had, dir, id, bytes@, id);
                        self.acknowledged = Ghost(self.acknowledged@.insert(path@, bytes@));
                        lemma_stored_old_kept(
                            had,
                            self.acknowledged@,
                            dir,
                            self.current(),
                            self.pins(),
                            self.obsolete(),
                            id,
                        );
                    }
                },
            }
            let table: Table = Table::from_parts(id, bytes, meta).unloaded();
            let ghost shown = level_view(outs@);
            assert(level_view(outs@.push(table)) =~= shown.push(table@));
            proof {
                lemma_with_tables_prefix(before, dir, shown, shown.push(table@), shown.len() as int);
            }
            outs.push(table);
        }
        Ok(outs)
    }

    /// The ids of the tables that the next run of the compactor merges, in
    /// the order in which it wants their bytes; none where no compaction is
    /// due.
    pub fn compaction_input_ids(&self, force_level0: bool) -> (r: Vec<u64>)
        requires
            self.wf(),
        ensures
            r@ == table_ids(
                due_inputs(self.current(), self.options().table_size, force_level0),
            ),
    {
        proof {
            self.version_manager.lemma_wf();
        }
        let version: &Version = self.version_manager.current_version();
        let picked: Option<CompactionTask> = if force_level0 && version.level_len(0) > 0 {
            Some(pick_from_level0(version))
        } else {
            pick_compaction(version, self.options.table_size)
        };
        match picked {
            None => Vec::new(),
            Some(task) => {
                let inputs: Vec<Table> = collect_inputs(
                    version,
                    task.source,
                    &task.source_ids,
                    &task.target_ids,
                );
                level_ids(&inputs)
            },
        }
    }

    /// One run of the compactor on the bytes that the object store answered
    /// for the tables of `compaction_input_ids`: picks a compaction, opens
    /// its tables from `fetched`, merges them, stores the outputs, and
    /// publishes the version in which they stand in place of the inputs.
    /// With `force_level0`, a non-empty level 0 is compacted whether it is
    /// full or not.
    ///
    /// A compaction that the version manager refuses changes nothing and is
    /// no error. A failed fetch, a refused table or block, an error of the
    /// object store, or the end of the ids abandons the compaction; what was
    /// stored already stays in the object store.
    #[verifier::rlimit(60)]
    pub fn compact_fetched(
        &mut self,
        force_level0: bool,
        fetched: &Vec<Result<Vec<u8>, HummockError>>,
    ) -> (r: Result<CompactionOutcome, HummockError>)
        requires
            old(self).wf(),
        ensures
            final(self).wf(),
            final(self).pins() == old(self).pins(),
            final(self).options() == old(self).options(),
            final(self).put_bytes() == old(self).put_bytes(),
            final(self).compaction_pending() == old(self).compaction_pending(),
            final(self).next_id() >= old(self).next_id(),
            final(self).obsolete().len() == 0,
            r == Err::<CompactionOutcome, HummockError>(HummockError::Aborted) ==> old(self).current().id
                == u64::MAX || final(self).next_id() == u64::MAX,
            (r matches Err(e) ==> e == HummockError::ObjectStoreError || e == HummockError::Aborted
                || crate::error::read_fault(e)),
            held_kept(
                old(self).objects(),
                final(self).objects(),
                old(self).options().remote_dir@,
                final(self).current(),
                final(self).pins(),
                old(self).next_id(),
            ),
            final(self).current().max_epoch == old(self).current().max_epoch,
            watermark(old(self).current(), old(self).pins()) <= old(self).current().max_epoch,
            r == Ok::<CompactionOutcome, HummockError>(CompactionOutcome::Idle) <==> task_for(
                old(self).current(),
                old(self).options().table_size,
                force_level0,
            ) is None,
            r != Ok::<CompactionOutcome, HummockError>(CompactionOutcome::Committed) ==> final(self).current() == old(self).current(),
            r == Ok::<CompactionOutcome, HummockError>(CompactionOutcome::Idle) ==> stored_as(
                old(self).objects(),
                final(self).objects(),
                old(self).options().remote_dir@,
                Seq::empty(),
                final(self).current(),
                final(self).pins(),
            ),
            task_for(old(self).current(), old(self).options().table_size, force_level0) matches Some(t)
                ==> compaction_step(
                old(self).current(),
                old(self).pins(),
                old(self).obsolete(),
                old(self).next_id(),
                t,
                fetched_view(fetched@),
                final(self).current(),
                final(self).next_id(),
                old(self).objects(),
                final(self).objects(),
                old(self).options().remote_dir@,
                old(self).options().spec_builder_options(),
                r,
            ),
            faithful(
                due_inputs(old(self).current(), old(self).options().table_size, force_level0),
                fetched_view(fetched@),
            ) ==> {
                &&& r == Ok::<CompactionOutcome, HummockError>(CompactionOutcome::Committed)
                    ==> is_compaction_of(
                    old(self).current(),
                    final(self).current(),
                    watermark(old(self).current(), old(self).pins()),
                    old(self).next_id(),
                )
                &&& version_keys_distinct(old(self).current()) ==> version_keys_distinct(
                    final(self).current(),
                ) && (forall|uk: Seq<u8>, epoch: u64|
                    uk.len() > 0 && epoch >= watermark(old(self).current(), old(self).pins())
                        ==> #[trigger] spec_get(version_tables(final(self).current()), uk, epoch)
                        == spec_get(version_tables(old(self).current()), uk, epoch))
                    && (forall|range: RangeView, epoch: u64|
                    epoch >= watermark(old(self).current(), old(self).pins()) ==> #[trigger] spec_scan(
                        version_tables(final(self).current()),
                        range,
                        epoch,
                    ) == spec_scan(version_tables(old(self).current()), range, epoch))
            },
    {
        proof {
            self.version_manager.lemma_wf();
        }
        let ghost old_cur = self.current();
        let ghost old_pins = self.pins();
        let ghost old_obs = self.obsolete();
        let ghost old_objects = self.objects();
        let ghost dir = self.options().remote_dir@;
        let ghost fv = fetched_view(fetched@);
        proof {
            crate::version_manager::lemma_watermark_below(old_cur, old_pins, old_pins.len() as int);
        }
        let mark: u64 = self.version_manager.min_pinned_epoch();
        let bound: u64 = self.unique_id;
        let snapshot: HummockSnapshot = self.get_snapshot();
        let ghost mid_pins = self.pins();
        proof {
            lemma_last_pin(mid_pins, old_cur.id, mid_pins.len() as int);
            assert(mid_pins.remove(last_pin(mid_pins, old_cur.id)) =~= old_pins);
            assert(mid_pins == old_pins.push(pin_of(old_cur)));
        }
        let picked: Option<CompactionTask> = if force_level0 && snapshot.version.level_len(0) > 0 {
            Some(pick_from_level0(&snapshot.version))
        } else {
            pick_compaction(&snapshot.version, self.options.table_size)
        };
        let task: CompactionTask = match picked {
            None => {
                let ghost held = self.objects();
                self.release_snapshot(snapshot);
                proof {
                    lemma_held_kept(old_objects, held, self.objects(), dir, self.current(), self.pins(), bound);
                }
                proof {
                    lemma_stored_as(
                        old_objects,
                        old_objects,
                        self.objects(),
                        dir,
                        Seq::empty(),
                        self.current(),
                        self.pins(),
                    );
                }
                return Ok(CompactionOutcome::Idle);
            },
            Some(t) => t,
        };
        if self.version_manager.current_version().id == u64::MAX {
            let ghost held = self.objects();
            self.release_snapshot(snapshot);
            proof {
                lemma_held_kept(old_objects, held, self.objects(), dir, self.current(), self.pins(), bound);
            }
            return Err(HummockError::Aborted);
        }
        let ghost tv = task@;
        let ghost source = task.source as int;
        let ghost sids = task.source_ids@;
        let ghost tids = task.target_ids@;
        let inputs: Vec<Table> = collect_inputs(
            &snapshot.version,
            task.source,
            &task.source_ids,
            &task.target_ids,
        );
        let others: Vec<(Vec<u8>, Vec<u8>)> = collect_other_spans(
            &snapshot.version,
            task.source,
            &task.source_ids,
            &task.target_ids,
        );
        let ghost iv = level_view(inputs@);
        let ghost rules = task_rules(old_cur, tv, mark, bound);
        assert(rules == Rules {
            watermark: mark,
            others: crate::compactor::spans_view(others@),
            epoch_bound: bound,
            lowest: task.source + 2 == NUM_LEVELS,
        });
        let ids: Vec<u64> = level_ids(&inputs);
        proof {
            crate::snapshot::lemma_load_fault(ids@, fv);
            if faithful(iv, fv) {
                crate::snapshot::lemma_faithful_load(iv, fv, iv.len() as int);
            }
        }
        let loaded: Vec<Table> = match load_tables(&ids, fetched) {
            Err(e) => {
                let ghost held = self.objects();
                self.release_snapshot(snapshot);
                proof {
                    lemma_held_kept(old_objects, held, self.objects(), dir, self.current(), self.pins(), bound);
                }
                return Err(e);
            },
            Ok(l) => l,
        };
        let ghost lv = level_view(loaded@);
        let ghost kept = spec_merge(lv, rules);
        proof {
            crate::compactor::lemma_merge_fault_kind(lv, rules);
        }
        let parts: Vec<(Vec<u8>, TableMeta)> = match merge_tables(
            &loaded,
            mark,
            &others,
            bound,
            task.source + 2 == NUM_LEVELS,
            self.options.builder_options(),
        ) {
            Err(e) => {
                let ghost held = self.objects();
                self.release_snapshot(snapshot);
                proof {
                    lemma_held_kept(old_objects, held, self.objects(), dir, self.current(), self.pins(), bound);
                }
                return Err(e);
            },
            Ok(p) => p,
        };
        let ghost pv = parts@;
        let outputs: Vec<Table> = match self.upload_parts(parts) {
            Err(e) => {
                let ghost held = self.objects();
                self.release_snapshot(snapshot);
                proof {
                    lemma_held_kept(old_objects, held, self.objects(), dir, self.current(), self.pins(), bound);
                }
                return Err(e);
            },
            Ok(o) => o,
        };
        let ghost outs = level_view(outputs@);
        let ghost top = self.next_id();
        let ghost mid_objects = self.objects();
        proof {
            self.version_manager.lemma_wf();
            lemma_parts_tables(pv, outs, self.options.bloom_bits_per_key, bound, pv.len() as int);
            assert(crate::version::level_tables_wf(outs));
            assert(table_lists(outs) =~= parts_lists(pv)) by {
                assert forall|i: int| 0 <= i < outs.len() implies table_entries(outs[i])
                    == #[trigger] parts_lists(pv)[i] by {
                    assert(part_ok(pv[i], self.options.bloom_bits_per_key, bound));
                    lemma_built_table_intact(
                        outs[i],
                        spec_table_entries(outs[i].data, outs[i].meta).unwrap(),
                        self.options.bloom_bits_per_key,
                    );
                }
            }
            assert(merge_outputs(outs, kept, bound, top, self.options().spec_builder_options()));
        }
        let version_id: u64 = self.version_manager.current_version().id + 1;
        match self.version_manager.commit_compaction(
            version_id,
            task.source,
            &task.source_ids,
            &task.target_ids,
            outputs,
        ) {
            Err(_) => {
                proof {
                    self.version_manager.lemma_wf();
                    assert(ids_below(self.current(), self.pins(), self.obsolete(), self.unique_id));
                    assert(!commit_allowed(old_cur, mid_pins, old_obs, source, sids, tids, outs));
                }
                let ghost held = self.objects();
                self.release_snapshot(snapshot);
                proof {
                    lemma_held_kept(old_objects, held, self.objects(), dir, self.current(), self.pins(), bound);
                }
                proof {
                    let r = Ok::<CompactionOutcome, HummockError>(CompactionOutcome::Conflicted);
                    assert(committed_as(old_cur, old_pins, old_obs, tv, outs, self.current(), r));
                    lemma_stored_as(old_objects, mid_objects, self.objects(), dir, outs, self.current(), old_pins);
                }
                return Ok(CompactionOutcome::Conflicted);
            },
            Ok(_) => {},
        }
        proof {
            self.version_manager.lemma_wf();
            let new_cur = self.current();
            assert(commit_allowed(old_cur, mid_pins, old_obs, source, sids, tids, outs));
            lemma_committed(
                old_cur,
                new_cur,
                mid_pins,
                old_obs,
                self.obsolete(),
                source,
                sids,
                tids,
                outs,
                bound,
                self.unique_id,
            );
            let r = Ok::<CompactionOutcome, HummockError>(CompactionOutcome::Committed);
            assert(committed_as(old_cur, old_pins, old_obs, tv, outs, new_cur, r));
            lemma_with_tables_stored(old_objects, dir, outs, outs.len() as int, bound);
            lemma_stored_compacted(mid_objects, dir, old_cur, version_id, source, sids, tids, outs);
            if faithful(iv, fv) {
                assert(lv == iv);
                assert(is_compaction_of(old_cur, new_cur, mark, bound));
                if version_keys_distinct(old_cur) {
                    lemma_compaction_distinct(old_cur, version_id, source, sids, tids, outs, mark, bound);
                    assert forall|uk: Seq<u8>, epoch: u64| uk.len() > 0 && epoch >= mark implies #[trigger] spec_get(
                        version_tables(new_cur),
                        uk,
                        epoch,
                    ) == spec_get(version_tables(old_cur), uk, epoch) by {
                        crate::compaction_laws::lemma_compaction_keeps_reads(
                            old_cur,
                            new_cur,
                            mark,
                            bound,
                            uk,
                            epoch,
                        );
                    }
                    assert forall|range: RangeView, epoch: u64| epoch >= mark implies #[trigger] spec_scan(
                        version_tables(new_cur),
                        range,
                        epoch,
                    ) == spec_scan(version_tables(old_cur), range, epoch) by {
                        crate::compaction_laws::lemma_compaction_keeps_scans(
                            old_cur,
                            new_cur,
                            mark,
                            bound,
                            range,
                            epoch,
                        );
                    }
                }
            }
        }
        let ghost new_cur = self.current();
        let ghost held = self.objects();
        self.release_snapshot(snapshot);
        proof {
            lemma_held_kept(old_objects, held, self.objects(), dir, self.current(), self.pins(), bound);
        }
        proof {
            let r = Ok::<CompactionOutcome, HummockError>(CompactionOutcome::Committed);
            assert(committed_as(old_cur, old_pins, old_obs, tv, outs, new_cur, r));
            lemma_stored_as(old_objects, mid_objects, self.objects(), dir, outs, new_cur, old_pins);
        }
        Ok(CompactionOutcome::Committed)
    }

    /// One run of the compactor: fetches the tables of the compaction that
    /// is due from the object store and compacts them. Whatever the object
    /// store answers, the run leaves a store that reads and writes go on
    /// with; where no compaction is due it changes nothing.
    pub fn compact(&mut self, force_level0: bool) -> (r: Result<CompactionOutcome, HummockError>)
        requires
            old(self).wf(),
        ensures
            final(self).wf(),
            final(self).pins() == old(self).pins(),
            final(self).options() == old(self).options(),
            final(self).put_bytes() == old(self).put_bytes(),
            final(self).compaction_pending() == old(self).compaction_pending(),
            final(self).next_id() >= old(self).next_id(),
            final(self).obsolete().len() == 0,
            r == Err::<CompactionOutcome, HummockError>(HummockError::Aborted) ==> old(self).current().id
                == u64::MAX || final(self).next_id() == u64::MAX,
            (r matches Err(e) ==> e == HummockError::ObjectStoreError || e == HummockError::Aborted
                || crate::error::read_fault(e)),
            held_kept(
                old(self).objects(),
                final(self).objects(),
                old(self).options().remote_dir@,
                final(self).current(),
                final(self).pins(),
                old(self).next_id(),
            ),
            final(self).current().max_epoch == old(self).current().max_epoch,
            r == Ok::<CompactionOutcome, HummockError>(CompactionOutcome::Idle) <==> task_for(
                old(self).current(),
                old(self).options().table_size,
                force_level0,
            ) is None,
            r != Ok::<CompactionOutcome, HummockError>(CompactionOutcome::Committed) ==> final(self).current() == old(self).current(),
            r == Ok::<CompactionOutcome, HummockError>(CompactionOutcome::Idle) ==> stored_as(
                old(self).objects(),
                final(self).objects(),
                old(self).options().remote_dir@,
                Seq::empty(),
                final(self).current(),
                final(self).pins(),
            ),
            task_for(old(self).current(), old(self).options().table_size, force_level0) matches Some(t)
                ==> exists|fetched: Seq<Option<Seq<u8>>>|
                fetched.len() == task_tables(old(self).current(), t).len() && #[trigger] compaction_step(
                    old(self).current(),
                    old(self).pins(),
                    old(self).obsolete(),
                    old(self).next_id(),
                    t,
                    fetched,
                    final(self).current(),
                    final(self).next_id(),
                    old(self).objects(),
                    final(self).objects(),
                    old(self).options().remote_dir@,
                    old(self).options().spec_builder_options(),
                    r,
                ),
    {
        let ids: Vec<u64> = self.compaction_input_ids(force_level0);
        let fetched: Vec<Result<Vec<u8>, HummockError>> = fetch_tables(
            &self.store,
            self.options.remote_dir.as_str(),
            &ids,
        );
        self.compact_fetched(force_level0, &fetched)
    }
}

/// What is left once the first tables are removed does not depend on the
/// ids behind them.
pub proof fn lemma_without_tables_prefix(
    objects: Map<Seq<char>, Seq<u8>>,
    remote_dir: Seq<char>,
    a: Seq<u64>,
    b: Seq<u64>,
    n: int,
)
    requires
        0 <= n <= a.len() <= b.len(),
        forall|i: int| 0 <= i < a.len() ==> a[i] == b[i],
    ensures
        without_tables(objects, remote_dir, b, n) == without_tables(objects, remote_dir, a, n),
    decreases n,
{
    if n > 0 {
        lemma_without_tables_prefix(objects, remote_dir, a, b, n - 1);
    }
}

/// Whatever is scheduled for deletion after candidates were looked at was
/// scheduled before or is one of the candidates.
pub proof fn lemma_retired_from(
    obsolete: Seq<u64>,
    candidates: Seq<u64>,
    n: int,
    current: VersionView,
    pins: Seq<PinView>,
)
    requires
        0 <= n <= candidates.len(),
    ensures
        forall|id: u64|
            crate::version_manager::retire_upto(obsolete, candidates, n, current, pins).contains(id)
                ==> obsolete.contains(id) || candidates.contains(id),
    decreases n,
{
    if n > 0 {
        lemma_retired_from(obsolete, candidates, n - 1, current, pins);
        let prev = crate::version_manager::retire_upto(obsolete, candidates, n - 1, current, pins);
        let cur = crate::version_manager::retire_upto(obsolete, candidates, n, current, pins);
        assert forall|id: u64| cur.contains(id) implies obsolete.contains(id) || candidates.contains(
            id,
        ) by {
            let k = choose|k: int| 0 <= k < cur.len() && cur[k] == id;
            if k < prev.len() {
                assert(prev[k] == id);
                assert(prev.contains(id));
            } else {
                assert(candidates[n - 1] == id);
            }
        }
    }
}

/// What holds of the version that a committed compaction leaves.
pub proof fn lemma_committed(
    before: VersionView,
    after: VersionView,
    pins: Seq<PinView>,
    old_obsolete: Seq<u64>,
    new_obsolete: Seq<u64>,
    source: int,
    source_ids: Seq<u64>,
    target_ids: Seq<u64>,
    outputs: Seq<TableView>,
    old_bound: u64,
    bound: u64,
)
    requires
        0 <= source,
        source + 1 < NUM_LEVELS,
        old_bound <= bound,
        version_wf(before),
        version_wf(after),
        after == compacted(before, (before.id + 1) as u64, source, source_ids, target_ids, outputs),
        commit_allowed(before, pins, old_obsolete, source, source_ids, target_ids, outputs),
        new_obsolete == retire(
            retire(old_obsolete, source_ids, after, pins),
            target_ids,
            after,
            pins,
        ),
        ids_below(before, pins, old_obsolete, old_bound),
        tables_intact(version_tables(before)),
        epochs_below(version_tables(before), old_bound),
        tables_intact(outputs),
        forall|i: int| 0 <= i < outputs.len() ==> (#[trigger] outputs[i]).id < bound,
        forall|i: int, j: int|
            0 <= i < outputs.len() && 0 <= j < table_entries(outputs[i]).len() ==> spec_epoch_of(
                #[trigger] table_entries(outputs[i])[j].0,
            ) < old_bound,
    ensures
        ids_below(after, pins, new_obsolete, bound),
        tables_intact(version_tables(after)),
        epochs_below(version_tables(after), bound),
{
    lemma_compacted_members(before, (before.id + 1) as u64, source, source_ids, target_ids, outputs);
    lemma_version_tables_hold(before);
    lemma_version_tables_hold(after);
    let old_tables = version_tables(before);
    let new_tables = version_tables(after);
    // Every table of the new version is a table of the old one or an output.
    assert forall|k: int| 0 <= k < new_tables.len() implies old_tables.contains(#[trigger] new_tables[k])
        || outputs.contains(new_tables[k]) by {
        let t = new_tables[k];
        assert(version_holds(after, t));
        let (l, i) = choose|l: int, i: int|
            0 <= l < after.levels.len() && 0 <= i < after.levels[l].len() && #[trigger] after.levels[l][i]
                == t;
        assert(version_holds(before, after.levels[l][i]) || outputs.contains(after.levels[l][i]));
        if version_holds(before, t) {
            let (a, b) = choose|a: int, b: int|
                0 <= a < before.levels.len() && 0 <= b < before.levels[a].len()
                    && #[trigger] before.levels[a][b] == t;
            assert(old_tables.contains(before.levels[a][b]));
        }
    }
    assert forall|k: int| 0 <= k < new_tables.len() implies table_intact(#[trigger] new_tables[k]) by {
        let t = new_tables[k];
        if old_tables.contains(t) {
            let a = choose|a: int| 0 <= a < old_tables.len() && old_tables[a] == t;
            assert(table_intact(old_tables[a]));
        } else {
            let a = choose|a: int| 0 <= a < outputs.len() && outputs[a] == t;
            assert(table_intact(outputs[a]));
        }
    }
    assert forall|i: int, j: int|
        0 <= i < new_tables.len() && 0 <= j < table_entries(new_tables[i]).len() implies spec_epoch_of(
        #[trigger] table_entries(new_tables[i])[j].0,
    ) < bound by {
        let t = new_tables[i];
        if old_tables.contains(t) {
            let a = choose|a: int| 0 <= a < old_tables.len() && old_tables[a] == t;
            assert(spec_epoch_of(table_entries(old_tables[a])[j].0) < old_bound);
        } else {
            let a = choose|a: int| 0 <= a < outputs.len() && outputs[a] == t;
            assert(spec_epoch_of(table_entries(outputs[a])[j].0) < old_bound);
        }
    }
    let mid = retire(old_obsolete, source_ids, after, pins);
    lemma_retired_from(old_obsolete, source_ids, source_ids.len() as int, after, pins);
    lemma_retired_from(mid, target_ids, target_ids.len() as int, after, pins);
    assert forall|id: u64| #[trigger] live(after, pins, id) || new_obsolete.contains(id) implies id
        < bound by {
        if version_has(after, id) {
            let (l, i) = choose|l: int, i: int|
                0 <= l < after.levels.len() && 0 <= i < after.levels[l].len() && (
                #[trigger] after.levels[l][i]).id == id;
            let t = after.levels[l][i];
            assert(version_holds(before, after.levels[l][i]) || outputs.contains(after.levels[l][i]));
            if version_holds(before, t) {
                let (a, b) = choose|a: int, b: int|
                    0 <= a < before.levels.len() && 0 <= b < before.levels[a].len()
                        && #[trigger] before.levels[a][b] == t;
                assert(before.levels[a][b].id == id);
                assert(live(before, pins, id));
            } else {
                let a = choose|a: int| 0 <= a < outputs.len() && outputs[a] == t;
                assert(outputs[a].id < bound);
            }
        } else if crate::version_manager::pinned(pins, id) {
            assert(live(before, pins, id));
        } else {
            assert(new_obsolete.contains(id));
            assert(mid.contains(id) || target_ids.contains(id));
            assert(old_obsolete.contains(id) || source_ids.contains(id) || target_ids.contains(id));
            if old_obsolete.contains(id) {
                assert(live(before, pins, id) || old_obsolete.contains(id));
            } else {
                assert(all_present(before.levels[source], source_ids));
                assert(all_present(before.levels[source + 1], target_ids));
                let level = if source_ids.contains(id) {
                    before.levels[source]
                } else {
                    before.levels[source + 1]
                };
                let ids = if source_ids.contains(id) {
                    source_ids
                } else {
                    target_ids
                };
                let k = choose|k: int| 0 <= k < ids.len() && ids[k] == id;
                assert(crate::version::table_ids(level).contains(ids[k]));
                let a = choose|a: int| 0 <= a < level.len() && crate::version::table_ids(level)[a] == id;
                assert(level[a].id == id);
                assert(version_has(before, id));
                assert(live(before, pins, id));
            }
        }
    }
}

} // verus!
