//! Picking a compaction: which tables of which level are merged into the
//! level below.
//!
//! When level 0 holds `L0_TRIGGER` tables or more, all of level 0 goes into
//! level 1. Else the first deeper level that has outgrown its size gives the
//! table that overlaps the fewest tables of the level below. With the
//! tables picked go all tables of the level below that overlap them.

use vstd::prelude::*;
use crate::coding::{clone_bytes, compare_bytes, KeyOrder, lex_lt};
use crate::table::{Table, table_largest_user_key, table_smallest_user_key, table_wf, TableView};
use crate::version::{level_tables_wf, level_view, NUM_LEVELS, table_ids, Version, VersionView};

verus! {

/// Level 0 is compacted when it holds this many tables.
pub const L0_TRIGGER: usize = 4;

/// A compaction as plain values: the source level, the tables taken from
/// it, and the tables taken from the level below.
pub struct TaskView {
    pub source: int,
    pub source_ids: Seq<u64>,
    pub target_ids: Seq<u64>,
}

/// A compaction: the source level, the ids of the tables taken from it, and
/// the ids of the tables taken from the level below.
#[derive(Debug)]
pub struct CompactionTask {
    pub source: usize,
    pub source_ids: Vec<u64>,
    pub target_ids: Vec<u64>,
}

impl View for CompactionTask {
    type V = TaskView;

    open spec fn view(&self) -> TaskView {
        TaskView { source: self.source as int, source_ids: self.source_ids@, target_ids: self.target_ids@ }
    }
}

/// Whether the user keys of `t` and the range from `lo` to `hi` overlap.
pub open spec fn overlaps(t: TableView, lo: Seq<u8>, hi: Seq<u8>) -> bool {
    !lex_lt(table_largest_user_key(t), lo) && !lex_lt(hi, table_smallest_user_key(t))
}

/// The ids of those of the first `n` tables of `level` that overlap the
/// range from `lo` to `hi`.
pub open spec fn overlapping_upto(level: Seq<TableView>, lo: Seq<u8>, hi: Seq<u8>, n: int) -> Seq<u64>
    decreases n,
{
    if n <= 0 {
        Seq::empty()
    } else if overlaps(level[n - 1], lo, hi) {
        overlapping_upto(level, lo, hi, n - 1).push(level[n - 1].id)
    } else {
        overlapping_upto(level, lo, hi, n - 1)
    }
}

/// The ids of the tables of `level` that overlap the range from `lo` to `hi`.
pub open spec fn overlapping(level: Seq<TableView>, lo: Seq<u8>, hi: Seq<u8>) -> Seq<u64> {
    overlapping_upto(level, lo, hi, level.len() as int)
}

/// The smallest user key among the first `n` tables of a level, `n >= 1`.
pub open spec fn min_key_upto(level: Seq<TableView>, n: int) -> Seq<u8>
    decreases n,
{
    if n <= 1 {
        table_smallest_user_key(level[0])
    } else if lex_lt(table_smallest_user_key(level[n - 1]), min_key_upto(level, n - 1)) {
        table_smallest_user_key(level[n - 1])
    } else {
        min_key_upto(level, n - 1)
    }
}

/// The largest user key among the first `n` tables of a level, `n >= 1`.
pub open spec fn max_key_upto(level: Seq<TableView>, n: int) -> Seq<u8>
    decreases n,
{
    if n <= 1 {
        table_largest_user_key(level[0])
    } else if lex_lt(max_key_upto(level, n - 1), table_largest_user_key(level[n - 1])) {
        table_largest_user_key(level[n - 1])
    } else {
        max_key_upto(level, n - 1)
    }
}

/// The bytes of the blocks of the first `n` tables of a level together.
pub open spec fn level_bytes_upto(level: Seq<TableView>, n: int) -> int
    decreases n,
{
    if n <= 0 {
        0
    } else {
        level_bytes_upto(level, n - 1) + crate::table::table_block_bytes(level[n - 1])
    }
}

/// The size beyond which level `l` gives a table to the level below: four
/// times the table size for level 1, and four times as much for each level
/// deeper.
pub open spec fn level_limit(table_size: u32, l: int) -> int
    decreases l,
{
    if l <= 0 {
        table_size as int
    } else {
        4 * level_limit(table_size, l - 1)
    }
}

/// How many tables of `next` the table `t` overlaps.
pub open spec fn overlap_count(next: Seq<TableView>, t: TableView) -> int {
    overlapping(next, table_smallest_user_key(t), table_largest_user_key(t)).len() as int
}

/// The index of the table among the first `n` of `level`, `n >= 1`, that
/// overlaps the fewest tables of `next`; of equals the first.
pub open spec fn least_overlap_upto(level: Seq<TableView>, next: Seq<TableView>, n: int) -> int
    decreases n,
{
    if n <= 1 {
        0
    } else if overlap_count(next, level[n - 1]) < overlap_count(
        next,
        level[least_overlap_upto(level, next, n - 1)],
    ) {
        n - 1
    } else {
        least_overlap_upto(level, next, n - 1)
    }
}

/// The compaction of all of level 0 into level 1.
pub open spec fn pick_level0(v: VersionView) -> TaskView {
    let l0 = v.levels[0];
    TaskView {
        source: 0,
        source_ids: table_ids(l0),
        target_ids: overlapping(
            v.levels[1],
            min_key_upto(l0, l0.len() as int),
            max_key_upto(l0, l0.len() as int),
        ),
    }
}

/// The compaction of one table of level `l` into the level below.
pub open spec fn pick_level(v: VersionView, l: int) -> TaskView {
    let level = v.levels[l];
    let i = least_overlap_upto(level, v.levels[l + 1], level.len() as int);
    TaskView {
        source: l,
        source_ids: seq![level[i].id],
        target_ids: overlapping(
            v.levels[l + 1],
            table_smallest_user_key(level[i]),
            table_largest_user_key(level[i]),
        ),
    }
}

/// Whether level `l` has outgrown its size.
pub open spec fn level_full(v: VersionView, table_size: u32, l: int) -> bool {
    v.levels[l].len() > 0 && level_bytes_upto(v.levels[l], v.levels[l].len() as int) > level_limit(
        table_size,
        l,
    )
}

/// The first level from `l` on, above the deepest, that has outgrown its size.
pub open spec fn first_full_level(v: VersionView, table_size: u32, l: int) -> Option<int>
    decreases NUM_LEVELS - l,
{
    if l < 1 || l + 1 >= NUM_LEVELS {
        None
    } else if level_full(v, table_size, l) {
        Some(l)
    } else {
        first_full_level(v, table_size, l + 1)
    }
}

/// The compaction that a version asks for, if it asks for one.
pub open spec fn spec_pick(v: VersionView, table_size: u32) -> Option<TaskView> {
    if v.levels[0].len() >= L0_TRIGGER {
        Some(pick_level0(v))
    } else {
        match first_full_level(v, table_size, 1) {
            Some(l) => Some(pick_level(v, l)),
            None => None,
        }
    }
}

/// The ids of the tables of `level` that overlap the range from `lo` to `hi`.
pub fn find_overlapping(level: &Vec<Table>, lo: &[u8], hi: &[u8]) -> (r: Vec<u64>)
    requires
        level_tables_wf(level_view(level@)),
    ensures
        r@ == overlapping(level_view(level@), lo@, hi@),
{
    let ghost lv = level_view(level@);
    let mut out: Vec<u64> = Vec::new();
    let mut i: usize = 0;
    while i < level.len()
        invariant
            i <= level.len(),
            lv == level_view(level@),
            level_tables_wf(lv),
            out@ == overlapping_upto(lv, lo@, hi@, i as int),
        decreases level.len() - i,
    {
        assert(lv[i as int] == level@[i as int]@);
        assert(table_wf(lv[i as int]));
        let before: bool = match compare_bytes(level[i].largest_user_key(), lo) {
            KeyOrder::Less => true,
            _ => false,
        };
        let behind: bool = match compare_bytes(hi, level[i].smallest_user_key()) {
            KeyOrder::Less => true,
            _ => false,
        };
        if !before && !behind {
            out.push(level[i].id);
        }
        i += 1;
    }
    out
}

/// The user keys that the tables of a level span: the smallest and the largest.
pub fn level_span(level: &Vec<Table>) -> (r: (Vec<u8>, Vec<u8>))
    requires
        level_tables_wf(level_view(level@)),
        level@.len() > 0,
    ensures
        r.0@ == min_key_upto(level_view(level@), level@.len() as int),
        r.1@ == max_key_upto(level_view(level@), level@.len() as int),
{
    let ghost lv = level_view(level@);
    assert(lv[0] == level@[0]@);
    assert(table_wf(lv[0]));
    let mut lo: Vec<u8> = clone_bytes(level[0].smallest_user_key());
    let mut hi: Vec<u8> = clone_bytes(level[0].largest_user_key());
    let mut i: usize = 1;
    while i < level.len()
        invariant
            1 <= i <= level.len(),
            lv == level_view(level@),
            level_tables_wf(lv),
            lo@ == min_key_upto(lv, i as int),
            hi@ == max_key_upto(lv, i as int),
        decreases level.len() - i,
    {
        assert(lv[i as int] == level@[i as int]@);
        assert(table_wf(lv[i as int]));
        match compare_bytes(level[i].smallest_user_key(), lo.as_slice()) {
            KeyOrder::Less => {
                lo = clone_bytes(level[i].smallest_user_key());
            },
            _ => {},
        }
        match compare_bytes(hi.as_slice(), level[i].largest_user_key()) {
            KeyOrder::Less => {
                hi = clone_bytes(level[i].largest_user_key());
            },
            _ => {},
        }
        i += 1;
    }
    (lo, hi)
}

/// Whether the blocks of the tables of a level take more bytes than
/// `limit`. The size of a level goes by the blocks of its tables, which
/// their indexes tell without their bytes.
pub fn level_exceeds(level: &Vec<Table>, limit: u128) -> (r: bool)
    requires
        level_tables_wf(level_view(level@)),
    ensures
        r == (level_bytes_upto(level_view(level@), level@.len() as int) > limit),
{
    let ghost lv = level_view(level@);
    let mut total: u128 = 0;
    let mut i: usize = 0;
    while i < level.len()
        invariant
            i <= level.len(),
            lv == level_view(level@),
            level_tables_wf(lv),
            total == level_bytes_upto(lv, i as int),
            total <= i * 0xffff_ffff_ffff_ffff,
        decreases level.len() - i,
    {
        assert(lv[i as int] == level@[i as int]@);
        assert(table_wf(lv[i as int]));
        let n: u64 = level[i].block_bytes();
        assert((i + 1) * 0xffff_ffff_ffff_ffff == i * 0xffff_ffff_ffff_ffff + 0xffff_ffff_ffff_ffff)
            by (nonlinear_arith);
        assert(i * 0xffff_ffff_ffff_ffff <= 0xffff_ffff_ffff_ffff * 0xffff_ffff_ffff_ffff)
            by (nonlinear_arith)
            requires
                i <= 0xffff_ffff_ffff_ffff,
        ;
        total = total + n as u128;
        i += 1;
    }
    total > limit
}

/// The size beyond which level `l` gives a table to the level below.
pub fn limit_of_level(table_size: u32, l: usize) -> (r: u128)
    requires
        l < NUM_LEVELS,
    ensures
        r == level_limit(table_size, l as int),
{
    let mut r: u128 = table_size as u128;
    let mut k: usize = 0;
    while k < l
        invariant
            k <= l,
            l < NUM_LEVELS,
            r == level_limit(table_size, k as int),
            r <= 0xffff_ffff * pow4(k as nat),
            pow4(k as nat) <= 4096,
        decreases l - k,
    {
        proof {
            lemma_pow4(k as nat);
        }
        r = 4 * r;
        k += 1;
    }
    r
}

/// Four to the power of `k`.
pub open spec fn pow4(k: nat) -> int
    decreases k,
{
    if k == 0 {
        1
    } else {
        4 * pow4((k - 1) as nat)
    }
}

proof fn lemma_pow4(k: nat)
    requires
        k + 1 < NUM_LEVELS,
    ensures
        pow4(k + 1) == 4 * pow4(k),
        pow4(k + 1) <= 4096,
        pow4(k) >= 1,
{
    reveal_with_fuel(pow4, 8);
}

/// The index of the table of `level` that overlaps the fewest tables of `next`.
pub fn find_least_overlap(level: &Vec<Table>, next: &Vec<Table>) -> (r: usize)
    requires
        level_tables_wf(level_view(level@)),
        level_tables_wf(level_view(next@)),
        level@.len() > 0,
    ensures
        r == least_overlap_upto(level_view(level@), level_view(next@), level@.len() as int),
        r < level@.len(),
{
    let ghost lv = level_view(level@);
    let ghost nv = level_view(next@);
    assert(lv[0] == level@[0]@);
    assert(table_wf(lv[0]));
    let mut best: usize = 0;
    let mut best_count: usize = find_overlapping(
        next,
        level[0].smallest_user_key(),
        level[0].largest_user_key(),
    ).len();
    let mut i: usize = 1;
    while i < level.len()
        invariant
            1 <= i <= level.len(),
            lv == level_view(level@),
            nv == level_view(next@),
            level_tables_wf(lv),
            level_tables_wf(nv),
            best < i,
            best == least_overlap_upto(lv, nv, i as int),
            best_count == overlap_count(nv, lv[best as int]),
        decreases level.len() - i,
    {
        assert(lv[i as int] == level@[i as int]@);
        assert(table_wf(lv[i as int]));
        let count: usize = find_overlapping(
            next,
            level[i].smallest_user_key(),
            level[i].largest_user_key(),
        ).len();
        if count < best_count {
            best = i;
            best_count = count;
        }
        i += 1;
    }
    best
}

/// Picks the compaction that a version asks for, if it asks for one.
pub fn pick_compaction(version: &Version, table_size: u32) -> (r: Option<CompactionTask>)
    requires
        version.wf(),
    ensures
        match spec_pick(version@, table_size) {
            Some(t) => (r matches Some(task) && task@ == t),
            None => r is None,
        },
        r matches Some(task) ==> task.source + 1 < NUM_LEVELS,
{
    let ghost v = version@;
    assert(v.levels[0] == level_view(version.levels@[0]@));
    assert(level_tables_wf(v.levels[0]));
    if version.levels[0].len() >= L0_TRIGGER {
        return Some(pick_from_level0(version));
    }
    let mut l: usize = 1;
    while l + 1 < NUM_LEVELS
        invariant
            1 <= l,
            l + 1 <= NUM_LEVELS,
            v == version@,
            version.wf(),
            v.levels[0].len() < L0_TRIGGER,
            first_full_level(v, table_size, 1) == first_full_level(v, table_size, l as int),
        decreases NUM_LEVELS - l,
    {
        assert(v.levels[l as int] == level_view(version.levels@[l as int]@));
        assert(v.levels[l + 1] == level_view(version.levels@[l + 1]@));
        assert(level_tables_wf(v.levels[l as int]));
        assert(level_tables_wf(v.levels[l + 1]));
        let level: &Vec<Table> = &version.levels[l];
        if level.len() > 0 && level_exceeds(level, limit_of_level(table_size, l)) {
            let next: &Vec<Table> = &version.levels[l + 1];
            let i: usize = find_least_overlap(level, next);
            assert(v.levels[l as int][i as int] == level@[i as int]@);
            assert(table_wf(v.levels[l as int][i as int]));
            let mut source_ids: Vec<u64> = Vec::new();
            source_ids.push(level[i].id);
            let target_ids: Vec<u64> = find_overlapping(
                next,
                level[i].smallest_user_key(),
                level[i].largest_user_key(),
            );
            assert(source_ids@ =~= seq![level@[i as int].id]);
            return Some(CompactionTask { source: l, source_ids, target_ids });
        }
        l += 1;
    }
    None
}

/// The compaction of all of level 0 into level 1.
pub fn pick_from_level0(version: &Version) -> (r: CompactionTask)
    requires
        version.wf(),
        version@.levels[0].len() > 0,
    ensures
        r@ == pick_level0(version@),
        r.source == 0,
{
    let ghost v = version@;
    assert(v.levels[0] == level_view(version.levels@[0]@));
    assert(v.levels[1] == level_view(version.levels@[1]@));
    assert(level_tables_wf(v.levels[0]));
    assert(level_tables_wf(v.levels[1]));
    let l0: &Vec<Table> = &version.levels[0];
    let (lo, hi) = level_span(l0);
    let source_ids: Vec<u64> = crate::version_manager::level_ids(l0);
    let target_ids: Vec<u64> = find_overlapping(&version.levels[1], lo.as_slice(), hi.as_slice());
    CompactionTask { source: 0, source_ids, target_ids }
}

} // verus!
