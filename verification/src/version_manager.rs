//! The version manager: it publishes versions, counts the pins on them, and
//! says which tables no version needs any more.

use vstd::prelude::*;
use crate::coding::{compare_bytes, KeyOrder, lex_lt};
use crate::error::HummockError;
use crate::table::{Table, table_largest_user_key, table_smallest_user_key, TableView};
use crate::version::{
    append_level, duplicate_level, is_level_sorted, level_sorted, level_tables_wf, level_view,
    NUM_LEVELS, table_ids, tables_upto, Version, version_has, version_ids, version_tables,
    version_wf, VersionView,
};

verus! {

/// A pin as plain values: the version pinned, and the ids of its tables.
pub struct PinView {
    pub version_id: u64,
    pub epoch: u64,
    pub table_ids: Seq<u64>,
}

/// One pin on a version. A version that is pinned twice has two pins.
#[derive(Debug)]
pub struct Pin {
    pub version_id: u64,
    pub epoch: u64,
    pub table_ids: Vec<u64>,
}

impl View for Pin {
    type V = PinView;

    open spec fn view(&self) -> PinView {
        PinView { version_id: self.version_id, epoch: self.epoch, table_ids: self.table_ids@ }
    }
}

/// The pins of a vector as plain values.
pub open spec fn pins_view(pins: Seq<Pin>) -> Seq<PinView> {
    pins.map_values(|p: Pin| p@)
}

/// Whether a pinned version holds the table `id`.
pub open spec fn pinned(pins: Seq<PinView>, id: u64) -> bool {
    exists|i: int| 0 <= i < pins.len() && (#[trigger] pins[i]).table_ids.contains(id)
}

/// Whether the current version or a pinned version holds the table `id`.
pub open spec fn live(current: VersionView, pins: Seq<PinView>, id: u64) -> bool {
    version_has(current, id) || pinned(pins, id)
}

/// The smallest of `bound` and the epochs of the first `n` pins.
pub open spec fn min_epoch_upto(pins: Seq<PinView>, bound: u64, n: int) -> u64
    decreases n,
{
    if n <= 0 {
        bound
    } else if pins[n - 1].epoch < min_epoch_upto(pins, bound, n - 1) {
        pins[n - 1].epoch
    } else {
        min_epoch_upto(pins, bound, n - 1)
    }
}

/// The epoch below which no reader looks: the smallest among the epoch
/// high-water of the current version and the epochs of the pinned versions.
pub open spec fn watermark(current: VersionView, pins: Seq<PinView>) -> u64 {
    min_epoch_upto(pins, current.max_epoch, pins.len() as int)
}

/// The index of the last pin on the version `version_id` among the first
/// `n` pins; -1 if there is none.
pub open spec fn last_pin_upto(pins: Seq<PinView>, version_id: u64, n: int) -> int
    decreases n,
{
    if n <= 0 {
        -1
    } else if pins[n - 1].version_id == version_id {
        n - 1
    } else {
        last_pin_upto(pins, version_id, n - 1)
    }
}

/// The index of the last pin on the version `version_id`; -1 if there is none.
pub open spec fn last_pin(pins: Seq<PinView>, version_id: u64) -> int {
    last_pin_upto(pins, version_id, pins.len() as int)
}

/// The tables scheduled for deletion after the first `n` of `candidates`
/// have been looked at: a candidate that no version holds any more joins them.
pub open spec fn retire_upto(
    obsolete: Seq<u64>,
    candidates: Seq<u64>,
    n: int,
    current: VersionView,
    pins: Seq<PinView>,
) -> Seq<u64>
    decreases n,
{
    if n <= 0 {
        obsolete
    } else {
        let prev = retire_upto(obsolete, candidates, n - 1, current, pins);
        let c = candidates[n - 1];
        if live(current, pins, c) || prev.contains(c) {
            prev
        } else {
            prev.push(c)
        }
    }
}

/// The tables scheduled for deletion once all `candidates` have been looked at.
pub open spec fn retire(
    obsolete: Seq<u64>,
    candidates: Seq<u64>,
    current: VersionView,
    pins: Seq<PinView>,
) -> Seq<u64> {
    retire_upto(obsolete, candidates, candidates.len() as int, current, pins)
}

/// No table scheduled for deletion is held by a version.
pub open spec fn none_live(obsolete: Seq<u64>, current: VersionView, pins: Seq<PinView>) -> bool {
    forall|i: int| 0 <= i < obsolete.len() ==> !live(current, pins, #[trigger] obsolete[i])
}

/// The first `n` tables of a level without those whose id is in `ids`.
pub open spec fn without_ids_upto(level: Seq<TableView>, ids: Seq<u64>, n: int) -> Seq<TableView>
    decreases n,
{
    if n <= 0 {
        Seq::empty()
    } else if ids.contains(level[n - 1].id) {
        without_ids_upto(level, ids, n - 1)
    } else {
        without_ids_upto(level, ids, n - 1).push(level[n - 1])
    }
}

/// A level without the tables whose id is in `ids`.
pub open spec fn without_ids(level: Seq<TableView>, ids: Seq<u64>) -> Seq<TableView> {
    without_ids_upto(level, ids, level.len() as int)
}

/// Where a run of new tables goes into a level: behind the tables from
/// `from` on whose largest user key lies before the run's smallest.
pub open spec fn run_position_from(level: Seq<TableView>, first: Seq<u8>, from: int) -> int
    decreases level.len() - from,
{
    if from < 0 || from >= level.len() {
        level.len() as int
    } else if lex_lt(table_largest_user_key(level[from]), first) {
        run_position_from(level, first, from + 1)
    } else {
        from
    }
}

/// A level with a run of new tables put in at its place.
pub open spec fn with_run(level: Seq<TableView>, run: Seq<TableView>) -> Seq<TableView> {
    if run.len() == 0 {
        level
    } else {
        let p = run_position_from(level, table_smallest_user_key(run[0]), 0);
        level.take(p) + run + level.skip(p)
    }
}

/// Whether every one of `ids` is the id of a table of `level`.
pub open spec fn all_present(level: Seq<TableView>, ids: Seq<u64>) -> bool {
    forall|i: int| 0 <= i < ids.len() ==> table_ids(level).contains(#[trigger] ids[i])
}

/// Whether the ids of the new tables are new: no version holds one, none is
/// scheduled for deletion, and no two are the same.
pub open spec fn all_fresh(
    new_ids: Seq<u64>,
    current: VersionView,
    pins: Seq<PinView>,
    obsolete: Seq<u64>,
) -> bool {
    &&& forall|i: int|
        0 <= i < new_ids.len() ==> !live(current, pins, #[trigger] new_ids[i]) && !obsolete.contains(
            new_ids[i],
        )
    &&& new_ids.no_duplicates()
}

/// The version that a compaction from `source` into the level below leaves.
pub open spec fn compacted(
    v: VersionView,
    version_id: u64,
    source: int,
    source_ids: Seq<u64>,
    target_ids: Seq<u64>,
    outputs: Seq<TableView>,
) -> VersionView {
    VersionView {
        id: version_id,
        max_epoch: v.max_epoch,
        levels: v.levels.update(source, without_ids(v.levels[source], source_ids)).update(
            source + 1,
            with_run(without_ids(v.levels[source + 1], target_ids), outputs),
        ),
    }
}

/// The version that a new table at level 0 leaves.
pub open spec fn with_l0(v: VersionView, version_id: u64, t: TableView) -> VersionView {
    VersionView {
        id: version_id,
        max_epoch: if t.id > v.max_epoch {
            t.id
        } else {
            v.max_epoch
        },
        levels: v.levels.update(0, seq![t] + v.levels[0]),
    }
}

/// Whether a compaction from `source` into the level below may be
/// committed: its inputs are still in their levels, the ids of its outputs
/// are new, and both levels are sorted afterwards.
pub open spec fn commit_allowed(
    current: VersionView,
    pins: Seq<PinView>,
    obsolete: Seq<u64>,
    source: int,
    source_ids: Seq<u64>,
    target_ids: Seq<u64>,
    outputs: Seq<TableView>,
) -> bool {
    &&& all_present(current.levels[source], source_ids)
    &&& all_present(current.levels[source + 1], target_ids)
    &&& all_fresh(table_ids(outputs), current, pins, obsolete)
    &&& (source == 0 || level_sorted(without_ids(current.levels[source], source_ids)))
    &&& level_sorted(with_run(without_ids(current.levels[source + 1], target_ids), outputs))
}

/// The watermark lies at or below the epoch high-water of the current version.
pub proof fn lemma_watermark_below(current: VersionView, pins: Seq<PinView>, n: int)
    requires
        0 <= n <= pins.len(),
    ensures
        min_epoch_upto(pins, current.max_epoch, n) <= current.max_epoch,
    decreases n,
{
    if n > 0 {
        lemma_watermark_below(current, pins, n - 1);
    }
}

/// The epoch high-water never falls: a new table raises it or leaves it,
/// and a compaction leaves it.
pub proof fn lemma_epoch_never_falls(
    v: VersionView,
    version_id: u64,
    t: TableView,
    source: int,
    source_ids: Seq<u64>,
    target_ids: Seq<u64>,
    outputs: Seq<TableView>,
)
    ensures
        with_l0(v, version_id, t).max_epoch >= v.max_epoch,
        with_l0(v, version_id, t).max_epoch >= t.id,
        compacted(v, version_id, source, source_ids, target_ids, outputs).max_epoch == v.max_epoch,
{
}

/// Whether `id` is among `ids`.
pub fn contains_id(ids: &Vec<u64>, id: u64) -> (r: bool)
    ensures
        r == ids@.contains(id),
{
    let mut i: usize = 0;
    while i < ids.len()
        invariant
            i <= ids.len(),
            forall|k: int| 0 <= k < i ==> ids@[k] != id,
        decreases ids.len() - i,
    {
        if ids[i] == id {
            return true;
        }
        i += 1;
    }
    false
}

/// Whether no id occurs twice among `ids`.
pub fn all_distinct(ids: &Vec<u64>) -> (r: bool)
    ensures
        r == ids@.no_duplicates(),
{
    let mut i: usize = 0;
    while i < ids.len()
        invariant
            i <= ids.len(),
            forall|a: int, b: int| 0 <= a < b < i ==> ids@[a] != ids@[b],
        decreases ids.len() - i,
    {
        let mut j: usize = 0;
        while j < i
            invariant
                j <= i,
                i < ids.len(),
                forall|a: int| 0 <= a < j ==> ids@[a] != ids@[i as int],
            decreases i - j,
        {
            if ids[j] == ids[i] {
                return false;
            }
            j += 1;
        }
        i += 1;
    }
    true
}

/// The ids of the tables of a level.
pub fn level_ids(level: &Vec<Table>) -> (r: Vec<u64>)
    ensures
        r@ == table_ids(level_view(level@)),
{
    let ghost lv = level_view(level@);
    let mut out: Vec<u64> = Vec::new();
    let mut i: usize = 0;
    assert(out@ =~= table_ids(lv.take(0)));
    while i < level.len()
        invariant
            i <= level.len(),
            lv == level_view(level@),
            out@ == table_ids(lv.take(i as int)),
        decreases level.len() - i,
    {
        out.push(level[i].id);
        assert(lv[i as int] == level@[i as int]@);
        assert(out@ =~= table_ids(lv.take(i + 1)));
        i += 1;
    }
    assert(lv.take(level.len() as int) =~= lv);
    out
}

/// Whether every one of `ids` is the id of a table of `level`.
pub fn has_all(level: &Vec<Table>, ids: &Vec<u64>) -> (r: bool)
    ensures
        r == all_present(level_view(level@), ids@),
{
    let have: Vec<u64> = level_ids(level);
    let mut i: usize = 0;
    while i < ids.len()
        invariant
            i <= ids.len(),
            have@ == table_ids(level_view(level@)),
            forall|k: int| 0 <= k < i ==> have@.contains(#[trigger] ids@[k]),
        decreases ids.len() - i,
    {
        if !contains_id(&have, ids[i]) {
            return false;
        }
        i += 1;
    }
    true
}

/// Copies of the tables of `level` whose id is not in `ids`.
pub fn level_without(level: &Vec<Table>, ids: &Vec<u64>) -> (r: Vec<Table>)
    ensures
        level_view(r@) == without_ids(level_view(level@), ids@),
{
    let ghost lv = level_view(level@);
    let mut out: Vec<Table> = Vec::new();
    let mut i: usize = 0;
    assert(level_view(out@) =~= without_ids_upto(lv, ids@, 0));
    while i < level.len()
        invariant
            i <= level.len(),
            lv == level_view(level@),
            level_view(out@) == without_ids_upto(lv, ids@, i as int),
        decreases level.len() - i,
    {
        assert(lv[i as int] == level@[i as int]@);
        if !contains_id(ids, level[i].id) {
            let t: Table = level[i].duplicate();
            assert(level_view(out@.push(t)) =~= level_view(out@).push(t@));
            out.push(t);
        }
        i += 1;
    }
    out
}

/// Copies of the tables of `level` with copies of `run` put in at its place.
pub fn level_with_run(level: &Vec<Table>, run: &Vec<Table>) -> (r: Vec<Table>)
    requires
        level_tables_wf(level_view(level@)),
        level_tables_wf(level_view(run@)),
    ensures
        level_view(r@) == with_run(level_view(level@), level_view(run@)),
{
    let ghost lv = level_view(level@);
    let ghost rv = level_view(run@);
    if run.len() == 0 {
        return duplicate_level(level);
    }
    assert(rv[0] == run@[0]@);
    let first: &[u8] = run[0].smallest_user_key();
    let mut out: Vec<Table> = Vec::new();
    let mut p: usize = 0;
    let mut stop: bool = false;
    assert(level_view(out@) =~= lv.take(0));
    while p < level.len() && !stop
        invariant
            p <= level.len(),
            lv == level_view(level@),
            level_tables_wf(lv),
            first@ == table_smallest_user_key(rv[0]),
            level_view(out@) == lv.take(p as int),
            run_position_from(lv, first@, 0) == run_position_from(lv, first@, p as int),
            stop ==> p < level.len() && !lex_lt(table_largest_user_key(lv[p as int]), first@),
        decreases level.len() - p + if stop { 0int } else { 1int },
    {
        assert(lv[p as int] == level@[p as int]@);
        assert(crate::table::table_wf(lv[p as int]));
        match compare_bytes(level[p].largest_user_key(), first) {
            KeyOrder::Less => {
                let t: Table = level[p].duplicate();
                assert(level_view(out@.push(t)) =~= level_view(out@).push(t@));
                assert(lv.take(p + 1) =~= lv.take(p as int).push(lv[p as int]));
                out.push(t);
                p += 1;
            },
            _ => {
                stop = true;
            },
        }
    }
    assert(p == run_position_from(lv, first@, 0));
    append_level(&mut out, run);
    let ghost mid = level_view(out@);
    let mut q: usize = p;
    assert(level_view(out@) =~= mid + lv.subrange(p as int, q as int));
    while q < level.len()
        invariant
            p <= q <= level.len(),
            lv == level_view(level@),
            level_view(out@) == mid + lv.subrange(p as int, q as int),
        decreases level.len() - q,
    {
        let t: Table = level[q].duplicate();
        assert(lv[q as int] == level@[q as int]@);
        assert(level_view(out@.push(t)) =~= level_view(out@).push(t@));
        assert(lv.subrange(p as int, q + 1) =~= lv.subrange(p as int, q as int).push(lv[q as int]));
        out.push(t);
        q += 1;
    }
    assert(lv.subrange(p as int, level.len() as int) =~= lv.skip(p as int));
    out
}

/// What is left of a level holds only tables of the level.
pub proof fn lemma_without_ids_subset(level: Seq<TableView>, ids: Seq<u64>, n: int)
    requires
        0 <= n <= level.len(),
    ensures
        forall|j: int|
            0 <= j < without_ids_upto(level, ids, n).len() ==> level.contains(
                #[trigger] without_ids_upto(level, ids, n)[j],
            ) && !ids.contains(without_ids_upto(level, ids, n)[j].id),
    decreases n,
{
    if n > 0 {
        lemma_without_ids_subset(level, ids, n - 1);
        let prev = without_ids_upto(level, ids, n - 1);
        let cur = without_ids_upto(level, ids, n);
        assert forall|j: int| 0 <= j < cur.len() implies level.contains(#[trigger] cur[j])
            && !ids.contains(cur[j].id) by {
            if j < prev.len() {
                assert(cur[j] == prev[j]);
            } else {
                assert(cur[j] == level[n - 1]);
            }
        }
    }
}

/// A level with a run holds only tables of the level and of the run.
pub proof fn lemma_with_run_subset(level: Seq<TableView>, run: Seq<TableView>)
    ensures
        forall|j: int|
            0 <= j < with_run(level, run).len() ==> level.contains(#[trigger] with_run(level, run)[j])
                || run.contains(with_run(level, run)[j]),
{
    let w = with_run(level, run);
    if run.len() > 0 {
        let first = table_smallest_user_key(run[0]);
        lemma_run_position(level, first, 0);
        let p = run_position_from(level, first, 0);
        assert forall|j: int| 0 <= j < w.len() implies level.contains(#[trigger] w[j]) || run.contains(
            w[j],
        ) by {
            if j < p {
                assert(w[j] == level[j]);
            } else if j < p + run.len() {
                assert(w[j] == run[j - p]);
            } else {
                assert(w[j] == level[j - run.len()]);
            }
        }
    }
}

/// Tables that all come from well-formed levels are well formed.
pub proof fn lemma_subset_wf(a: Seq<TableView>, b: Seq<TableView>, part: Seq<TableView>)
    requires
        level_tables_wf(a),
        level_tables_wf(b),
        forall|j: int| 0 <= j < part.len() ==> a.contains(#[trigger] part[j]) || b.contains(part[j]),
    ensures
        level_tables_wf(part),
{
    assert forall|j: int| 0 <= j < part.len() implies crate::table::table_wf(#[trigger] part[j]) by {
        if a.contains(part[j]) {
            let i = choose|i: int| 0 <= i < a.len() && a[i] == part[j];
            assert(crate::table::table_wf(a[i]));
        } else {
            let i = choose|i: int| 0 <= i < b.len() && b[i] == part[j];
            assert(crate::table::table_wf(b[i]));
        }
    }
}

/// The last pin on a version, if there is one, is a pin on that version.
pub proof fn lemma_last_pin(pins: Seq<PinView>, version_id: u64, n: int)
    requires
        0 <= n <= pins.len(),
    ensures
        -1 <= last_pin_upto(pins, version_id, n) < n,
        last_pin_upto(pins, version_id, n) >= 0 ==> pins[last_pin_upto(pins, version_id, n)].version_id
            == version_id,
    decreases n,
{
    if n > 0 && pins[n - 1].version_id != version_id {
        lemma_last_pin(pins, version_id, n - 1);
    }
}

/// Every table of the version that a compaction leaves was in the version
/// before, or is one of the outputs.
pub proof fn lemma_compacted_members(
    v: VersionView,
    version_id: u64,
    source: int,
    source_ids: Seq<u64>,
    target_ids: Seq<u64>,
    outputs: Seq<TableView>,
)
    requires
        0 <= source,
        source + 1 < v.levels.len(),
    ensures
        forall|l: int, i: int|
            0 <= l < v.levels.len() && 0 <= i < compacted(
                v,
                version_id,
                source,
                source_ids,
                target_ids,
                outputs,
            ).levels[l].len() ==> crate::version::version_holds(
                v,
                #[trigger] compacted(v, version_id, source, source_ids, target_ids, outputs).levels[l][i],
            ) || outputs.contains(
                compacted(v, version_id, source, source_ids, target_ids, outputs).levels[l][i],
            ),
{
    let w = compacted(v, version_id, source, source_ids, target_ids, outputs);
    let rest = without_ids(v.levels[source + 1], target_ids);
    lemma_without_ids_subset(v.levels[source], source_ids, v.levels[source].len() as int);
    lemma_without_ids_subset(v.levels[source + 1], target_ids, v.levels[source + 1].len() as int);
    lemma_with_run_subset(rest, outputs);
    assert forall|l: int, i: int| 0 <= l < v.levels.len() && 0 <= i < w.levels[l].len() implies crate::version::version_holds(
        v,
        #[trigger] w.levels[l][i],
    ) || outputs.contains(w.levels[l][i]) by {
        let t = w.levels[l][i];
        if l == source {
            let level = v.levels[source];
            let j = choose|j: int| 0 <= j < level.len() && level[j] == t;
            assert(v.levels[source][j] == t);
        } else if l == source + 1 {
            if rest.contains(t) {
                let level = v.levels[source + 1];
                let j = choose|j: int| 0 <= j < level.len() && level[j] == t;
                assert(v.levels[source + 1][j] == t);
            }
        } else {
            assert(v.levels[l][i] == t);
        }
    }
}

/// The place of a run lies within the level.
pub proof fn lemma_run_position(level: Seq<TableView>, first: Seq<u8>, from: int)
    requires
        0 <= from <= level.len(),
    ensures
        from <= run_position_from(level, first, from) <= level.len(),
    decreases level.len() - from,
{
    if from < level.len() && lex_lt(table_largest_user_key(level[from]), first) {
        lemma_run_position(level, first, from + 1);
    }
}

/// The retired tables are the old ones and candidates that no version holds.
pub proof fn lemma_retire_none_live(
    obsolete: Seq<u64>,
    candidates: Seq<u64>,
    n: int,
    current: VersionView,
    pins: Seq<PinView>,
)
    requires
        0 <= n <= candidates.len(),
        none_live(obsolete, current, pins),
    ensures
        none_live(retire_upto(obsolete, candidates, n, current, pins), current, pins),
        forall|i: int|
            0 <= i < obsolete.len() ==> retire_upto(obsolete, candidates, n, current, pins).contains(
                #[trigger] obsolete[i],
            ),
    decreases n,
{
    if n > 0 {
        lemma_retire_none_live(obsolete, candidates, n - 1, current, pins);
        let prev = retire_upto(obsolete, candidates, n - 1, current, pins);
        let cur = retire_upto(obsolete, candidates, n, current, pins);
        assert forall|i: int| 0 <= i < cur.len() implies !live(current, pins, #[trigger] cur[i]) by {
            if i < prev.len() {
                assert(cur[i] == prev[i]);
            }
        }
        assert forall|i: int| 0 <= i < obsolete.len() implies cur.contains(#[trigger] obsolete[i]) by {
            let k = choose|k: int| 0 <= k < prev.len() && prev[k] == obsolete[i];
            assert(cur[k] == obsolete[i]);
        }
    } else {
        assert forall|i: int| 0 <= i < obsolete.len() implies obsolete.contains(#[trigger] obsolete[i]) by {
            assert(obsolete[i] == obsolete[i]);
        }
    }
}

/// The version manager: the current version, the pins on versions, and the
/// tables that no version needs any more.
pub struct VersionManager {
    current: Version,
    pins: Vec<Pin>,
    obsolete: Vec<u64>,
}

impl VersionManager {
    /// The current version.
    pub closed spec fn current(&self) -> VersionView {
        self.current@
    }

    /// The pins, oldest first.
    pub closed spec fn pins(&self) -> Seq<PinView> {
        pins_view(self.pins@)
    }

    /// The tables scheduled for deletion.
    pub closed spec fn obsolete(&self) -> Seq<u64> {
        self.obsolete@
    }

    /// The current version is well formed, and no table scheduled for
    /// deletion is held by the current version or by a pinned one.
    pub closed spec fn wf(&self) -> bool {
        &&& version_wf(self.current@)
        &&& none_live(self.obsolete@, self.current@, pins_view(self.pins@))
    }

    /// What `wf` says.
    pub proof fn lemma_wf(&self)
        requires
            self.wf(),
        ensures
            version_wf(self.current()),
            none_live(self.obsolete(), self.current(), self.pins()),
    {
    }

    /// No table of a pinned version, and no table of the current version,
    /// is scheduled for deletion.
    pub proof fn lemma_pinned_tables_kept(&self, id: u64)
        requires
            self.wf(),
            live(self.current(), self.pins(), id),
        ensures
            !self.obsolete().contains(id),
    {
        if self.obsolete().contains(id) {
            let k = choose|k: int| 0 <= k < self.obsolete().len() && self.obsolete()[k] == id;
            assert(!live(self.current(), self.pins(), self.obsolete()[k]));
        }
    }

    /// A manager whose current version holds no table.
    pub fn new() -> (r: VersionManager)
        ensures
            r.wf(),
            r.current().id == 0,
            r.current().max_epoch == 0,
            version_tables(r.current()).len() == 0,
            r.current().levels.len() == NUM_LEVELS,
            forall|l: int| 0 <= l < NUM_LEVELS ==> (#[trigger] r.current().levels[l]).len() == 0,
            forall|id: u64| !version_has(r.current(), id),
            r.pins().len() == 0,
            r.obsolete().len() == 0,
    {
        let r = VersionManager { current: Version::empty(), pins: Vec::new(), obsolete: Vec::new() };
        assert(pins_view(r.pins@) =~= Seq::<PinView>::empty());
        r
    }

    /// The current version.
    pub fn current_version(&self) -> (r: &Version)
        ensures
            r@ == self.current(),
    {
        &self.current
    }

    /// The highest epoch published so far.
    pub fn max_epoch(&self) -> (r: u64)
        ensures
            r == self.current().max_epoch,
    {
        self.current.max_epoch
    }

    /// The epoch below which no reader looks.
    pub fn min_pinned_epoch(&self) -> (r: u64)
        ensures
            r == watermark(self.current(), self.pins()),
    {
        let ghost pv = pins_view(self.pins@);
        let mut low: u64 = self.current.max_epoch;
        let mut i: usize = 0;
        while i < self.pins.len()
            invariant
                i <= self.pins.len(),
                pv == pins_view(self.pins@),
                low == min_epoch_upto(pv, self.current@.max_epoch, i as int),
            decreases self.pins.len() - i,
        {
            assert(pv[i as int] == self.pins@[i as int]@);
            if self.pins[i].epoch < low {
                low = self.pins[i].epoch;
            }
            i += 1;
        }
        low
    }

    /// Whether a pinned version holds the table `id`.
    pub fn is_pinned(&self, id: u64) -> (r: bool)
        ensures
            r == pinned(self.pins(), id),
    {
        let ghost pv = pins_view(self.pins@);
        let mut i: usize = 0;
        while i < self.pins.len()
            invariant
                i <= self.pins.len(),
                pv == pins_view(self.pins@),
                forall|k: int| 0 <= k < i ==> !(#[trigger] pv[k]).table_ids.contains(id),
            decreases self.pins.len() - i,
        {
            assert(pv[i as int] == self.pins@[i as int]@);
            if contains_id(&self.pins[i].table_ids, id) {
                return true;
            }
            i += 1;
        }
        false
    }

    /// Whether the current version or a pinned version holds the table `id`.
    pub fn is_live(&self, id: u64) -> (r: bool)
        ensures
            r == live(self.current(), self.pins(), id),
    {
        self.current.has_table(id) || self.is_pinned(id)
    }

    /// Whether the table `id` is scheduled for deletion.
    pub fn is_obsolete(&self, id: u64) -> (r: bool)
        ensures
            r == self.obsolete().contains(id),
    {
        contains_id(&self.obsolete, id)
    }

    /// Pins the current version: returns a copy of it and registers one
    /// more pin on it.
    pub fn pin(&mut self) -> (r: Version)
        requires
            old(self).wf(),
        ensures
            final(self).wf(),
            r@ == old(self).current(),
            final(self).current() == old(self).current(),
            final(self).obsolete() == old(self).obsolete(),
            final(self).pins() == old(self).pins().push(
                PinView {
                    version_id: old(self).current().id,
                    epoch: old(self).current().max_epoch,
                    table_ids: version_ids(old(self).current()),
                },
            ),
    {
        let ghost old_pins = pins_view(self.pins@);
        let pin = Pin {
            version_id: self.current.id,
            epoch: self.current.max_epoch,
            table_ids: self.current.ids(),
        };
        let ghost pv = pin@;
        self.pins.push(pin);
        proof {
            assert(pins_view(self.pins@) =~= old_pins.push(pv));
            lemma_version_ids_has(self.current@);
            let new_pins = pins_view(self.pins@);
            assert forall|i: int| 0 <= i < self.obsolete@.len() implies !live(
                self.current@,
                new_pins,
                #[trigger] self.obsolete@[i],
            ) by {
                let id = self.obsolete@[i];
                assert(!live(self.current@, old_pins, id));
                if pinned(new_pins, id) {
                    let k = choose|k: int| 0 <= k < new_pins.len() && (#[trigger] new_pins[k]).table_ids.contains(id);
                    if k < old_pins.len() {
                        assert(old_pins[k] == new_pins[k]);
                        assert(pinned(old_pins, id));
                    }
                }
            }
        }
        self.current.duplicate()
    }

    /// Looks at `candidates` and schedules for deletion those that no
    /// version holds any more.
    fn retire_tables(&mut self, candidates: &Vec<u64>)
        requires
            old(self).wf(),
        ensures
            final(self).wf(),
            final(self).current() == old(self).current(),
            final(self).pins() == old(self).pins(),
            final(self).obsolete() == retire(
                old(self).obsolete(),
                candidates@,
                old(self).current(),
                old(self).pins(),
            ),
    {
        let ghost start = self.obsolete@;
        let ghost cur = self.current@;
        let ghost pv = pins_view(self.pins@);
        let mut i: usize = 0;
        while i < candidates.len()
            invariant
                i <= candidates.len(),
                self.current@ == cur,
                pins_view(self.pins@) == pv,
                version_wf(cur),
                none_live(start, cur, pv),
                self.obsolete@ == retire_upto(start, candidates@, i as int, cur, pv),
            decreases candidates.len() - i,
        {
            let c: u64 = candidates[i];
            if !self.is_live(c) && !self.is_obsolete(c) {
                self.obsolete.push(c);
            }
            i += 1;
        }
        proof {
            lemma_retire_none_live(start, candidates@, candidates@.len() as int, cur, pv);
        }
    }

    /// Takes the newest pin off the version `version_id`. Tables that no
    /// version holds any more are scheduled for deletion. Returns whether the
    /// version was pinned.
    pub fn unpin(&mut self, version_id: u64) -> (r: bool)
        requires
            old(self).wf(),
        ensures
            final(self).wf(),
            final(self).current() == old(self).current(),
            r == (last_pin(old(self).pins(), version_id) >= 0),
            !r ==> final(self).pins() == old(self).pins() && final(self).obsolete() == old(self).obsolete(),
            r ==> final(self).pins() == old(self).pins().remove(last_pin(old(self).pins(), version_id))
                && final(self).obsolete() == retire(
                old(self).obsolete(),
                old(self).pins()[last_pin(old(self).pins(), version_id)].table_ids,
                old(self).current(),
                final(self).pins(),
            ),
    {
        let ghost pv = pins_view(self.pins@);
        let mut i: usize = self.pins.len();
        while i > 0 && self.pins[i - 1].version_id != version_id
            invariant
                i <= self.pins.len(),
                pv == pins_view(self.pins@),
                self.pins == old(self).pins,
                last_pin(pv, version_id) == last_pin_upto(pv, version_id, i as int),
            decreases i,
        {
            assert(pv[i - 1] == self.pins@[i - 1]@);
            i -= 1;
        }
        if i == 0 {
            return false;
        }
        assert(pv[i - 1] == self.pins@[i - 1]@);
        let at: usize = i - 1;
        let gone: Pin = self.pins.remove(at);
        proof {
            let new_pins = pins_view(self.pins@);
            assert(new_pins =~= pv.remove(at as int));
            assert forall|k: int| 0 <= k < self.obsolete@.len() implies !live(
                self.current@,
                new_pins,
                #[trigger] self.obsolete@[k],
            ) by {
                let id = self.obsolete@[k];
                assert(!live(self.current@, pv, id));
                if pinned(new_pins, id) {
                    let j = choose|j: int| 0 <= j < new_pins.len() && (#[trigger] new_pins[j]).table_ids.contains(id);
                    if j < at {
                        assert(pv[j] == new_pins[j]);
                    } else {
                        assert(pv[j + 1] == new_pins[j]);
                    }
                    assert(pinned(pv, id));
                }
            }
        }
        self.retire_tables(&gone.table_ids);
        true
    }

    /// Publishes the version `version_id` with `table` in front of level 0.
    /// The epoch high-water rises to the table's id where that is higher. A
    /// table whose id is in use, or scheduled for deletion, is refused.
    pub fn add_l0(&mut self, version_id: u64, table: Table) -> (r: Result<(), HummockError>)
        requires
            old(self).wf(),
            table.wf(),
            old(self).current().id < version_id,
        ensures
            final(self).wf(),
            final(self).pins() == old(self).pins(),
            final(self).obsolete() == old(self).obsolete(),
            live(old(self).current(), old(self).pins(), table.id) || old(self).obsolete().contains(
                table.id,
            ) ==> r == Err::<(), HummockError>(HummockError::VersionConflict) && final(self).current()
                == old(self).current(),
            !live(old(self).current(), old(self).pins(), table.id) && !old(self).obsolete().contains(
                table.id,
            ) ==> r is Ok && final(self).current() == with_l0(old(self).current(), version_id, table@),
    {
        if self.is_live(table.id) || self.is_obsolete(table.id) {
            return Err(HummockError::VersionConflict);
        }
        let ghost old_cur = self.current@;
        let ghost tv = table@;
        let ghost pv = pins_view(self.pins@);
        let id: u64 = table.id;
        let mut level0: Vec<Table> = Vec::new();
        level0.push(table);
        assert(level_view(level0@) =~= seq![tv]);
        assert(old_cur.levels[0] == level_view(self.current.levels@[0]@));
        append_level(&mut level0, &self.current.levels[0]);
        self.current.levels.set(0, level0);
        self.current.id = version_id;
        if id > self.current.max_epoch {
            self.current.max_epoch = id;
        }
        proof {
            let new_cur = self.current@;
            assert(new_cur.levels =~= old_cur.levels.update(0, seq![tv] + old_cur.levels[0]));
            assert(new_cur == with_l0(old_cur, version_id, tv));
            assert forall|l: int| 0 <= l < new_cur.levels.len() implies level_tables_wf(
                #[trigger] new_cur.levels[l],
            ) by {
                assert(level_tables_wf(old_cur.levels[l]));
                if l == 0 {
                    assert forall|i: int| 0 <= i < new_cur.levels[0].len() implies crate::table::table_wf(
                        #[trigger] new_cur.levels[0][i],
                    ) by {
                        if i > 0 {
                            assert(new_cur.levels[0][i] == old_cur.levels[0][i - 1]);
                        }
                    }
                }
            }
            assert forall|l: int| 1 <= l < new_cur.levels.len() implies level_sorted(
                #[trigger] new_cur.levels[l],
            ) by {
                assert(level_sorted(old_cur.levels[l]));
            }
            assert forall|k: int| 0 <= k < self.obsolete@.len() implies !live(
                new_cur,
                pv,
                #[trigger] self.obsolete@[k],
            ) by {
                let x = self.obsolete@[k];
                assert(!live(old_cur, pv, x));
                if version_has(new_cur, x) {
                    let (l, i) = choose|l: int, i: int|
                        0 <= l < new_cur.levels.len() && 0 <= i < new_cur.levels[l].len() && (
                        #[trigger] new_cur.levels[l][i]).id == x;
                    if l == 0 {
                        if i == 0 {
                            assert(self.obsolete@.contains(x));
                        } else {
                            assert(old_cur.levels[0][i - 1].id == x);
                        }
                    } else {
                        assert(old_cur.levels[l][i].id == x);
                    }
                }
            }
        }
        Ok(())
    }

    /// Whether the ids of `outputs` are new: no version holds one, none is
    /// scheduled for deletion, and no two are the same.
    fn outputs_fresh(&self, outputs: &Vec<Table>) -> (r: bool)
        ensures
            r == all_fresh(
                table_ids(level_view(outputs@)),
                self.current(),
                self.pins(),
                self.obsolete(),
            ),
    {
        let ids: Vec<u64> = level_ids(outputs);
        let mut i: usize = 0;
        while i < ids.len()
            invariant
                i <= ids.len(),
                ids@ == table_ids(level_view(outputs@)),
                forall|k: int|
                    0 <= k < i ==> !live(self.current(), self.pins(), #[trigger] ids@[k])
                        && !self.obsolete().contains(ids@[k]),
            decreases ids.len() - i,
        {
            if self.is_live(ids[i]) || self.is_obsolete(ids[i]) {
                return false;
            }
            i += 1;
        }
        all_distinct(&ids)
    }

    /// Publishes, as version `version_id`, what a compaction leaves: the inputs leave
    /// their levels, the outputs enter the level below the source level, and
    /// inputs that no version holds any more are scheduled for deletion. A
    /// compaction whose inputs are gone, whose outputs carry ids in use, or
    /// that would leave a level unsorted is refused.
    pub fn commit_compaction(
        &mut self,
        version_id: u64,
        source: usize,
        source_ids: &Vec<u64>,
        target_ids: &Vec<u64>,
        outputs: Vec<Table>,
    ) -> (r: Result<(), HummockError>)
        requires
            old(self).wf(),
            source + 1 < NUM_LEVELS,
            level_tables_wf(level_view(outputs@)),
            old(self).current().id < version_id,
        ensures
            final(self).wf(),
            final(self).pins() == old(self).pins(),
            !commit_allowed(
                old(self).current(),
                old(self).pins(),
                old(self).obsolete(),
                source as int,
                source_ids@,
                target_ids@,
                level_view(outputs@),
            ) ==> r == Err::<(), HummockError>(HummockError::VersionConflict) && final(self).current()
                == old(self).current() && final(self).obsolete() == old(self).obsolete(),
            commit_allowed(
                old(self).current(),
                old(self).pins(),
                old(self).obsolete(),
                source as int,
                source_ids@,
                target_ids@,
                level_view(outputs@),
            ) ==> r is Ok && final(self).current() == compacted(
                old(self).current(),
                version_id,
                source as int,
                source_ids@,
                target_ids@,
                level_view(outputs@),
            ) && final(self).obsolete() == retire(
                retire(old(self).obsolete(), source_ids@, final(self).current(), old(self).pins()),
                target_ids@,
                final(self).current(),
                old(self).pins(),
            ),
    {
        let ghost old_cur = self.current@;
        let ghost pv = pins_view(self.pins@);
        let ghost ov = level_view(outputs@);
        let target: usize = source + 1;
        assert(old_cur.levels[source as int] == level_view(self.current.levels@[source as int]@));
        assert(old_cur.levels[target as int] == level_view(self.current.levels@[target as int]@));
        assert(level_tables_wf(old_cur.levels[source as int]));
        assert(level_tables_wf(old_cur.levels[target as int]));
        if !has_all(&self.current.levels[source], source_ids) {
            return Err(HummockError::VersionConflict);
        }
        if !has_all(&self.current.levels[target], target_ids) {
            return Err(HummockError::VersionConflict);
        }
        if !self.outputs_fresh(&outputs) {
            return Err(HummockError::VersionConflict);
        }
        let new_source: Vec<Table> = level_without(&self.current.levels[source], source_ids);
        let rest: Vec<Table> = level_without(&self.current.levels[target], target_ids);
        proof {
            lemma_without_ids_subset(old_cur.levels[source as int], source_ids@, old_cur.levels[source as int].len() as int);
            lemma_without_ids_subset(old_cur.levels[target as int], target_ids@, old_cur.levels[target as int].len() as int);
            lemma_subset_wf(old_cur.levels[source as int], Seq::empty(), level_view(new_source@));
            lemma_subset_wf(old_cur.levels[target as int], Seq::empty(), level_view(rest@));
        }
        let new_target: Vec<Table> = level_with_run(&rest, &outputs);
        proof {
            lemma_with_run_subset(level_view(rest@), ov);
            lemma_subset_wf(level_view(rest@), ov, level_view(new_target@));
        }
        if source > 0 && !is_level_sorted(&new_source) {
            return Err(HummockError::VersionConflict);
        }
        if !is_level_sorted(&new_target) {
            return Err(HummockError::VersionConflict);
        }
        let ghost ns = level_view(new_source@);
        let ghost nt = level_view(new_target@);
        self.current.levels.set(source, new_source);
        self.current.levels.set(target, new_target);
        self.current.id = version_id;
        proof {
            let new_cur = self.current@;
            assert(new_cur.levels =~= old_cur.levels.update(source as int, ns).update(target as int, nt));
            assert forall|l: int| 0 <= l < new_cur.levels.len() implies level_tables_wf(
                #[trigger] new_cur.levels[l],
            ) by {
                assert(level_tables_wf(old_cur.levels[l]));
            }
            assert forall|l: int| 1 <= l < new_cur.levels.len() implies level_sorted(
                #[trigger] new_cur.levels[l],
            ) by {
                assert(level_sorted(old_cur.levels[l]));
            }
            assert forall|k: int| 0 <= k < self.obsolete@.len() implies !live(
                new_cur,
                pv,
                #[trigger] self.obsolete@[k],
            ) by {
                let x = self.obsolete@[k];
                assert(!live(old_cur, pv, x));
                if version_has(new_cur, x) {
                    let (l, i) = choose|l: int, i: int|
                        0 <= l < new_cur.levels.len() && 0 <= i < new_cur.levels[l].len() && (
                        #[trigger] new_cur.levels[l][i]).id == x;
                    let t = new_cur.levels[l][i];
                    if l == source {
                        let j = choose|j: int| 0 <= j < old_cur.levels[l].len() && old_cur.levels[l][j] == t;
                        assert(old_cur.levels[l][j].id == x);
                    } else if l == target {
                        if level_view(rest@).contains(t) {
                            let a = choose|a: int| 0 <= a < level_view(rest@).len() && level_view(rest@)[a] == t;
                            let j = choose|j: int| 0 <= j < old_cur.levels[l].len() && old_cur.levels[l][j] == level_view(rest@)[a];
                            assert(old_cur.levels[l][j].id == x);
                        } else {
                            let a = choose|a: int| 0 <= a < ov.len() && ov[a] == t;
                            assert(table_ids(ov)[a] == x);
                            assert(self.obsolete@.contains(x));
                        }
                    } else {
                        assert(old_cur.levels[l][i].id == x);
                    }
                }
            }
        }
        self.retire_tables(source_ids);
        self.retire_tables(target_ids);
        Ok(())
    }

    /// Takes the tables scheduled for deletion off the manager's list.
    pub fn take_obsolete(&mut self) -> (r: Vec<u64>)
        requires
            old(self).wf(),
        ensures
            final(self).wf(),
            r@ == old(self).obsolete(),
            final(self).obsolete().len() == 0,
            final(self).current() == old(self).current(),
            final(self).pins() == old(self).pins(),
    {
        let mut out: Vec<u64> = Vec::new();
        core::mem::swap(&mut out, &mut self.obsolete);
        out
    }
}

/// The ids of a version are the ids of the tables that it holds.
pub proof fn lemma_version_ids_has(v: VersionView)
    ensures
        forall|id: u64| version_ids(v).contains(id) <==> version_has(v, id),
{
    assert forall|id: u64| version_ids(v).contains(id) <==> version_has(v, id) by {
        lemma_ids_upto_has(v, v.levels.len() as int, id);
    }
}

/// Whether one of the first `n` levels holds a table with the id `id`.
pub open spec fn levels_have(v: VersionView, n: int, id: u64) -> bool {
    exists|l: int, i: int| 0 <= l < n && 0 <= i < v.levels[l].len() && (#[trigger] v.levels[l][i]).id == id
}

proof fn lemma_ids_upto_has(v: VersionView, n: int, id: u64)
    requires
        0 <= n <= v.levels.len(),
    ensures
        table_ids(tables_upto(v.levels, n)).contains(id) <==> levels_have(v, n, id),
    decreases n,
{
    if n > 0 {
        lemma_ids_upto_has(v, n - 1, id);
        let prev = tables_upto(v.levels, n - 1);
        let all = tables_upto(v.levels, n);
        let last = v.levels[n - 1];
        if table_ids(all).contains(id) {
            let k = choose|k: int| 0 <= k < table_ids(all).len() && table_ids(all)[k] == id;
            if k < prev.len() {
                assert(table_ids(prev)[k] == id);
                assert(levels_have(v, n - 1, id));
                let (l, i) = choose|l: int, i: int|
                    0 <= l < n - 1 && 0 <= i < v.levels[l].len() && (#[trigger] v.levels[l][i]).id == id;
                assert(0 <= l < n && v.levels[l][i].id == id);
            } else {
                assert(all[k] == last[k - prev.len()]);
                assert(v.levels[n - 1][k - prev.len()].id == id);
            }
        }
        if levels_have(v, n, id) {
            let (l, i) = choose|l: int, i: int|
                0 <= l < n && 0 <= i < v.levels[l].len() && (#[trigger] v.levels[l][i]).id == id;
            if l < n - 1 {
                assert(levels_have(v, n - 1, id));
                let k = choose|k: int| 0 <= k < table_ids(prev).len() && table_ids(prev)[k] == id;
                assert(table_ids(all)[k] == id);
            } else {
                assert(all[prev.len() + i] == last[i]);
                assert(table_ids(all)[prev.len() + i] == id);
            }
        }
    } else {
        if table_ids(tables_upto(v.levels, n)).contains(id) {
            assert(false);
        }
    }
}

} // verus!
