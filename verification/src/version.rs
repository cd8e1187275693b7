//! Versions: immutable snapshots of the level set.
//!
//! Level 0 holds tables that may overlap, newest first. In every deeper
//! level the tables hold disjoint ranges of user keys, in ascending order.

use vstd::prelude::*;
use crate::coding::{compare_bytes, KeyOrder, lex_lt};
use crate::table::{Table, table_largest_user_key, table_smallest_user_key, table_wf, TableView};

verus! {

/// The number of levels of a version.
pub const NUM_LEVELS: usize = 7;

/// The tables of one level, as plain values.
pub open spec fn level_view(level: Seq<Table>) -> Seq<TableView> {
    level.map_values(|t: Table| t@)
}

/// A version as plain values.
pub struct VersionView {
    pub id: u64,
    pub max_epoch: u64,
    pub levels: Seq<Seq<TableView>>,
}

/// A snapshot of the level set: for each level its tables in order, and the
/// highest epoch published so far.
pub struct Version {
    pub id: u64,
    pub max_epoch: u64,
    pub levels: Vec<Vec<Table>>,
}

impl View for Version {
    type V = VersionView;

    open spec fn view(&self) -> VersionView {
        VersionView {
            id: self.id,
            max_epoch: self.max_epoch,
            levels: self.levels@.map_values(|l: Vec<Table>| level_view(l@)),
        }
    }
}

/// The tables of a level hold disjoint ranges of user keys in ascending order.
pub open spec fn level_sorted(level: Seq<TableView>) -> bool {
    forall|i: int, j: int|
        0 <= i < j < level.len() ==> lex_lt(
            table_largest_user_key(#[trigger] level[i]),
            table_smallest_user_key(#[trigger] level[j]),
        )
}

/// Every table of a level is well formed.
pub open spec fn level_tables_wf(level: Seq<TableView>) -> bool {
    forall|i: int| 0 <= i < level.len() ==> table_wf(#[trigger] level[i])
}

/// A version has all its levels, its tables are well formed, and every
/// level but the first is sorted.
pub open spec fn version_wf(v: VersionView) -> bool {
    &&& v.levels.len() == NUM_LEVELS
    &&& forall|l: int| 0 <= l < v.levels.len() ==> level_tables_wf(#[trigger] v.levels[l])
    &&& forall|l: int| 1 <= l < v.levels.len() ==> level_sorted(#[trigger] v.levels[l])
}

/// The tables of the first `n` levels, level after level.
pub open spec fn tables_upto(levels: Seq<Seq<TableView>>, n: int) -> Seq<TableView>
    decreases n,
{
    if n <= 0 {
        Seq::empty()
    } else {
        tables_upto(levels, n - 1) + levels[n - 1]
    }
}

/// All tables of a version: level 0 newest first, then the deeper levels.
pub open spec fn version_tables(v: VersionView) -> Seq<TableView> {
    tables_upto(v.levels, v.levels.len() as int)
}

/// The ids of some tables.
pub open spec fn table_ids(tables: Seq<TableView>) -> Seq<u64> {
    tables.map_values(|t: TableView| t.id)
}

/// The ids of all tables of a version.
pub open spec fn version_ids(v: VersionView) -> Seq<u64> {
    table_ids(version_tables(v))
}

/// Whether a version holds a table with the id `id`.
pub open spec fn version_has(v: VersionView, id: u64) -> bool {
    exists|l: int, i: int|
        0 <= l < v.levels.len() && 0 <= i < v.levels[l].len() && (#[trigger] v.levels[l][i]).id == id
}

/// Whether a version holds the table `t`.
pub open spec fn version_holds(v: VersionView, t: TableView) -> bool {
    exists|l: int, i: int| 0 <= l < v.levels.len() && 0 <= i < v.levels[l].len() && #[trigger] v.levels[l][i] == t
}

/// Whether one of the first `n` levels holds the table `t`.
pub open spec fn levels_hold(levels: Seq<Seq<TableView>>, n: int, t: TableView) -> bool {
    exists|l: int, i: int| 0 <= l < n && 0 <= i < levels[l].len() && #[trigger] levels[l][i] == t
}

/// The tables of the first levels together are the tables that the levels hold.
pub proof fn lemma_tables_upto_hold(levels: Seq<Seq<TableView>>, n: int)
    requires
        0 <= n <= levels.len(),
    ensures
        forall|k: int|
            0 <= k < tables_upto(levels, n).len() ==> levels_hold(
                levels,
                n,
                #[trigger] tables_upto(levels, n)[k],
            ),
        forall|l: int, i: int|
            0 <= l < n && 0 <= i < levels[l].len() ==> tables_upto(levels, n).contains(
                #[trigger] levels[l][i],
            ),
    decreases n,
{
    if n > 0 {
        lemma_tables_upto_hold(levels, n - 1);
        let prev = tables_upto(levels, n - 1);
        let all = tables_upto(levels, n);
        assert forall|k: int| 0 <= k < all.len() implies levels_hold(levels, n, #[trigger] all[k]) by {
            if k < prev.len() {
                assert(all[k] == prev[k]);
                assert(levels_hold(levels, n - 1, prev[k]));
                let (l, i) = choose|l: int, i: int|
                    0 <= l < n - 1 && 0 <= i < levels[l].len() && #[trigger] levels[l][i] == prev[k];
                assert(0 <= l < n && levels[l][i] == all[k]);
            } else {
                assert(all[k] == levels[n - 1][k - prev.len()]);
            }
        }
        assert forall|l: int, i: int| 0 <= l < n && 0 <= i < levels[l].len() implies all.contains(
            #[trigger] levels[l][i],
        ) by {
            if l < n - 1 {
                assert(prev.contains(levels[l][i]));
                let k = choose|k: int| 0 <= k < prev.len() && prev[k] == levels[l][i];
                assert(all[k] == levels[l][i]);
            } else {
                assert(all[prev.len() + i] == levels[l][i]);
            }
        }
    }
}

/// The tables of a version are the tables that its levels hold.
pub proof fn lemma_version_tables_hold(v: VersionView)
    ensures
        forall|k: int|
            0 <= k < version_tables(v).len() ==> version_holds(v, #[trigger] version_tables(v)[k]),
        forall|l: int, i: int|
            0 <= l < v.levels.len() && 0 <= i < v.levels[l].len() ==> version_tables(v).contains(
                #[trigger] v.levels[l][i],
            ),
{
    lemma_tables_upto_hold(v.levels, v.levels.len() as int);
    assert forall|k: int| 0 <= k < version_tables(v).len() implies version_holds(
        v,
        #[trigger] version_tables(v)[k],
    ) by {
        let t = version_tables(v)[k];
        assert(levels_hold(v.levels, v.levels.len() as int, t));
        let (l, i) = choose|l: int, i: int|
            0 <= l < v.levels.len() && 0 <= i < v.levels[l].len() && #[trigger] v.levels[l][i] == t;
        assert(v.levels[l][i] == t);
    }
}

/// Every table among the first levels is well formed, if every level's are.
pub proof fn lemma_tables_upto_wf(levels: Seq<Seq<TableView>>, n: int)
    requires
        0 <= n <= levels.len(),
        forall|l: int| 0 <= l < levels.len() ==> level_tables_wf(#[trigger] levels[l]),
    ensures
        level_tables_wf(tables_upto(levels, n)),
    decreases n,
{
    if n > 0 {
        lemma_tables_upto_wf(levels, n - 1);
        assert(level_tables_wf(levels[n - 1]));
        let prev = tables_upto(levels, n - 1);
        let all = tables_upto(levels, n);
        assert forall|i: int| 0 <= i < all.len() implies table_wf(#[trigger] all[i]) by {
            if i < prev.len() {
                assert(all[i] == prev[i]);
            } else {
                assert(all[i] == levels[n - 1][i - prev.len()]);
            }
        }
    }
}

/// Copies the tables of a level.
pub fn duplicate_level(level: &Vec<Table>) -> (r: Vec<Table>)
    ensures
        level_view(r@) == level_view(level@),
{
    let mut out: Vec<Table> = Vec::new();
    let mut i: usize = 0;
    while i < level.len()
        invariant
            i <= level.len(),
            level_view(out@) == level_view(level@).take(i as int),
        decreases level.len() - i,
    {
        let t: Table = level[i].duplicate();
        assert(level_view(out@.push(t)) =~= level_view(level@).take(i as int).push(t@));
        assert(level_view(level@).take(i + 1) =~= level_view(level@).take(i as int).push(level@[i as int]@));
        out.push(t);
        i += 1;
    }
    assert(level_view(level@).take(level.len() as int) =~= level_view(level@));
    out
}

/// Appends copies of the tables of `level` to `out`.
pub fn append_level(out: &mut Vec<Table>, level: &Vec<Table>)
    ensures
        level_view(final(out)@) == level_view(old(out)@) + level_view(level@),
{
    let ghost start = level_view(out@);
    let mut i: usize = 0;
    assert(level_view(out@) =~= start + level_view(level@).take(0));
    while i < level.len()
        invariant
            i <= level.len(),
            level_view(out@) == start + level_view(level@).take(i as int),
        decreases level.len() - i,
    {
        let t: Table = level[i].duplicate();
        assert(level_view(out@.push(t)) =~= level_view(out@).push(t@));
        assert(level_view(out@).push(t@) =~= start + level_view(level@).take(i as int).push(t@));
        assert(level_view(level@).take(i + 1) =~= level_view(level@).take(i as int).push(level@[i as int]@));
        out.push(t);
        i += 1;
    }
    assert(level_view(level@).take(level.len() as int) =~= level_view(level@));
}

/// Whether the tables of a level hold disjoint ranges of user keys in
/// ascending order.
pub fn is_level_sorted(level: &Vec<Table>) -> (r: bool)
    requires
        level_tables_wf(level_view(level@)),
    ensures
        r == level_sorted(level_view(level@)),
{
    let ghost lv = level_view(level@);
    let n: usize = level.len();
    if n <= 1 {
        return true;
    }
    // Within a table the smallest user key is not above the largest, so it
    // is enough to hold each table against its neighbour.
    let mut j: usize = 1;
    while j < n
        invariant
            1 <= j <= n,
            n == level.len(),
            lv == level_view(level@),
            level_tables_wf(lv),
            level_sorted(lv.take(j as int)),
        decreases n - j,
    {
        assert(table_wf(lv[j - 1]) && table_wf(lv[j as int]));
        assert(lv[j - 1] == level@[j - 1]@ && lv[j as int] == level@[j as int]@);
        let ord: KeyOrder = compare_bytes(level[j - 1].largest_user_key(), level[j].smallest_user_key());
        match ord {
            KeyOrder::Less => {},
            _ => {
                assert(!lex_lt(table_largest_user_key(lv[j - 1]), table_smallest_user_key(lv[j as int])));
                return false;
            },
        }
        proof {
            let prev = lv.take(j as int);
            let next = lv.take(j + 1);
            assert forall|a: int, b: int| 0 <= a < b < next.len() implies lex_lt(
                table_largest_user_key(#[trigger] next[a]),
                table_smallest_user_key(#[trigger] next[b]),
            ) by {
                assert(next[a] == lv[a] && next[b] == lv[b]);
                if b < j {
                    assert(prev[a] == lv[a] && prev[b] == lv[b]);
                } else if a < j - 1 {
                    assert(prev[a] == lv[a] && prev[j - 1] == lv[j - 1]);
                    assert(table_wf(lv[j - 1]));
                    crate::table::lemma_table_key_span(lv[j - 1]);
                    crate::coding::lemma_lex_le_lt_transitive(
                        table_largest_user_key(lv[a]),
                        table_smallest_user_key(lv[j - 1]),
                        table_largest_user_key(lv[j - 1]),
                        table_smallest_user_key(lv[j as int]),
                    );
                }
            }
        }
        j += 1;
    }
    assert(lv.take(n as int) =~= lv);
    true
}

impl Version {
    /// The version is well formed.
    pub open spec fn wf(&self) -> bool {
        version_wf(self@)
    }

    /// The version without tables.
    pub fn empty() -> (r: Version)
        ensures
            r.wf(),
            r@.id == 0,
            r@.max_epoch == 0,
            forall|l: int| 0 <= l < NUM_LEVELS ==> (#[trigger] r@.levels[l]).len() == 0,
            version_tables(r@).len() == 0,
    {
        let mut levels: Vec<Vec<Table>> = Vec::new();
        let mut l: usize = 0;
        while l < NUM_LEVELS
            invariant
                l <= NUM_LEVELS,
                levels@.len() == l,
                forall|k: int| 0 <= k < l ==> (#[trigger] levels@[k])@.len() == 0,
            decreases NUM_LEVELS - l,
        {
            levels.push(Vec::new());
            l += 1;
        }
        let r = Version { id: 0, max_epoch: 0, levels };
        proof {
            assert forall|k: int| 0 <= k < NUM_LEVELS implies (#[trigger] r@.levels[k]).len() == 0 by {
                assert(r@.levels[k] == level_view(r.levels@[k]@));
            }
            lemma_no_tables(r@.levels, NUM_LEVELS as int);
        }
        r
    }

    /// A copy of the version.
    pub fn duplicate(&self) -> (r: Version)
        ensures
            r@ == self@,
    {
        let mut levels: Vec<Vec<Table>> = Vec::new();
        let mut l: usize = 0;
        while l < self.levels.len()
            invariant
                l <= self.levels.len(),
                levels@.map_values(|x: Vec<Table>| level_view(x@)) == self@.levels.take(l as int),
            decreases self.levels.len() - l,
        {
            let lv: Vec<Table> = duplicate_level(&self.levels[l]);
            assert(levels@.push(lv).map_values(|x: Vec<Table>| level_view(x@)) =~= self@.levels.take(
                l as int,
            ).push(level_view(lv@)));
            assert(self@.levels.take(l + 1) =~= self@.levels.take(l as int).push(self@.levels[l as int]));
            levels.push(lv);
            l += 1;
        }
        assert(self@.levels.take(self.levels.len() as int) =~= self@.levels);
        Version { id: self.id, max_epoch: self.max_epoch, levels }
    }

    /// Copies of all tables: level 0 newest first, then the deeper levels.
    pub fn all_tables(&self) -> (r: Vec<Table>)
        requires
            self.wf(),
        ensures
            level_view(r@) == version_tables(self@),
            level_tables_wf(level_view(r@)),
    {
        let mut out: Vec<Table> = Vec::new();
        let mut l: usize = 0;
        assert(level_view(out@) =~= tables_upto(self@.levels, 0));
        while l < self.levels.len()
            invariant
                l <= self.levels.len(),
                level_view(out@) == tables_upto(self@.levels, l as int),
            decreases self.levels.len() - l,
        {
            append_level(&mut out, &self.levels[l]);
            assert(self@.levels[l as int] == level_view(self.levels@[l as int]@));
            l += 1;
        }
        proof {
            lemma_tables_upto_wf(self@.levels, self@.levels.len() as int);
        }
        out
    }

    /// The ids of all tables, in the order of `all_tables`.
    pub fn ids(&self) -> (r: Vec<u64>)
        ensures
            r@ == version_ids(self@),
    {
        let mut out: Vec<u64> = Vec::new();
        let mut l: usize = 0;
        assert(out@ =~= table_ids(tables_upto(self@.levels, 0)));
        while l < self.levels.len()
            invariant
                l <= self.levels.len(),
                out@ == table_ids(tables_upto(self@.levels, l as int)),
            decreases self.levels.len() - l,
        {
            let level: &Vec<Table> = &self.levels[l];
            let ghost start = out@;
            let ghost lv = level_view(level@);
            assert(self@.levels[l as int] == lv);
            let mut i: usize = 0;
            assert(out@ =~= start + table_ids(lv.take(0)));
            while i < level.len()
                invariant
                    i <= level.len(),
                    lv == level_view(level@),
                    out@ == start + table_ids(lv.take(i as int)),
                decreases level.len() - i,
            {
                out.push(level[i].id);
                assert(lv[i as int] == level@[i as int]@);
                assert(table_ids(lv.take(i + 1)) =~= table_ids(lv.take(i as int)).push(level@[i as int].id));
                assert(out@ =~= start + table_ids(lv.take(i + 1)));
                i += 1;
            }
            assert(lv.take(level.len() as int) =~= lv);
            assert(table_ids(tables_upto(self@.levels, l + 1)) =~= start + table_ids(lv));
            l += 1;
        }
        out
    }

    /// Whether the version holds a table with the id `id`.
    pub fn has_table(&self, id: u64) -> (r: bool)
        ensures
            r == version_has(self@, id),
    {
        let mut l: usize = 0;
        while l < self.levels.len()
            invariant
                l <= self.levels.len(),
                forall|a: int, b: int|
                    0 <= a < l && 0 <= b < self@.levels[a].len() ==> (#[trigger] self@.levels[a][b]).id != id,
            decreases self.levels.len() - l,
        {
            let level: &Vec<Table> = &self.levels[l];
            assert(self@.levels[l as int] == level_view(level@));
            let mut i: usize = 0;
            while i < level.len()
                invariant
                    i <= level.len(),
                    l < self.levels.len(),
                    self@.levels[l as int] == level_view(level@),
                    forall|b: int| 0 <= b < i ==> (#[trigger] self@.levels[l as int][b]).id != id,
                decreases level.len() - i,
            {
                assert(self@.levels[l as int][i as int] == level@[i as int]@);
                if level[i].id == id {
                    return true;
                }
                i += 1;
            }
            l += 1;
        }
        false
    }

    /// The number of tables in level `l`.
    pub fn level_len(&self, l: usize) -> (r: usize)
        requires
            l < self@.levels.len(),
        ensures
            r == self@.levels[l as int].len(),
    {
        assert(self@.levels[l as int] == level_view(self.levels@[l as int]@));
        self.levels[l].len()
    }
}

/// Levels without tables hold no tables together.
pub proof fn lemma_no_tables(levels: Seq<Seq<TableView>>, n: int)
    requires
        0 <= n <= levels.len(),
        forall|l: int| 0 <= l < n ==> (#[trigger] levels[l]).len() == 0,
    ensures
        tables_upto(levels, n).len() == 0,
    decreases n,
{
    if n > 0 {
        lemma_no_tables(levels, n - 1);
    }
}

} // verus!
