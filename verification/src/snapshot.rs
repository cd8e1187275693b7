//! Snapshots: reads against one pinned version, on the bytes that the
//! object store answers for its tables.

use vstd::prelude::*;
use crate::bloom::spec_filter_may_contain;
use crate::coding::{bytes_eq, clone_bytes};
use crate::error::HummockError;
use crate::key::{full_key_of, spec_key_with_epoch, spec_user_key, user_key};
use crate::merging::{iterator_tables, merge_of, MergingIterator, seek_sources};
use crate::object::{ObjectStore, table_path};
use crate::table::{spec_open_table, Table, table_wf, TableMetaView, TableView};
use crate::table_iterator::{landing_result, TableIterator};
use crate::user_iterator::{BoundView, KeyRange, RangeView, scan_stream, UserKeyIterator};
use crate::value::HummockValue;
use crate::version::{level_tables_wf, level_view, table_ids, Version, version_tables, version_wf};

verus! {

/// The first `n` of `tables` whose Bloom filter admits `uk`.
pub open spec fn admitting_upto(tables: Seq<TableView>, uk: Seq<u8>, n: int) -> Seq<TableView>
    decreases n,
{
    if n <= 0 {
        Seq::empty()
    } else if spec_filter_may_contain(tables[n - 1].meta.filter, uk) {
        admitting_upto(tables, uk, n - 1).push(tables[n - 1])
    } else {
        admitting_upto(tables, uk, n - 1)
    }
}

/// The tables whose Bloom filter admits `uk`.
pub open spec fn admitting(tables: Seq<TableView>, uk: Seq<u8>) -> Seq<TableView> {
    admitting_upto(tables, uk, tables.len() as int)
}

/// What a lookup of `uk` finds in a merged stream that begins at the full
/// key of `uk` at the snapshot's epoch: the first entry, if it belongs to `uk`.
pub open spec fn lookup_in(items: Seq<(Seq<u8>, Option<Seq<u8>>)>, uk: Seq<u8>) -> Option<Seq<u8>> {
    if items.len() > 0 && spec_user_key(items[0].0) == uk {
        items[0].1
    } else {
        None
    }
}

/// What a lookup of `uk` at `epoch` in `tables` returns: the bytes of the
/// newest put that a reader at `epoch` sees, nothing where it sees none or a
/// tombstone, or the fault that a touched block is refused with.
pub open spec fn spec_lookup(tables: Seq<TableView>, uk: Seq<u8>, epoch: u64) -> Result<
    Option<Seq<u8>>,
    HummockError,
> {
    if uk.len() == 0 {
        Err(HummockError::InvalidKey)
    } else {
        let m = merge_of(seek_sources(tables, spec_key_with_epoch(uk, epoch)));
        match landing_result(m) {
            Err(e) => Err(e),
            Ok(_) => Ok(lookup_in(m.items, uk)),
        }
    }
}

/// What a snapshot at `epoch` over `tables` returns for `uk`, where the
/// tables are read as they were written: the lookup in the tables whose
/// Bloom filter admits `uk`.
pub open spec fn spec_get(tables: Seq<TableView>, uk: Seq<u8>, epoch: u64) -> Result<
    Option<Seq<u8>>,
    HummockError,
> {
    spec_lookup(admitting(tables, uk), uk, epoch)
}

/// What a scan that runs to its end returns: the pairs, or the fault that
/// ends them.
pub open spec fn spec_scan(tables: Seq<TableView>, range: RangeView, epoch: u64) -> Result<
    Seq<(Seq<u8>, Seq<u8>)>,
    HummockError,
> {
    match scan_stream(tables, range, epoch).fault {
        Some(e) => Err(e),
        None => Ok(scan_stream(tables, range, epoch).items),
    }
}

/// The pairs of a vector as plain values.
pub open spec fn pairs_view(pairs: Seq<(Vec<u8>, Vec<u8>)>) -> Seq<(Seq<u8>, Seq<u8>)> {
    pairs.map_values(|p: (Vec<u8>, Vec<u8>)| (p.0@, p.1@))
}

/// The result of a lookup as plain values.
pub open spec fn value_view(r: Result<Option<Vec<u8>>, HummockError>) -> Result<
    Option<Seq<u8>>,
    HummockError,
> {
    match r {
        Ok(Some(v)) => Ok(Some(v@)),
        Ok(None) => Ok(None),
        Err(e) => Err(e),
    }
}

/// The result of a scan as plain values.
pub open spec fn scan_view(r: Result<Vec<(Vec<u8>, Vec<u8>)>, HummockError>) -> Result<
    Seq<(Seq<u8>, Seq<u8>)>,
    HummockError,
> {
    match r {
        Ok(v) => Ok(pairs_view(v@)),
        Err(e) => Err(e),
    }
}

/// What the object store answered, as plain values: the bytes of each
/// table, or nothing where the fetch failed.
pub open spec fn fetched_view(fetched: Seq<Result<Vec<u8>, HummockError>>) -> Seq<Option<Seq<u8>>> {
    fetched.map_values(
        |r: Result<Vec<u8>, HummockError>|
            match r {
                Ok(b) => Some(b@),
                Err(_) => None,
            },
    )
}

/// The first `n` tables as they are opened from what was fetched, or the
/// first failure: `ObjectStoreError` where a fetch failed, else what the
/// bytes are refused with.
pub open spec fn spec_load_upto(ids: Seq<u64>, fetched: Seq<Option<Seq<u8>>>, n: int) -> Result<
    Seq<TableView>,
    HummockError,
>
    decreases n,
{
    if n <= 0 {
        Ok(Seq::empty())
    } else {
        match spec_load_upto(ids, fetched, n - 1) {
            Err(e) => Err(e),
            Ok(ts) => match fetched[n - 1] {
                None => Err(HummockError::ObjectStoreError),
                Some(bytes) => match spec_open_table(bytes) {
                    Err(e) => Err(e),
                    Ok(meta) => Ok(ts.push(TableView { id: ids[n - 1], data: bytes, meta: meta })),
                },
            },
        }
    }
}

/// The tables as they are opened from what was fetched for `ids`. An answer
/// for another number of tables counts as a failed fetch.
pub open spec fn spec_load(ids: Seq<u64>, fetched: Seq<Option<Seq<u8>>>) -> Result<
    Seq<TableView>,
    HummockError,
> {
    if fetched.len() != ids.len() {
        Err(HummockError::ObjectStoreError)
    } else {
        spec_load_upto(ids, fetched, ids.len() as int)
    }
}

/// The object store answered with the bytes that were written.
pub open spec fn faithful(tables: Seq<TableView>, fetched: Seq<Option<Seq<u8>>>) -> bool {
    fetched.len() == tables.len() && forall|i: int|
        0 <= i < tables.len() ==> #[trigger] fetched[i] == Some(tables[i].data)
}

/// What a lookup of `uk` returns when the object store answers `fetched`
/// for `tables`.
pub open spec fn read_outcome(
    tables: Seq<TableView>,
    fetched: Seq<Option<Seq<u8>>>,
    uk: Seq<u8>,
    epoch: u64,
) -> Result<Option<Seq<u8>>, HummockError> {
    if uk.len() == 0 {
        Err(HummockError::InvalidKey)
    } else {
        match spec_load(table_ids(tables), fetched) {
            Err(e) => Err(e),
            Ok(ts) => spec_lookup(ts, uk, epoch),
        }
    }
}

/// What a scan of `range` returns when the object store answers `fetched`
/// for `tables`.
pub open spec fn scan_outcome(
    tables: Seq<TableView>,
    fetched: Seq<Option<Seq<u8>>>,
    range: RangeView,
    epoch: u64,
) -> Result<Seq<(Seq<u8>, Seq<u8>)>, HummockError> {
    match spec_load(table_ids(tables), fetched) {
        Err(e) => Err(e),
        Ok(ts) => spec_scan(ts, range, epoch),
    }
}

/// Every table holds the bytes that its footer and index were read from.
pub open spec fn all_loaded(tables: Seq<Table>) -> bool {
    forall|i: int| 0 <= i < tables.len() ==> (#[trigger] tables[i]).loaded()
}

proof fn lemma_load_fails(ids: Seq<u64>, fetched: Seq<Option<Seq<u8>>>, n: int, m: int)
    requires
        0 <= n <= m,
        spec_load_upto(ids, fetched, n) is Err,
    ensures
        spec_load_upto(ids, fetched, m) == spec_load_upto(ids, fetched, n),
    decreases m,
{
    if n < m {
        lemma_load_fails(ids, fetched, n, m - 1);
    }
}

/// Where the object store answers with the bytes that were written, the
/// tables are opened as they were written.
pub proof fn lemma_faithful_load(tables: Seq<TableView>, fetched: Seq<Option<Seq<u8>>>, n: int)
    requires
        level_tables_wf(tables),
        faithful(tables, fetched),
        0 <= n <= tables.len(),
    ensures
        spec_load_upto(table_ids(tables), fetched, n) == Ok::<Seq<TableView>, HummockError>(
            tables.take(n),
        ),
        n == tables.len() ==> spec_load(table_ids(tables), fetched) == Ok::<
            Seq<TableView>,
            HummockError,
        >(tables),
    decreases n,
{
    if n > 0 {
        lemma_faithful_load(tables, fetched, n - 1);
        let t = tables[n - 1];
        assert(table_wf(t));
        assert(fetched[n - 1] == Some(t.data));
        assert(table_ids(tables)[n - 1] == t.id);
        assert(tables.take(n) =~= tables.take(n - 1).push(t));
    } else {
        assert(tables.take(0) =~= Seq::<TableView>::empty());
    }
    if n == tables.len() {
        assert(tables.take(n) =~= tables);
    }
}

/// Asks the object store for the bytes of the tables `ids` under
/// `remote_dir`, each under the path of its id, and returns the answers in
/// the order of `ids`.
pub fn fetch_tables<S: ObjectStore>(store: &S, remote_dir: &str, ids: &Vec<u64>) -> (r: Vec<
    Result<Vec<u8>, HummockError>,
>)
    ensures
        r@.len() == ids@.len(),
{
    let mut out: Vec<Result<Vec<u8>, HummockError>> = Vec::new();
    let mut i: usize = 0;
    while i < ids.len()
        invariant
            i <= ids.len(),
            out@.len() == i,
        decreases ids.len() - i,
    {
        let path: String = table_path(remote_dir, ids[i]);
        out.push(store.get(path.as_str()));
        i += 1;
    }
    out
}

/// Opens the tables `ids` from what the object store answered.
pub fn load_tables(ids: &Vec<u64>, fetched: &Vec<Result<Vec<u8>, HummockError>>) -> (r: Result<
    Vec<Table>,
    HummockError,
>)
    ensures
        match spec_load(ids@, fetched_view(fetched@)) {
            Ok(ts) => (r matches Ok(out) && level_view(out@) == ts && level_tables_wf(ts) && all_loaded(
                out@,
            )),
            Err(e) => (r matches Err(e2) && e2 == e),
        },
{
    let ghost fv = fetched_view(fetched@);
    if fetched.len() != ids.len() {
        return Err(HummockError::ObjectStoreError);
    }
    let n: usize = ids.len();
    let mut out: Vec<Table> = Vec::new();
    let mut i: usize = 0;
    assert(level_view(out@) =~= Seq::<TableView>::empty());
    while i < n
        invariant
            i <= n,
            n == ids.len(),
            n == fetched.len(),
            fv == fetched_view(fetched@),
            spec_load_upto(ids@, fv, i as int) == Ok::<Seq<TableView>, HummockError>(level_view(out@)),
            level_tables_wf(level_view(out@)),
            all_loaded(out@),
        decreases n - i,
    {
        assert(fv[i as int] == match fetched@[i as int] {
            Ok(b) => Some(b@),
            Err(_) => None::<Seq<u8>>,
        });
        match &fetched[i] {
            Err(_) => {
                proof {
                    lemma_load_fails(ids@, fv, i + 1, n as int);
                }
                return Err(HummockError::ObjectStoreError);
            },
            Ok(bytes) => {
                match Table::open(ids[i], clone_bytes(bytes.as_slice())) {
                    Err(e) => {
                        proof {
                            lemma_load_fails(ids@, fv, i + 1, n as int);
                        }
                        return Err(e);
                    },
                    Ok(t) => {
                        let ghost before = level_view(out@);
                        assert(level_view(out@.push(t)) =~= before.push(t@));
                        out.push(t);
                        assert forall|k: int| 0 <= k < out@.len() implies table_wf(
                            #[trigger] level_view(out@)[k],
                        ) by {
                            if k < before.len() {
                                assert(level_view(out@)[k] == before[k]);
                            }
                        }
                    },
                }
            },
        }
        i += 1;
    }
    Ok(out)
}

/// Iterators over copies of loaded tables.
pub fn table_iterators(tables: &Vec<Table>) -> (r: Vec<TableIterator>)
    requires
        level_tables_wf(level_view(tables@)),
        all_loaded(tables@),
    ensures
        forall|i: int| 0 <= i < r@.len() ==> (#[trigger] r@[i]).wf(),
        iterator_tables(r@) == level_view(tables@),
{
    let ghost tv = level_view(tables@);
    let mut out: Vec<TableIterator> = Vec::new();
    let mut i: usize = 0;
    assert(iterator_tables(out@) =~= tv.take(0));
    while i < tables.len()
        invariant
            i <= tables.len(),
            tv == level_view(tables@),
            level_tables_wf(tv),
            all_loaded(tables@),
            forall|k: int| 0 <= k < out@.len() ==> (#[trigger] out@[k]).wf(),
            iterator_tables(out@) == tv.take(i as int),
        decreases tables.len() - i,
    {
        assert(tv[i as int] == tables@[i as int]@);
        assert(table_wf(tv[i as int]));
        assert(tables@[i as int].loaded());
        let it: TableIterator = TableIterator::new(tables[i].duplicate());
        assert(iterator_tables(out@.push(it)) =~= iterator_tables(out@).push(tv[i as int]));
        assert(tv.take(i + 1) =~= tv.take(i as int).push(tv[i as int]));
        out.push(it);
        i += 1;
    }
    assert(tv.take(tables.len() as int) =~= tv);
    out
}

/// The newest value of `key` that a reader at `epoch` sees in loaded
/// tables: the bytes of a put, or nothing where the key is absent or deleted.
pub fn lookup(tables: &Vec<Table>, key: &[u8], epoch: u64) -> (r: Result<Option<Vec<u8>>, HummockError>)
    requires
        level_tables_wf(level_view(tables@)),
        all_loaded(tables@),
    ensures
        value_view(r) == spec_lookup(level_view(tables@), key@, epoch),
{
    if key.len() == 0 {
        return Err(HummockError::InvalidKey);
    }
    let children: Vec<TableIterator> = table_iterators(tables);
    let mut iter: MergingIterator = MergingIterator::new(children);
    let target: Vec<u8> = full_key_of(key, epoch);
    match iter.seek(target.as_slice()) {
        Err(e) => Err(e),
        Ok(_) => {
            if iter.is_valid() && bytes_eq(user_key(iter.key()), key) {
                match iter.value() {
                    HummockValue::Put(bytes) => Ok(Some(clone_bytes(bytes.as_slice()))),
                    HummockValue::Delete => Ok(None),
                }
            } else {
                Ok(None)
            }
        },
    }
}

/// An iterator over the user keys of `range` that a reader at `epoch` sees
/// in loaded tables. It stands nowhere until it is rewound or sought.
pub fn iterate_tables(tables: &Vec<Table>, range: KeyRange, epoch: u64) -> (r: UserKeyIterator)
    requires
        level_tables_wf(level_view(tables@)),
        all_loaded(tables@),
    ensures
        r.iter.wf(),
        r.tables() == level_view(tables@),
        r.range@ == range@,
        r.epoch == epoch,
{
    let children: Vec<TableIterator> = table_iterators(tables);
    let iter: MergingIterator = MergingIterator::new(children);
    UserKeyIterator::new(iter, range, epoch)
}

/// All pairs of `range` that a reader at `epoch` sees in loaded tables, in
/// ascending order of user key.
#[verifier::loop_isolation(false)]
pub fn scan_tables(tables: &Vec<Table>, range: KeyRange, epoch: u64) -> (r: Result<
    Vec<(Vec<u8>, Vec<u8>)>,
    HummockError,
>)
    requires
        level_tables_wf(level_view(tables@)),
        all_loaded(tables@),
    ensures
        scan_view(r) == spec_scan(level_view(tables@), range@, epoch),
{
    let ghost rv = range@;
    let ghost all = scan_stream(level_view(tables@), rv, epoch);
    let mut it: UserKeyIterator = iterate_tables(tables, range, epoch);
    let mut out: Vec<(Vec<u8>, Vec<u8>)> = Vec::new();
    match it.rewind() {
        Err(e) => {
            return Err(e);
        },
        Ok(_) => {},
    }
    assert(pairs_view(out@) =~= Seq::<(Seq<u8>, Seq<u8>)>::empty());
    assert(pairs_view(out@) + it.stream().items =~= all.items);
    while it.is_valid()
        invariant
            it.wf(),
            pairs_view(out@) + it.stream().items == all.items,
            it.stream().fault == all.fault,
            it.stream().items.len() == 0 ==> it.stream().fault is None,
        decreases it.stream().items.len(),
    {
        let pair: (Vec<u8>, Vec<u8>) = (clone_bytes(it.key()), clone_bytes(it.value()));
        let ghost before = it.stream();
        let ghost got = pairs_view(out@);
        out.push(pair);
        assert(pairs_view(out@) =~= got.push(before.items[0]));
        match it.next() {
            Err(e) => {
                return Err(e);
            },
            Ok(_) => {},
        }
        assert(pairs_view(out@) + it.stream().items =~= got + before.items);
    }
    assert(pairs_view(out@) + it.stream().items =~= pairs_view(out@));
    Ok(out)
}

/// Copies, without bytes, of the tables among `tables` whose Bloom filter
/// admits `key`.
pub fn admitted_tables(tables: &Vec<Table>, key: &[u8]) -> (r: Vec<Table>)
    ensures
        level_view(r@) == admitting(level_view(tables@), key@),
{
    let ghost tv = level_view(tables@);
    let mut out: Vec<Table> = Vec::new();
    let mut i: usize = 0;
    assert(level_view(out@) =~= admitting_upto(tv, key@, 0));
    while i < tables.len()
        invariant
            i <= tables.len(),
            tv == level_view(tables@),
            level_view(out@) == admitting_upto(tv, key@, i as int),
        decreases tables.len() - i,
    {
        assert(tv[i as int] == tables@[i as int]@);
        if tables[i].may_contain(key) {
            let t: Table = tables[i].unloaded();
            assert(level_view(out@.push(t)) =~= level_view(out@).push(t@));
            out.push(t);
        }
        i += 1;
    }
    out
}

/// `r` is what a range scan of `tables` hands out when the object store
/// answers `fetched`: an iterator over the tables as they are opened, or the
/// error that the fetch or the opening ends with.
pub open spec fn iterator_outcome(
    tables: Seq<TableView>,
    fetched: Seq<Option<Seq<u8>>>,
    range: RangeView,
    epoch: u64,
    r: Result<UserKeyIterator, HummockError>,
) -> bool {
    match spec_load(table_ids(tables), fetched) {
        Ok(ts) => (r matches Ok(it) && it.iter.wf() && it.tables() == ts && it.range@ == range
            && it.epoch == epoch),
        Err(e) => (r matches Err(e2) && e2 == e),
    }
}

/// A handle on one version: reads see what the version held when it was
/// pinned, up to its epoch high-water. The bytes of the tables come from
/// the object store.
pub struct HummockSnapshot {
    pub version: Version,
    pub epoch: u64,
}

impl HummockSnapshot {
    /// The version is well formed.
    pub open spec fn wf(&self) -> bool {
        version_wf(self.version@)
    }

    /// The tables that the snapshot reads.
    pub open spec fn tables(&self) -> Seq<TableView> {
        version_tables(self.version@)
    }

    /// A snapshot of `version` at its epoch high-water.
    pub fn new(version: Version) -> (r: HummockSnapshot)
        requires
            version.wf(),
        ensures
            r.wf(),
            r.version@ == version@,
            r.epoch == version@.max_epoch,
    {
        let epoch: u64 = version.max_epoch;
        HummockSnapshot { version, epoch }
    }

    /// The id of the version that the snapshot holds.
    pub fn version_id(&self) -> (r: u64)
        ensures
            r == self.version@.id,
    {
        self.version.id
    }

    /// The ids of the tables that a lookup of `key` fetches: those whose
    /// Bloom filter admits the key, level 0 newest first, then the deeper levels.
    pub fn lookup_ids(&self, key: &[u8]) -> (r: Vec<u64>)
        requires
            self.wf(),
        ensures
            r@ == table_ids(admitting(self.tables(), key@)),
    {
        let tables: Vec<Table> = self.version.all_tables();
        let wanted: Vec<Table> = admitted_tables(&tables, key);
        crate::version_manager::level_ids(&wanted)
    }

    /// The ids of the tables that a scan fetches: all tables of the version.
    pub fn scan_ids(&self) -> (r: Vec<u64>)
        ensures
            r@ == table_ids(self.tables()),
    {
        self.version.ids()
    }

    /// The newest value of `key` that the snapshot sees, given what the
    /// object store answered for the tables of `lookup_ids(key)`. An empty
    /// key is refused; a failed fetch gives `ObjectStoreError`; bytes that
    /// are refused give the error that they are refused with. Where the
    /// store answered with the bytes that were written, the result is that
    /// of the lookup in the tables as written.
    pub fn get_fetched(&self, key: &[u8], fetched: &Vec<Result<Vec<u8>, HummockError>>) -> (r: Result<
        Option<Vec<u8>>,
        HummockError,
    >)
        requires
            self.wf(),
        ensures
            value_view(r) == read_outcome(
                admitting(self.tables(), key@),
                fetched_view(fetched@),
                key@,
                self.epoch,
            ),
            key@.len() > 0 && faithful(admitting(self.tables(), key@), fetched_view(fetched@))
                ==> value_view(r) == spec_get(self.tables(), key@, self.epoch),
            (r matches Err(e) ==> e == HummockError::ObjectStoreError || crate::error::read_fault(e)),
    {
        proof {
            lemma_read_fault(admitting(self.tables(), key@), fetched_view(fetched@), key@, self.epoch);
        }
        if key.len() == 0 {
            return Err(HummockError::InvalidKey);
        }
        let ids: Vec<u64> = self.lookup_ids(key);
        proof {
            let wanted = admitting(self.tables(), key@);
            if faithful(wanted, fetched_view(fetched@)) {
                crate::version::lemma_tables_upto_wf(
                    self.version@.levels,
                    self.version@.levels.len() as int,
                );
                lemma_admitting_wf(self.tables(), key@, self.tables().len() as int);
                lemma_faithful_load(wanted, fetched_view(fetched@), wanted.len() as int);
            }
        }
        match load_tables(&ids, fetched) {
            Err(e) => Err(e),
            Ok(tables) => lookup(&tables, key, self.epoch),
        }
    }

    /// The newest value of `key` that the snapshot sees: the bytes of a put,
    /// or nothing where the key is absent or deleted. The tables whose Bloom
    /// filter admits the key are fetched from `store` under `remote_dir`.
    pub fn get<S: ObjectStore>(&self, store: &S, remote_dir: &str, key: &[u8]) -> (r: Result<
        Option<Vec<u8>>,
        HummockError,
    >)
        requires
            self.wf(),
        ensures
            key@.len() == 0 ==> r == Err::<Option<Vec<u8>>, HummockError>(HummockError::InvalidKey),
            key@.len() > 0 && admitting(self.tables(), key@).len() == 0 ==> r == Ok::<
                Option<Vec<u8>>,
                HummockError,
            >(None),
            key@.len() > 0 ==> exists|fetched: Seq<Option<Seq<u8>>>|
                fetched.len() == admitting(self.tables(), key@).len() && value_view(r)
                    == #[trigger] read_outcome(admitting(self.tables(), key@), fetched, key@, self.epoch),
            (r matches Err(e) ==> e == HummockError::ObjectStoreError || crate::error::read_fault(e)),
    {
        if key.len() == 0 {
            return Err(HummockError::InvalidKey);
        }
        let ids: Vec<u64> = self.lookup_ids(key);
        let fetched: Vec<Result<Vec<u8>, HummockError>> = fetch_tables(store, remote_dir, &ids);
        let r = self.get_fetched(key, &fetched);
        proof {
            let wanted = admitting(self.tables(), key@);
            let fv = fetched_view(fetched@);
            assert(fv.len() == wanted.len());
            assert(value_view(r) == read_outcome(wanted, fv, key@, self.epoch));
            if wanted.len() == 0 {
                lemma_nothing_to_seek(Seq::empty(), spec_key_with_epoch(key@, self.epoch));
                assert(wanted =~= Seq::<TableView>::empty());
            }
        }
        r
    }

    /// All pairs of `range` that the snapshot sees, given what the object
    /// store answered for the tables of `scan_ids()`.
    pub fn scan_fetched(&self, range: KeyRange, fetched: &Vec<Result<Vec<u8>, HummockError>>) -> (r:
        Result<Vec<(Vec<u8>, Vec<u8>)>, HummockError>)
        requires
            self.wf(),
        ensures
            scan_view(r) == scan_outcome(self.tables(), fetched_view(fetched@), range@, self.epoch),
            faithful(self.tables(), fetched_view(fetched@)) ==> scan_view(r) == spec_scan(
                self.tables(),
                range@,
                self.epoch,
            ),
            (r matches Err(e) ==> e == HummockError::ObjectStoreError || crate::error::read_fault(e)),
    {
        proof {
            lemma_scan_fault(self.tables(), fetched_view(fetched@), range@, self.epoch);
        }
        let ids: Vec<u64> = self.scan_ids();
        proof {
            if faithful(self.tables(), fetched_view(fetched@)) {
                crate::version::lemma_tables_upto_wf(
                    self.version@.levels,
                    self.version@.levels.len() as int,
                );
                lemma_faithful_load(
                    self.tables(),
                    fetched_view(fetched@),
                    self.tables().len() as int,
                );
            }
        }
        match load_tables(&ids, fetched) {
            Err(e) => Err(e),
            Ok(tables) => scan_tables(&tables, range, self.epoch),
        }
    }

    /// All pairs of `range` that the snapshot sees, in ascending order of
    /// user key. The tables are fetched from `store` under `remote_dir`.
    pub fn scan<S: ObjectStore>(&self, store: &S, remote_dir: &str, range: KeyRange) -> (r: Result<
        Vec<(Vec<u8>, Vec<u8>)>,
        HummockError,
    >)
        requires
            self.wf(),
        ensures
            self.tables().len() == 0 ==> (r matches Ok(out) && out@.len() == 0),
            exists|fetched: Seq<Option<Seq<u8>>>|
                fetched.len() == self.tables().len() && scan_view(r) == #[trigger] scan_outcome(
                    self.tables(),
                    fetched,
                    range@,
                    self.epoch,
                ),
            (r matches Err(e) ==> e == HummockError::ObjectStoreError || crate::error::read_fault(e)),
    {
        let ids: Vec<u64> = self.scan_ids();
        let fetched: Vec<Result<Vec<u8>, HummockError>> = fetch_tables(store, remote_dir, &ids);
        let ghost rv = range@;
        let r = self.scan_fetched(range, &fetched);
        proof {
            assert(scan_view(r) == scan_outcome(self.tables(), fetched_view(fetched@), rv, self.epoch));
            if self.tables().len() == 0 {
                lemma_nothing_to_scan(rv, self.epoch);
                assert(self.tables() =~= Seq::<TableView>::empty());
            }
        }
        r
    }

    /// An iterator over the user keys of `range` that the snapshot sees,
    /// given what the object store answered for the tables of `scan_ids()`.
    /// It stands nowhere until it is rewound or sought.
    pub fn range_scan_fetched(&self, range: KeyRange, fetched: &Vec<Result<Vec<u8>, HummockError>>) -> (r:
        Result<UserKeyIterator, HummockError>)
        requires
            self.wf(),
        ensures
            iterator_outcome(self.tables(), fetched_view(fetched@), range@, self.epoch, r),
    {
        let ids: Vec<u64> = self.scan_ids();
        match load_tables(&ids, fetched) {
            Err(e) => Err(e),
            Ok(tables) => Ok(iterate_tables(&tables, range, self.epoch)),
        }
    }

    /// An iterator over the user keys of `range` that the snapshot sees. The
    /// tables are fetched from `store` under `remote_dir`.
    pub fn range_scan<S: ObjectStore>(&self, store: &S, remote_dir: &str, range: KeyRange) -> (r:
        Result<UserKeyIterator, HummockError>)
        requires
            self.wf(),
        ensures
            self.tables().len() == 0 ==> r is Ok,
            r matches Ok(it) ==> (it.iter.wf() && it.range@ == range@ && it.epoch == self.epoch
                && it.tables().len() == self.tables().len()),
            exists|fetched: Seq<Option<Seq<u8>>>|
                fetched.len() == self.tables().len() && #[trigger] iterator_outcome(
                    self.tables(),
                    fetched,
                    range@,
                    self.epoch,
                    r,
                ),
    {
        let ghost bounds = range@;
        let ids: Vec<u64> = self.scan_ids();
        let fetched: Vec<Result<Vec<u8>, HummockError>> = fetch_tables(store, remote_dir, &ids);
        proof {
            lemma_load_len(table_ids(self.tables()), fetched_view(fetched@), self.tables().len() as int);
        }
        let r = self.range_scan_fetched(range, &fetched);
        assert(iterator_outcome(self.tables(), fetched_view(fetched@), bounds, self.epoch, r));
        r
    }
}

/// Opening the first of what was fetched fails with `ObjectStoreError`, or
/// as bytes are refused.
pub proof fn lemma_load_upto_fault(ids: Seq<u64>, fetched: Seq<Option<Seq<u8>>>, n: int)
    requires
        0 <= n,
    ensures
        spec_load_upto(ids, fetched, n) matches Err(e) ==> e == HummockError::ObjectStoreError
            || crate::error::read_fault(e),
    decreases n,
{
    if n > 0 {
        lemma_load_upto_fault(ids, fetched, n - 1);
        match fetched[n - 1] {
            Some(bytes) => {
                crate::table::lemma_open_fault(bytes);
            },
            None => {},
        }
    }
}

/// Opening what was fetched fails with `ObjectStoreError`, or as bytes are
/// refused.
pub proof fn lemma_load_fault(ids: Seq<u64>, fetched: Seq<Option<Seq<u8>>>)
    ensures
        spec_load(ids, fetched) matches Err(e) ==> e == HummockError::ObjectStoreError
            || crate::error::read_fault(e),
{
    lemma_load_upto_fault(ids, fetched, ids.len() as int);
}

/// A lookup fails with `ObjectStoreError` where a fetch fails, and else as
/// bytes are refused: never with a conflict of versions.
pub proof fn lemma_read_fault(
    tables: Seq<TableView>,
    fetched: Seq<Option<Seq<u8>>>,
    uk: Seq<u8>,
    epoch: u64,
)
    ensures
        read_outcome(tables, fetched, uk, epoch) matches Err(e) ==> e == HummockError::ObjectStoreError
            || crate::error::read_fault(e),
{
    lemma_load_fault(table_ids(tables), fetched);
    if let Ok(ts) = spec_load(table_ids(tables), fetched) {
        crate::merging::lemma_seek_merge_fault(ts, spec_key_with_epoch(uk, epoch));
    }
}

/// A scan fails with `ObjectStoreError` where a fetch fails, and else as
/// bytes are refused: never with a conflict of versions.
pub proof fn lemma_scan_fault(
    tables: Seq<TableView>,
    fetched: Seq<Option<Seq<u8>>>,
    range: RangeView,
    epoch: u64,
)
    ensures
        scan_outcome(tables, fetched, range, epoch) matches Err(e) ==> e
            == HummockError::ObjectStoreError || crate::error::read_fault(e),
{
    lemma_load_fault(table_ids(tables), fetched);
    if let Ok(ts) = spec_load(table_ids(tables), fetched) {
        crate::merging::lemma_merge_of_fault(ts);
        match range.start {
            BoundView::Unbounded => {},
            BoundView::Included(s) => {
                crate::merging::lemma_seek_merge_fault(ts, spec_key_with_epoch(s, u64::MAX));
            },
            BoundView::Excluded(s) => {
                crate::merging::lemma_seek_merge_fault(ts, spec_key_with_epoch(s, u64::MAX));
            },
        }
        let m = crate::user_iterator::scan_source(ts, range.start);
        crate::user_iterator::lemma_visible_fault(
            m.items,
            m.fault,
            epoch,
            crate::user_iterator::start_skip(range.start),
            range.end,
        );
    }
}

/// The tables that are opened are as many as were asked for.
pub proof fn lemma_load_len(ids: Seq<u64>, fetched: Seq<Option<Seq<u8>>>, n: int)
    requires
        0 <= n,
    ensures
        spec_load_upto(ids, fetched, n) matches Ok(ts) ==> ts.len() == n,
    decreases n,
{
    if n > 0 {
        lemma_load_len(ids, fetched, n - 1);
    }
}

/// The tables that a Bloom filter admits are well formed where all are.
pub proof fn lemma_admitting_wf(tables: Seq<TableView>, uk: Seq<u8>, n: int)
    requires
        level_tables_wf(tables),
        0 <= n <= tables.len(),
    ensures
        level_tables_wf(admitting_upto(tables, uk, n)),
    decreases n,
{
    if n > 0 {
        lemma_admitting_wf(tables, uk, n - 1);
        let prev = admitting_upto(tables, uk, n - 1);
        let cur = admitting_upto(tables, uk, n);
        assert forall|i: int| 0 <= i < cur.len() implies table_wf(#[trigger] cur[i]) by {
            if i < prev.len() {
                assert(cur[i] == prev[i]);
            } else {
                assert(table_wf(tables[n - 1]));
            }
        }
    }
}

/// A seek in no table finds nothing.
pub proof fn lemma_nothing_to_seek(tables: Seq<TableView>, target: Seq<u8>)
    requires
        tables.len() == 0,
    ensures
        merge_of(seek_sources(tables, target)) == crate::table_iterator::empty_stream(),
{
    let sources = seek_sources(tables, target);
    crate::merging::lemma_pick_min_valid(crate::merging::landed(sources), 0);
}

/// A scan of no table yields nothing.
pub proof fn lemma_nothing_to_scan(range: RangeView, epoch: u64)
    ensures
        scan_stream(Seq::empty(), range, epoch).items.len() == 0,
        scan_stream(Seq::empty(), range, epoch).fault is None,
{
    let none = Seq::<TableView>::empty();
    match range.start {
        crate::user_iterator::BoundView::Unbounded => {
            crate::merging::lemma_pick_min_valid(
                crate::merging::landed(crate::merging::rewind_sources(none)),
                0,
            );
        },
        crate::user_iterator::BoundView::Included(s) => {
            lemma_nothing_to_seek(none, spec_key_with_epoch(s, u64::MAX));
        },
        crate::user_iterator::BoundView::Excluded(s) => {
            lemma_nothing_to_seek(none, spec_key_with_epoch(s, u64::MAX));
        },
    }
}

} // verus!
