use hummock::builder::{TableBuilder, TableBuilderOptions};
use hummock::key::key_with_epoch;
use hummock::merging::MergingIterator;
use hummock::object::{table_path, InMemObjectStore, ObjectStore};
use hummock::snapshot::HummockSnapshot;
use hummock::table::Table;
use hummock::table_iterator::TableIterator;
use hummock::user_iterator::{KeyBound, KeyRange, UserKeyIterator};
use hummock::version::NUM_LEVELS;
use hummock::version_manager::VersionManager;
use hummock::{ChecksumAlg, HummockError, HummockValue};

const DIR: &str = "tables";

fn table(id: u64, items: &[(&str, u64, Option<&str>)]) -> Table {
    let mut b = TableBuilder::new(TableBuilderOptions {
        table_capacity: 1 << 20,
        block_size: 64,
        bloom_bits_per_key: 10,
        checksum_algo: ChecksumAlg::Crc32c,
    });
    for (k, e, v) in items {
        let value = HummockValue::from_option(v.map(|x| x.as_bytes().to_vec()));
        b.add(&key_with_epoch(k.as_bytes().to_vec(), *e), &value);
    }
    let (bytes, meta) = b.finish();
    Table::from_parts(id, bytes, meta)
}

/// The table, and its bytes in `store` under the path of its id.
fn stored(store: &mut InMemObjectStore, id: u64, items: &[(&str, u64, Option<&str>)]) -> Table {
    let t = table(id, items);
    store.put(&table_path(DIR, id), t.data.as_ref().unwrap()).unwrap();
    t.unloaded()
}

fn all() -> KeyRange {
    KeyRange { start: KeyBound::Unbounded, end: KeyBound::Unbounded }
}

#[test]
fn new_tables_go_to_the_front_of_level_zero() {
    let mut vm = VersionManager::new();
    assert_eq!(vm.current_version().levels.len(), NUM_LEVELS);
    vm.add_l0(1, table(3, &[("a", 3, Some("1"))])).unwrap();
    vm.add_l0(2, table(5, &[("a", 5, Some("2"))])).unwrap();
    vm.add_l0(3, table(4, &[("b", 4, Some("3"))])).unwrap();
    let ids: Vec<u64> = vm.current_version().levels[0].iter().map(|t| t.id).collect();
    assert_eq!(ids, vec![4, 5, 3]);
    assert_eq!(vm.current_version().ids(), vec![4, 5, 3]);
    // The epoch high-water never falls.
    assert_eq!(vm.max_epoch(), 5);
    assert_eq!(vm.current_version().id, 3);
}

#[test]
fn table_id_in_use_is_refused() {
    let mut vm = VersionManager::new();
    vm.add_l0(1, table(3, &[("a", 3, Some("1"))])).unwrap();
    assert_eq!(vm.add_l0(2, table(3, &[("b", 3, Some("1"))])), Err(HummockError::VersionConflict));
    assert_eq!(vm.current_version().id, 1);
    assert_eq!(vm.current_version().levels[0].len(), 1);
}

#[test]
fn pinned_tables_are_not_scheduled_for_deletion() {
    let mut store = InMemObjectStore::new();
    let mut vm = VersionManager::new();
    vm.add_l0(1, stored(&mut store, 1, &[("a", 1, Some("1"))])).unwrap();
    vm.add_l0(2, stored(&mut store, 2, &[("b", 2, Some("2"))])).unwrap();
    let pinned = vm.pin();
    let again = vm.pin();
    assert_eq!(pinned.id, 2);
    let merged = table(3, &[("a", 1, Some("1")), ("b", 2, Some("2"))]);
    vm.commit_compaction(3, 0, &vec![1, 2], &vec![], vec![merged]).unwrap();
    assert!(vm.is_live(1) && vm.is_live(2) && vm.is_live(3));
    assert!(!vm.is_obsolete(1));
    assert!(vm.take_obsolete().is_empty());
    assert!(vm.unpin(again.id));
    assert!(vm.is_live(1));
    assert!(vm.unpin(pinned.id));
    assert!(!vm.is_live(1) && !vm.is_live(2) && vm.is_live(3));
    // The tables come in the order of the version that held them last: newest first.
    assert_eq!(vm.take_obsolete(), vec![2, 1]);
    assert!(!vm.unpin(pinned.id));
    assert!(!vm.unpin(77));
    // The snapshot taken before reads its own tables.
    let snapshot = HummockSnapshot::new(pinned);
    assert_eq!(snapshot.get(&store, DIR, b"a"), Ok(Some(b"1".to_vec())));
    // Once the retired tables are deleted, the read fails; it does not pass for absence.
    store.delete(&table_path(DIR, 1)).unwrap();
    assert_eq!(snapshot.get(&store, DIR, b"a"), Err(HummockError::ObjectStoreError));
}

#[test]
fn compaction_without_pins_retires_its_inputs_at_once() {
    let mut vm = VersionManager::new();
    vm.add_l0(1, table(1, &[("a", 1, Some("1"))])).unwrap();
    vm.add_l0(2, table(2, &[("b", 2, Some("2"))])).unwrap();
    let merged = table(3, &[("a", 1, Some("1")), ("b", 2, Some("2"))]);
    vm.commit_compaction(3, 0, &vec![2, 1], &vec![], vec![merged]).unwrap();
    assert!(vm.is_obsolete(1) && vm.is_obsolete(2));
    assert_eq!(vm.current_version().levels[0].len(), 0);
    assert_eq!(vm.current_version().levels[1].len(), 1);
    assert_eq!(vm.max_epoch(), 2);
    // An id that is scheduled for deletion is not taken again.
    assert_eq!(vm.add_l0(4, table(2, &[("c", 9, Some("3"))])), Err(HummockError::VersionConflict));
}

#[test]
fn compaction_that_lost_its_inputs_is_refused() {
    let mut vm = VersionManager::new();
    vm.add_l0(1, table(1, &[("a", 1, Some("1"))])).unwrap();
    let out = table(9, &[("a", 1, Some("1"))]);
    assert_eq!(vm.commit_compaction(2, 0, &vec![1, 5], &vec![], vec![out]), Err(HummockError::VersionConflict));
    let out = table(9, &[("a", 1, Some("1"))]);
    assert_eq!(vm.commit_compaction(2, 0, &vec![1], &vec![4], vec![out]), Err(HummockError::VersionConflict));
    // An output under an id in use is refused as well.
    let out = table(1, &[("a", 1, Some("1"))]);
    assert_eq!(vm.commit_compaction(2, 0, &vec![1], &vec![], vec![out]), Err(HummockError::VersionConflict));
    assert_eq!(vm.current_version().id, 1);
    assert!(vm.is_live(1));
}

#[test]
fn deeper_levels_stay_sorted_and_disjoint() {
    let mut vm = VersionManager::new();
    vm.add_l0(1, table(1, &[("c", 1, Some("1")), ("d", 1, Some("1"))])).unwrap();
    vm.commit_compaction(2, 0, &vec![1], &vec![], vec![table(2, &[("c", 1, Some("1")), ("d", 1, Some("1"))])])
        .unwrap();
    vm.add_l0(3, table(3, &[("a", 3, Some("3"))])).unwrap();
    vm.commit_compaction(4, 0, &vec![3], &vec![], vec![table(4, &[("a", 3, Some("3"))])]).unwrap();
    vm.add_l0(5, table(5, &[("x", 5, Some("5"))])).unwrap();
    vm.commit_compaction(6, 0, &vec![5], &vec![], vec![table(6, &[("x", 5, Some("5"))])]).unwrap();
    let ids: Vec<u64> = vm.current_version().levels[1].iter().map(|t| t.id).collect();
    assert_eq!(ids, vec![4, 2, 6]);
    // A table that overlaps a table of the level is refused.
    vm.add_l0(7, table(7, &[("d", 7, Some("7")), ("e", 7, Some("7"))])).unwrap();
    let overlapping = table(8, &[("d", 7, Some("7")), ("e", 7, Some("7"))]);
    assert_eq!(vm.commit_compaction(8, 0, &vec![7], &vec![], vec![overlapping]), Err(HummockError::VersionConflict));
    // With the table that it overlaps among the inputs it goes in.
    let merged = table(8, &[("c", 1, Some("1")), ("d", 7, Some("7")), ("e", 7, Some("7"))]);
    vm.commit_compaction(8, 0, &vec![7], &vec![2], vec![merged]).unwrap();
    let ids: Vec<u64> = vm.current_version().levels[1].iter().map(|t| t.id).collect();
    assert_eq!(ids, vec![4, 8, 6]);
}

#[test]
fn watermark_is_the_oldest_pinned_epoch() {
    let mut vm = VersionManager::new();
    assert_eq!(vm.min_pinned_epoch(), 0);
    vm.add_l0(1, table(4, &[("a", 4, Some("1"))])).unwrap();
    let old = vm.pin();
    vm.add_l0(2, table(9, &[("a", 9, Some("2"))])).unwrap();
    assert_eq!(vm.max_epoch(), 9);
    assert_eq!(vm.min_pinned_epoch(), 4);
    vm.unpin(old.id);
    assert_eq!(vm.min_pinned_epoch(), 9);
}

#[test]
fn snapshot_sees_the_newest_epoch_up_to_its_own() {
    let mut store = InMemObjectStore::new();
    let mut vm = VersionManager::new();
    vm.add_l0(1, stored(&mut store, 1, &[("a", 1, Some("one")), ("b", 1, Some("b1"))])).unwrap();
    vm.add_l0(2, stored(&mut store, 3, &[("a", 3, None)])).unwrap();
    vm.add_l0(3, stored(&mut store, 5, &[("a", 5, Some("five"))])).unwrap();
    let version = vm.pin();
    let at = |epoch: u64| HummockSnapshot { version: version.duplicate(), epoch };
    assert_eq!(at(0).get(&store, DIR, b"a"), Ok(None));
    assert_eq!(at(1).get(&store, DIR, b"a"), Ok(Some(b"one".to_vec())));
    assert_eq!(at(2).get(&store, DIR, b"a"), Ok(Some(b"one".to_vec())));
    assert_eq!(at(3).get(&store, DIR, b"a"), Ok(None));
    assert_eq!(at(4).get(&store, DIR, b"a"), Ok(None));
    assert_eq!(at(5).get(&store, DIR, b"a"), Ok(Some(b"five".to_vec())));
    assert_eq!(at(u64::MAX).get(&store, DIR, b"a"), Ok(Some(b"five".to_vec())));
    assert_eq!(at(4).scan(&store, DIR, all()).unwrap(), vec![(b"b".to_vec(), b"b1".to_vec())]);
    assert_eq!(at(0).scan(&store, DIR, all()).unwrap(), vec![]);
    assert_eq!(at(9).scan(&store, DIR, all()).unwrap().len(), 2);
}

#[test]
fn merging_iterator_yields_all_entries_in_key_order() {
    let t1 = table(1, &[("a", 1, Some("a1")), ("c", 1, Some("c1")), ("e", 1, Some("e1"))]);
    let t2 = table(2, &[("a", 2, Some("a2")), ("b", 2, None), ("f", 2, Some("f2"))]);
    let t3 = table(3, &[("d", 3, Some("d3"))]);
    let mut it = MergingIterator::new(vec![TableIterator::new(t1), TableIterator::new(t2), TableIterator::new(t3)]);
    it.rewind().unwrap();
    let mut seen = Vec::new();
    while it.is_valid() {
        let k = it.key().to_vec();
        seen.push((k[..k.len() - 8].to_vec(), hummock::key::epoch_of(&k)));
        it.next().unwrap();
    }
    let want: Vec<(Vec<u8>, u64)> = [("a", 2), ("a", 1), ("b", 2), ("c", 1), ("d", 3), ("e", 1), ("f", 2)]
        .iter()
        .map(|(k, e)| (k.as_bytes().to_vec(), *e))
        .collect();
    assert_eq!(seen, want);
    it.seek(&key_with_epoch(b"c".to_vec(), u64::MAX)).unwrap();
    assert_eq!(it.key(), &key_with_epoch(b"c".to_vec(), 1)[..]);
    it.seek(&key_with_epoch(b"g".to_vec(), 0)).unwrap();
    assert!(!it.is_valid());
}

#[test]
fn user_key_iterator_seeks_within_its_range() {
    let t1 = table(1, &[("a", 1, Some("a1")), ("c", 1, Some("c1")), ("e", 1, Some("e1"))]);
    let t2 = table(2, &[("a", 2, Some("a2")), ("b", 2, None), ("f", 2, Some("f2"))]);
    let merging = MergingIterator::new(vec![TableIterator::new(t2), TableIterator::new(t1)]);
    let range = KeyRange { start: KeyBound::Included(b"b".to_vec()), end: KeyBound::Excluded(b"f".to_vec()) };
    let mut it = UserKeyIterator::new(merging, range, 2);
    it.rewind().unwrap();
    assert!(it.is_valid());
    assert_eq!((it.key(), it.value()), (&b"c"[..], &b"c1"[..]));
    it.next().unwrap();
    assert_eq!((it.key(), it.value()), (&b"e"[..], &b"e1"[..]));
    it.next().unwrap();
    assert!(!it.is_valid());
    it.seek(b"d").unwrap();
    assert_eq!(it.key(), b"e");
    // A key before the range starts the scan at the start of the range.
    it.seek(b"a").unwrap();
    assert_eq!(it.key(), b"c");
    it.seek(b"f").unwrap();
    assert!(!it.is_valid());
}
