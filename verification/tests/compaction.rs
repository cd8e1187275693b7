use hummock::builder::TableBuilder;
use hummock::compactor::merge_tables;
use hummock::key::{epoch_of, key_with_epoch};
use hummock::object::{table_path, InMemObjectStore, ObjectStore};
use hummock::picker::{pick_compaction, L0_TRIGGER};
use hummock::storage::{CompactionOutcome, HummockOptions, HummockStorage};
use hummock::table::Table;
use hummock::user_iterator::{KeyBound, KeyRange};
use hummock::HummockValue;

const DIR: &str = "hummock_001";

fn pair(key: &str, value: Option<&str>) -> (Vec<u8>, HummockValue) {
    (
        key.as_bytes().to_vec(),
        HummockValue::from_option(value.map(|v| v.as_bytes().to_vec())),
    )
}

fn everything() -> KeyRange {
    KeyRange { start: KeyBound::Unbounded, end: KeyBound::Unbounded }
}

fn store_after_three_batches() -> HummockStorage<InMemObjectStore> {
    let mut store = HummockStorage::new(InMemObjectStore::new(), HummockOptions::default_for_test());
    store.write_batch(vec![pair("aa", Some("111")), pair("bb", Some("222"))]).unwrap();
    store.write_batch(vec![pair("aa", Some("111111")), pair("cc", Some("333"))]).unwrap();
    store
        .write_batch(vec![pair("aa", None), pair("dd", Some("444")), pair("ee", Some("555"))])
        .unwrap();
    store
}

#[test]
fn forced_compaction_keeps_what_readers_see() {
    let mut store = store_after_three_batches();
    let before = store.get_snapshot();
    let keys: Vec<&[u8]> = vec![b"aa", b"ab", b"bb", b"cc", b"dd", b"ee", b"ff"];
    let gets_before: Vec<_> = keys.iter().map(|k| before.get(store.object_store(), DIR, k).unwrap()).collect();
    let scan_before = before.scan(store.object_store(), DIR, everything()).unwrap();
    assert!(store.release_snapshot(before));

    assert_eq!(store.compact(true), Ok(CompactionOutcome::Committed));

    let after = store.get_snapshot();
    let gets_after: Vec<_> = keys.iter().map(|k| after.get(store.object_store(), DIR, k).unwrap()).collect();
    assert_eq!(gets_after, gets_before);
    assert_eq!(after.scan(store.object_store(), DIR, everything()).unwrap(), scan_before);
    assert_eq!(after.get(store.object_store(), DIR, b"aa").unwrap(), None);
    assert_eq!(after.get(store.object_store(), DIR, b"bb").unwrap(), Some(b"222".to_vec()));
    assert_eq!(after.scan(store.object_store(), DIR, everything()).unwrap().len(), 4);
    // Level 0 is empty, level 1 holds the merged table.
    assert_eq!(after.version.levels[0].len(), 0);
    assert_eq!(after.version.levels[1].len(), 1);
    assert_eq!(after.epoch, 2);
}

#[test]
fn compaction_leaves_a_pinned_snapshot_as_it_was() {
    let mut store = HummockStorage::new(InMemObjectStore::new(), HummockOptions::default_for_test());
    store.write_batch(vec![pair("aa", Some("111")), pair("bb", Some("222"))]).unwrap();
    let first = store.get_snapshot();
    store.write_batch(vec![pair("aa", Some("111111")), pair("cc", Some("333"))]).unwrap();
    store.write_batch(vec![pair("aa", None)]).unwrap();
    assert_eq!(store.compact(true), Ok(CompactionOutcome::Committed));
    // The snapshot still reads its own version.
    assert_eq!(first.get(store.object_store(), DIR, b"aa").unwrap(), Some(b"111".to_vec()));
    assert_eq!(first.get(store.object_store(), DIR, b"cc").unwrap(), None);
    assert_eq!(first.scan(store.object_store(), DIR, everything()).unwrap().len(), 2);
    // The tables of the pinned version stay in the object store.
    assert!(store.object_store().contains("hummock_001/0.sst"));
    assert!(!store.object_store().contains("hummock_001/1.sst"));
    assert!(!store.object_store().contains("hummock_001/2.sst"));
    assert!(store.release_snapshot(first));
    assert!(!store.object_store().contains("hummock_001/0.sst"));
    assert_eq!(store.get(b"aa").unwrap(), None);
    assert_eq!(store.get(b"bb").unwrap(), Some(b"222".to_vec()));
}

#[test]
fn compaction_above_the_lowest_level_keeps_the_newest_tombstone() {
    let mut store = store_after_three_batches();
    assert_eq!(store.compact(true), Ok(CompactionOutcome::Committed));
    let snapshot = store.get_snapshot();
    let id = snapshot.version.levels[1][0].id;
    let bytes = store.object_store().get(&table_path(DIR, id)).unwrap();
    let table = Table::open(id, bytes).unwrap();
    let mut keys = Vec::new();
    for i in 0..table.block_count() {
        let block = table.read_block(i).unwrap();
        for j in 0..block.len() {
            keys.push(block.key(j).to_vec());
        }
    }
    // Of aa the tombstone is left, for the merge goes into level 1; the
    // versions that it hides are below every reader and are gone.
    let seen: Vec<(Vec<u8>, u64)> = keys.iter().map(|k| (k[..k.len() - 8].to_vec(), epoch_of(k))).collect();
    assert_eq!(
        seen,
        vec![
            (b"aa".to_vec(), 2),
            (b"bb".to_vec(), 0),
            (b"cc".to_vec(), 1),
            (b"dd".to_vec(), 2),
            (b"ee".to_vec(), 2),
        ]
    );
    assert_eq!(snapshot.get(store.object_store(), DIR, b"aa"), Ok(None));
}

fn built(id: u64, items: &[(&str, u64, Option<&str>)]) -> Table {
    let mut b = TableBuilder::new(HummockOptions::default_for_test().builder_options());
    for (k, e, v) in items {
        let value = HummockValue::from_option(v.map(|x| x.as_bytes().to_vec()));
        b.add(&key_with_epoch(k.as_bytes().to_vec(), *e), &value);
    }
    let (bytes, meta) = b.finish();
    Table::from_parts(id, bytes, meta)
}

fn kept_keys(parts: &[(Vec<u8>, hummock::table::TableMeta)]) -> Vec<(Vec<u8>, u64)> {
    let mut out = Vec::new();
    for (bytes, _) in parts {
        let table = Table::open(0, bytes.clone()).unwrap();
        for i in 0..table.block_count() {
            let block = table.read_block(i).unwrap();
            for j in 0..block.len() {
                let k = block.key(j).to_vec();
                out.push((k[..k.len() - 8].to_vec(), epoch_of(&k)));
            }
        }
    }
    out
}

#[test]
fn tombstone_is_dropped_only_in_the_lowest_level() {
    let tables = || {
        vec![
            built(2, &[("aa", 5, None), ("bb", 5, Some("new")), ("cc", 5, None)]),
            built(1, &[("aa", 1, Some("old")), ("bb", 1, Some("old")), ("dd", 1, Some("d"))]),
        ]
    };
    let options = HummockOptions::default_for_test().builder_options();
    let all = vec![
        (b"aa".to_vec(), 5),
        (b"bb".to_vec(), 5),
        (b"cc".to_vec(), 5),
        (b"dd".to_vec(), 1),
    ];
    // Into a level above the lowest: the tombstones stay, the hidden versions go.
    let parts = merge_tables(&tables(), 5, &vec![], 6, false, options.clone()).unwrap();
    assert_eq!(kept_keys(&parts), all);
    // Into the lowest level: the tombstones go too.
    let parts = merge_tables(&tables(), 5, &vec![], 6, true, options.clone()).unwrap();
    assert_eq!(kept_keys(&parts), vec![(b"bb".to_vec(), 5), (b"dd".to_vec(), 1)]);
    // A tombstone whose key a table outside the merge may hold stays.
    let others = vec![(b"c".to_vec(), b"cz".to_vec())];
    let parts = merge_tables(&tables(), 5, &others, 6, true, options.clone()).unwrap();
    assert_eq!(kept_keys(&parts), vec![(b"bb".to_vec(), 5), (b"cc".to_vec(), 5), (b"dd".to_vec(), 1)]);
    // Above the watermark every version stays, whatever the level.
    let parts = merge_tables(&tables(), 0, &vec![], 6, true, options).unwrap();
    assert_eq!(
        kept_keys(&parts),
        vec![
            (b"aa".to_vec(), 5),
            (b"aa".to_vec(), 1),
            (b"bb".to_vec(), 5),
            (b"bb".to_vec(), 1),
            (b"cc".to_vec(), 5),
            (b"dd".to_vec(), 1),
        ]
    );
}

#[test]
fn compactor_is_idle_below_the_trigger() {
    let mut store = HummockStorage::new(InMemObjectStore::new(), HummockOptions::default_for_test());
    assert_eq!(store.compact(false), Ok(CompactionOutcome::Idle));
    for i in 0..(L0_TRIGGER - 1) {
        store.write_batch(vec![pair("k", Some(&format!("v{}", i)))]).unwrap();
        assert_eq!(store.compact(false), Ok(CompactionOutcome::Idle));
    }
    let snapshot = store.get_snapshot();
    assert!(pick_compaction(&snapshot.version, 1 << 20).is_none());
    assert_eq!(snapshot.version.levels[0].len(), L0_TRIGGER - 1);
    assert!(store.release_snapshot(snapshot));
    store.write_batch(vec![pair("k", Some("last")), pair("z", Some("end"))]).unwrap();
    assert_eq!(store.compact(false), Ok(CompactionOutcome::Committed));
    let snapshot = store.get_snapshot();
    assert_eq!(snapshot.version.levels[0].len(), 0);
    assert_eq!(snapshot.version.levels[1].len(), 1);
    assert_eq!(snapshot.get(store.object_store(), DIR, b"k").unwrap(), Some(b"last".to_vec()));
    assert_eq!(snapshot.get(store.object_store(), DIR, b"z").unwrap(), Some(b"end".to_vec()));
}

fn long(c: char) -> String {
    std::iter::repeat(c).take(60).collect()
}

#[test]
fn full_tables_are_closed_between_user_keys() {
    let mut options = HummockOptions::default_for_test();
    options.table_size = 64;
    options.block_size = 32;
    let mut store = HummockStorage::new(InMemObjectStore::new(), options);
    store
        .write_batch(vec![pair("a", Some(&long('1'))), pair("b", Some(&long('2'))), pair("c", Some("3"))])
        .unwrap();
    store.write_batch(vec![pair("a", Some(&long('4'))), pair("d", Some(&long('5')))]).unwrap();
    let held = store.get_snapshot();
    assert_eq!(store.compact(true), Ok(CompactionOutcome::Committed));
    let snapshot = store.get_snapshot();
    let level1 = &snapshot.version.levels[1];
    // Each long value fills a table; the short one leaves room for the next key.
    assert_eq!(level1.len(), 3);
    let firsts: Vec<&[u8]> = level1.iter().map(|t| t.smallest_user_key()).collect();
    assert_eq!(firsts, vec![&b"a"[..], &b"b"[..], &b"c"[..]]);
    assert_eq!(level1[2].largest_user_key(), b"d");
    for pair in level1.windows(2) {
        assert!(pair[0].largest_user_key() < pair[1].smallest_user_key());
    }
    assert_eq!(snapshot.scan(store.object_store(), DIR, everything()).unwrap().len(), 4);
    assert_eq!(snapshot.get(store.object_store(), DIR, b"a").unwrap(), Some(long('4').into_bytes()));
    assert_eq!(held.get(store.object_store(), DIR, b"a").unwrap(), Some(long('4').into_bytes()));
    // The blocks of level 1 have outgrown four table sizes: one of its tables goes down to level 2.
    assert_eq!(store.compact(true), Ok(CompactionOutcome::Committed));
    let snapshot = store.get_snapshot();
    assert_eq!(snapshot.version.levels[2].len(), 1);
    assert_eq!(snapshot.version.levels[1].len(), level1.len() - 1);
    assert_eq!(snapshot.scan(store.object_store(), DIR, everything()).unwrap().len(), 4);
    // New writes above level 1 are merged into it.
    store.write_batch(vec![pair("b", None), pair("e", Some("6"))]).unwrap();
    assert_eq!(store.compact(true), Ok(CompactionOutcome::Committed));
    let snapshot = store.get_snapshot();
    assert_eq!(snapshot.get(store.object_store(), DIR, b"b").unwrap(), None);
    assert_eq!(snapshot.get(store.object_store(), DIR, b"e").unwrap(), Some(b"6".to_vec()));
    assert_eq!(snapshot.scan(store.object_store(), DIR, everything()).unwrap().len(), 4);
    assert_eq!(snapshot.version.levels[0].len(), 0);
}
