use hummock::object::{table_path, InMemObjectStore, ObjectStore};
use hummock::snapshot::HummockSnapshot;
use hummock::storage::{CompactionOutcome, HummockOptions, HummockStorage, PUT_BYTES_METRIC};
use hummock::user_iterator::{KeyBound, KeyRange, UserKeyIterator};
use hummock::{ChecksumAlg, HummockError, HummockValue};

const DIR: &str = "hummock_001";

fn pair(key: &str, value: Option<&str>) -> (Vec<u8>, HummockValue) {
    (
        key.as_bytes().to_vec(),
        HummockValue::from_option(value.map(|v| v.as_bytes().to_vec())),
    )
}

fn sorted(mut batch: Vec<(Vec<u8>, HummockValue)>) -> Vec<(Vec<u8>, HummockValue)> {
    batch.sort_by(|(k1, _), (k2, _)| k1.cmp(k2));
    batch
}

fn up_to_ee() -> KeyRange {
    KeyRange { start: KeyBound::Unbounded, end: KeyBound::Included(b"ee".to_vec()) }
}

fn count_iter(iter: &mut UserKeyIterator) -> usize {
    let mut c: usize = 0;
    while iter.is_valid() {
        c += 1;
        iter.next().unwrap();
    }
    c
}

fn new_store() -> HummockStorage<InMemObjectStore> {
    HummockStorage::new(InMemObjectStore::new(), HummockOptions::default_for_test())
}

#[test]
fn test_basic() {
    let mut hummock_storage = new_store();
    let anchor = b"aa".to_vec();

    // First batch inserts the anchor and others.
    let batch1 = sorted(vec![pair("aa", Some("111")), pair("bb", Some("222"))]);
    // Second batch modifies the anchor.
    let batch2 = sorted(vec![pair("cc", Some("333")), pair("aa", Some("111111"))]);
    // Third batch deletes the anchor.
    let batch3 = sorted(vec![pair("dd", Some("444")), pair("ee", Some("555")), pair("aa", None)]);

    hummock_storage.write_batch(batch1).unwrap();
    let snapshot1 = hummock_storage.get_snapshot();

    let value = snapshot1.get(hummock_storage.object_store(), DIR, &anchor).unwrap().unwrap();
    assert_eq!(value, b"111".to_vec());

    // A key that is not there; the iterator below it stands at the next key.
    let value = snapshot1.get(hummock_storage.object_store(), DIR, b"ab").unwrap();
    assert_eq!(value, None);

    hummock_storage.write_batch(batch2).unwrap();
    let snapshot2 = hummock_storage.get_snapshot();

    let value = snapshot2.get(hummock_storage.object_store(), DIR, &anchor).unwrap().unwrap();
    assert_eq!(value, b"111111".to_vec());

    hummock_storage.write_batch(batch3).unwrap();
    let snapshot3 = hummock_storage.get_snapshot();

    let value = snapshot3.get(hummock_storage.object_store(), DIR, &anchor).unwrap();
    assert_eq!(value, None);

    // A key beyond the largest one.
    let value = snapshot3.get(hummock_storage.object_store(), DIR, b"ff").unwrap();
    assert_eq!(value, None);

    // The first snapshot sees aa and bb.
    let mut iter = snapshot1.range_scan(hummock_storage.object_store(), DIR, up_to_ee()).unwrap();
    iter.rewind().unwrap();
    let len = count_iter(&mut iter);
    assert_eq!(len, 2);

    let value = snapshot1.get(hummock_storage.object_store(), DIR, &anchor).unwrap().unwrap();
    assert_eq!(value, b"111".to_vec());

    assert!(hummock_storage.release_snapshot(snapshot1));

    let value = snapshot2.get(hummock_storage.object_store(), DIR, &anchor).unwrap().unwrap();
    assert_eq!(value, b"111111".to_vec());
    // The second snapshot sees the new aa, and cc.
    let mut iter = snapshot2.range_scan(hummock_storage.object_store(), DIR, up_to_ee()).unwrap();
    iter.rewind().unwrap();
    let len = count_iter(&mut iter);
    assert_eq!(len, 3);

    assert!(hummock_storage.release_snapshot(snapshot2));

    // The third snapshot sees aa deleted, and dd and ee.
    let mut iter = snapshot3.range_scan(hummock_storage.object_store(), DIR, up_to_ee()).unwrap();
    iter.rewind().unwrap();
    let len = count_iter(&mut iter);
    assert_eq!(len, 4);
}

#[test]
fn test_prometheus_endpoint() {
    let registry = prometheus::Registry::new();
    let mut hummock_storage = new_store();
    let batch1 = sorted(vec![pair("aa", Some("111")), pair("bb", Some("222"))]);
    hummock_storage.write_batch(batch1).unwrap();

    let counted = hummock_storage.get_stats_ref().unwrap().put_bytes;
    assert!(counted > 0);
    let counter = prometheus::IntCounter::new(PUT_BYTES_METRIC, "bytes written").unwrap();
    registry.register(Box::new(counter.clone())).unwrap();
    counter.inc_by(counted);

    let encoder = prometheus::TextEncoder::new();
    let s = encoder.encode_to_string(&registry.gather()).unwrap();
    assert!(s.contains("hummock_put_bytes"));
    assert!(!s.contains("hummock_pt_byts"));
}

#[test]
fn scan_yields_keys_in_order_with_newest_values() {
    let mut store = new_store();
    store.write_batch(sorted(vec![pair("aa", Some("111")), pair("bb", Some("222"))])).unwrap();
    store.write_batch(sorted(vec![pair("cc", Some("333")), pair("aa", Some("111111"))])).unwrap();
    store
        .write_batch(sorted(vec![pair("dd", Some("444")), pair("ee", Some("555")), pair("aa", None)]))
        .unwrap();
    let snapshot: HummockSnapshot = store.get_snapshot();
    let all = snapshot.scan(store.object_store(), DIR, KeyRange { start: KeyBound::Unbounded, end: KeyBound::Unbounded }).unwrap();
    assert_eq!(store.scan(KeyRange { start: KeyBound::Unbounded, end: KeyBound::Unbounded }), Ok(all.clone()));
    assert_eq!(
        all,
        vec![
            (b"bb".to_vec(), b"222".to_vec()),
            (b"cc".to_vec(), b"333".to_vec()),
            (b"dd".to_vec(), b"444".to_vec()),
            (b"ee".to_vec(), b"555".to_vec()),
        ]
    );
    let some = snapshot.scan(store.object_store(), DIR, KeyRange { start: KeyBound::Excluded(b"bb".to_vec()), end: KeyBound::Excluded(b"ee".to_vec()) })
        .unwrap();
    assert_eq!(some, vec![(b"cc".to_vec(), b"333".to_vec()), (b"dd".to_vec(), b"444".to_vec())]);
    let one = snapshot.scan(store.object_store(), DIR, KeyRange { start: KeyBound::Included(b"bb".to_vec()), end: KeyBound::Included(b"bb".to_vec()) })
        .unwrap();
    assert_eq!(one, vec![(b"bb".to_vec(), b"222".to_vec())]);
}

#[test]
fn empty_batch_publishes_nothing() {
    let mut store = new_store();
    assert_eq!(store.next_unique_id(), 0);
    assert_eq!(store.write_batch(vec![]), Ok(()));
    assert_eq!(store.next_unique_id(), 1);
    assert_eq!(store.get_stats_ref().unwrap().put_bytes, 0);
    assert!(!store.take_compaction_notice());
    assert!(!store.object_store().contains("hummock_001/0.sst"));
    let snapshot = store.get_snapshot();
    assert_eq!(snapshot.version.id, 0);
    assert!(snapshot.version.levels.iter().all(|l| l.is_empty()));
}

#[test]
fn lookup_on_empty_store_finds_nothing() {
    let store = new_store();
    assert_eq!(store.get(b"x"), Ok(None));
}

#[test]
fn empty_user_key_is_refused() {
    let mut store = new_store();
    assert_eq!(store.get(b""), Err(HummockError::InvalidKey));
    assert_eq!(
        store.write_batch(vec![(vec![], HummockValue::Put(b"v".to_vec()))]),
        Err(HummockError::InvalidKey)
    );
    // A refused batch takes no epoch.
    assert_eq!(store.next_unique_id(), 0);
}

#[test]
fn unordered_batch_is_refused() {
    let mut store = new_store();
    let batch = vec![pair("bb", Some("1")), pair("aa", Some("2"))];
    assert_eq!(store.write_batch(batch), Err(HummockError::InvalidKey));
    let batch = vec![pair("aa", Some("1")), pair("aa", Some("2"))];
    assert_eq!(store.write_batch(batch), Err(HummockError::InvalidKey));
    assert_eq!(store.get(b"aa"), Ok(None));
}

#[test]
fn write_uploads_the_table_under_its_path() {
    let mut store = new_store();
    store.write_batch(vec![pair("k", Some("v"))]).unwrap();
    store.write_batch(vec![pair("k", Some("w"))]).unwrap();
    assert_eq!(table_path("hummock_001", 0), "hummock_001/0.sst");
    assert_eq!(table_path("d", 1234567890), "d/1234567890.sst");
    assert!(store.object_store().contains("hummock_001/0.sst"));
    assert!(store.object_store().contains("hummock_001/1.sst"));
    assert!(!store.object_store().contains("hummock_001/2.sst"));
    let bytes = store.object_store().get("hummock_001/1.sst").unwrap();
    assert_eq!(store.get_stats_ref().unwrap().put_bytes as usize,
        bytes.len() + store.object_store().get("hummock_001/0.sst").unwrap().len());
    assert!(store.take_compaction_notice());
    assert!(!store.take_compaction_notice());
    assert_eq!(store.get(b"k"), Ok(Some(b"w".to_vec())));
}

#[test]
fn store_without_statistics_counts_nothing() {
    let mut options = HummockOptions::default_for_test();
    options.stats_enabled = false;
    options.checksum_algo = ChecksumAlg::XxHash64;
    options.bloom_bits_per_key = 0;
    let mut store = HummockStorage::new(InMemObjectStore::new(), options);
    store.write_batch(vec![pair("k", Some("v"))]).unwrap();
    assert!(store.get_stats_ref().is_none());
    assert_eq!(store.get(b"k"), Ok(Some(b"v".to_vec())));
    assert_eq!(store.get(b"j"), Ok(None));
}

#[test]
fn in_memory_store_keeps_the_last_write() {
    let mut s = InMemObjectStore::new();
    assert_eq!(s.get("a"), Err(HummockError::ObjectStoreError));
    s.put("a", b"1").unwrap();
    s.put("b", b"2").unwrap();
    s.put("a", b"3").unwrap();
    assert_eq!(s.get("a"), Ok(b"3".to_vec()));
    assert_eq!(s.get("b"), Ok(b"2".to_vec()));
    s.delete("a").unwrap();
    assert_eq!(s.get("a"), Err(HummockError::ObjectStoreError));
    assert!(s.contains("b"));
}

#[test]
fn user_key_that_begins_another_sorts_before_it() {
    let mut store = new_store();
    // Byte by byte the full key of "a" would sort behind that of "ab"; the
    // order of full keys goes by user key first.
    let batch = vec![pair("a", Some("1")), pair("ab", Some("2")), pair("abc", None), pair("b", Some("3"))];
    store.write_batch(batch).unwrap();
    store.write_batch(vec![pair("ab", Some("22"))]).unwrap();
    assert_eq!(store.get(b"a"), Ok(Some(b"1".to_vec())));
    assert_eq!(store.get(b"ab"), Ok(Some(b"22".to_vec())));
    assert_eq!(store.get(b"abc"), Ok(None));
    let snapshot = store.get_snapshot();
    let all = snapshot.scan(store.object_store(), DIR, KeyRange { start: KeyBound::Unbounded, end: KeyBound::Unbounded }).unwrap();
    assert_eq!(
        all,
        vec![
            (b"a".to_vec(), b"1".to_vec()),
            (b"ab".to_vec(), b"22".to_vec()),
            (b"b".to_vec(), b"3".to_vec()),
        ]
    );
}

#[test]
fn value_sizes_are_counted_as_they_are_written() {
    for v in [HummockValue::Delete, HummockValue::Put(vec![]), HummockValue::Put(b"12345".to_vec())] {
        let mut buf = vec![0xaa];
        v.encode(&mut buf);
        assert_eq!(buf.len(), 1 + v.encoded_len());
        assert_eq!(buf[0], 0xaa);
        assert!(v.fits());
        let (back, next) = HummockValue::decode_at(&buf, 1).unwrap();
        assert_eq!(next, buf.len());
        assert_eq!(back.is_delete(), v.is_delete());
        assert_eq!(back.duplicate().into_put_value(), v.into_put_value());
    }
}

#[test]
fn errors_describe_themselves() {
    assert_eq!(HummockError::ChecksumMismatch.message(), "checksum mismatch");
    assert_eq!(HummockError::InvalidSST.message(), "invalid table");
    assert_eq!(HummockError::VersionConflict.message(), "version conflict");
    assert_eq!(PUT_BYTES_METRIC, "hummock_put_bytes");
}

/// A store that refuses every request.
struct DownStore;

impl ObjectStore for DownStore {
    fn put(&mut self, _path: &str, _data: &[u8]) -> Result<(), HummockError> {
        Err(HummockError::ObjectStoreError)
    }

    fn get(&self, _path: &str) -> Result<Vec<u8>, HummockError> {
        Err(HummockError::ObjectStoreError)
    }

    fn delete(&mut self, _path: &str) -> Result<(), HummockError> {
        Err(HummockError::ObjectStoreError)
    }
}

#[test]
fn failed_upload_publishes_nothing_and_spends_the_epoch() {
    let mut store = HummockStorage::new(DownStore, HummockOptions::default_for_test());
    assert_eq!(store.write_batch(vec![pair("k", Some("v"))]), Err(HummockError::ObjectStoreError));
    assert_eq!(store.next_unique_id(), 1);
    assert_eq!(store.get(b"k"), Ok(None));
    assert_eq!(store.get_stats_ref().unwrap().put_bytes, 0);
    assert!(!store.take_compaction_notice());
    let snapshot = store.get_snapshot();
    assert_eq!(snapshot.version.id, 0);
    assert!(store.release_snapshot(snapshot));
    // An empty batch needs no upload.
    assert_eq!(store.write_batch(vec![]), Ok(()));
    assert_eq!(store.next_unique_id(), 2);
}

/// A store whose objects the test can reach while the state store owns it.
struct SharedStore(std::rc::Rc<std::cell::RefCell<InMemObjectStore>>);

impl ObjectStore for SharedStore {
    fn put(&mut self, path: &str, data: &[u8]) -> Result<(), HummockError> {
        self.0.borrow_mut().put(path, data)
    }

    fn get(&self, path: &str) -> Result<Vec<u8>, HummockError> {
        self.0.borrow().get(path)
    }

    fn delete(&mut self, path: &str) -> Result<(), HummockError> {
        self.0.borrow_mut().delete(path)
    }
}

fn everything() -> KeyRange {
    KeyRange { start: KeyBound::Unbounded, end: KeyBound::Unbounded }
}

fn shared_store() -> (std::rc::Rc<std::cell::RefCell<InMemObjectStore>>, HummockStorage<SharedStore>) {
    let objects = std::rc::Rc::new(std::cell::RefCell::new(InMemObjectStore::new()));
    let mut store = HummockStorage::new(SharedStore(objects.clone()), HummockOptions::default_for_test());
    store.write_batch(vec![pair("aa", Some("111")), pair("bb", Some("222"))]).unwrap();
    (objects, store)
}

#[test]
fn reads_take_the_bytes_from_the_object_store() {
    let (objects, mut store) = shared_store();
    let path = table_path(DIR, 0);
    let good = objects.borrow().get(&path).unwrap();
    assert_eq!(store.get(b"aa"), Ok(Some(b"111".to_vec())));

    // A flipped bit in a block.
    let mut bad = good.clone();
    bad[3] ^= 0x01;
    objects.borrow_mut().put(&path, &bad).unwrap();
    assert_eq!(store.get(b"aa"), Err(HummockError::ChecksumMismatch));
    assert_eq!(store.scan(everything()), Err(HummockError::ChecksumMismatch));
    let mut iter = store.range_scan(everything()).unwrap();
    assert_eq!(iter.rewind(), Err(HummockError::ChecksumMismatch));
    let snapshot = store.get_snapshot();
    assert_eq!(snapshot.get(store.object_store(), DIR, b"bb"), Err(HummockError::ChecksumMismatch));
    assert!(store.release_snapshot(snapshot));
    // A key that the filter of the table passes over asks for no bytes.
    assert_eq!(store.lookup_ids(b"zz"), Vec::<u64>::new());
    assert_eq!(store.get(b"zz"), Ok(None));

    // A flipped bit in the footer.
    let mut bad = good.clone();
    let n = bad.len();
    bad[n - 1] ^= 0x80;
    objects.borrow_mut().put(&path, &bad).unwrap();
    assert_eq!(store.get(b"aa"), Err(HummockError::ChecksumMismatch));
    assert!(matches!(store.range_scan(everything()), Err(HummockError::ChecksumMismatch)));

    // A table cut short.
    objects.borrow_mut().put(&path, &good[..n - 1]).unwrap();
    assert_eq!(store.get(b"aa"), Err(HummockError::InvalidSST));
    assert_eq!(store.scan(everything()), Err(HummockError::InvalidSST));
    assert!(matches!(store.range_scan(everything()), Err(HummockError::InvalidSST)));

    // A table that is gone.
    objects.borrow_mut().delete(&path).unwrap();
    assert_eq!(store.get(b"aa"), Err(HummockError::ObjectStoreError));
    assert_eq!(store.scan(everything()), Err(HummockError::ObjectStoreError));

    // The bytes as they were written.
    objects.borrow_mut().put(&path, &good).unwrap();
    assert_eq!(store.get(b"aa"), Ok(Some(b"111".to_vec())));
    assert_eq!(store.scan(everything()).map(|v| v.len()), Ok(2));
}

#[test]
fn reads_on_given_answers_of_the_object_store() {
    let (objects, mut store) = shared_store();
    store.write_batch(vec![pair("aa", None), pair("cc", Some("333"))]).unwrap();
    let t0 = objects.borrow().get(&table_path(DIR, 0)).unwrap();
    let t1 = objects.borrow().get(&table_path(DIR, 1)).unwrap();
    assert_eq!(store.scan_ids(), vec![1, 0]);
    assert_eq!(store.lookup_ids(b"aa"), vec![1, 0]);
    assert_eq!(store.lookup_ids(b"bb"), vec![0]);
    assert_eq!(store.get_fetched(b"aa", &vec![Ok(t1.clone()), Ok(t0.clone())]), Ok(None));
    assert_eq!(store.get_fetched(b"bb", &vec![Ok(t0.clone())]), Ok(Some(b"222".to_vec())));
    assert_eq!(store.get_fetched(b"", &vec![]), Err(HummockError::InvalidKey));
    // An answer for another number of tables counts as a failed fetch.
    assert_eq!(store.get_fetched(b"bb", &vec![]), Err(HummockError::ObjectStoreError));
    assert_eq!(
        store.get_fetched(b"aa", &vec![Ok(t1.clone()), Err(HummockError::ObjectStoreError)]),
        Err(HummockError::ObjectStoreError)
    );
    // Whatever order the tables come in, the newest entry of the key decides.
    assert_eq!(store.get_fetched(b"aa", &vec![Ok(t0.clone()), Ok(t1.clone())]), Ok(None));
    assert_eq!(
        store.scan_fetched(everything(), &vec![Ok(t1.clone()), Ok(t0.clone())]),
        Ok(vec![(b"bb".to_vec(), b"222".to_vec()), (b"cc".to_vec(), b"333".to_vec())])
    );
    assert_eq!(store.scan_fetched(everything(), &vec![Ok(t1.clone())]), Err(HummockError::ObjectStoreError));
    let mut iter = store.range_scan_fetched(everything(), &vec![Ok(t1), Ok(t0)]).unwrap();
    iter.rewind().unwrap();
    assert_eq!(count_iter(&mut iter), 2);
}

#[test]
fn compaction_takes_its_inputs_from_the_object_store() {
    let (objects, mut store) = shared_store();
    store.write_batch(vec![pair("aa", None), pair("cc", Some("333"))]).unwrap();
    assert_eq!(store.compaction_input_ids(false), Vec::<u64>::new());
    assert_eq!(store.compaction_input_ids(true), vec![1, 0]);
    let path = table_path(DIR, 0);
    let good = objects.borrow().get(&path).unwrap();
    let mut bad = good.clone();
    bad[3] ^= 0x01;
    objects.borrow_mut().put(&path, &bad).unwrap();
    // A refused block abandons the compaction; the version stays.
    assert_eq!(store.compact(true), Err(HummockError::ChecksumMismatch));
    assert_eq!(store.scan_ids(), vec![1, 0]);
    objects.borrow_mut().delete(&path).unwrap();
    assert_eq!(store.compact(true), Err(HummockError::ObjectStoreError));
    assert_eq!(store.compact_fetched(true, &vec![]), Err(HummockError::ObjectStoreError));
    assert_eq!(store.compact_fetched(false, &vec![]), Ok(CompactionOutcome::Idle));
    let t1 = objects.borrow().get(&table_path(DIR, 1)).unwrap();
    assert_eq!(
        store.compact_fetched(true, &vec![Ok(t1), Ok(good)]),
        Ok(CompactionOutcome::Committed)
    );
    // The output takes the next id; the inputs are deleted.
    assert_eq!(store.scan_ids(), vec![2]);
    assert_eq!(store.next_unique_id(), 3);
    assert!(objects.borrow().contains(&table_path(DIR, 2)));
    assert!(!objects.borrow().contains(&table_path(DIR, 1)));
    assert_eq!(store.get(b"aa"), Ok(None));
    assert_eq!(store.get(b"bb"), Ok(Some(b"222".to_vec())));
    assert_eq!(
        store.scan(everything()),
        Ok(vec![(b"bb".to_vec(), b"222".to_vec()), (b"cc".to_vec(), b"333".to_vec())])
    );
}

#[test]
fn long_keys_and_large_batches_go_into_one_table() {
    let mut store = new_store();
    let long_key = vec![b'k'; 70_000];
    store.write_batch(vec![(long_key.clone(), HummockValue::Put(b"v".to_vec()))]).unwrap();
    assert_eq!(store.get(&long_key), Ok(Some(b"v".to_vec())));
    let batch: Vec<(Vec<u8>, HummockValue)> = (0..20_000)
        .map(|i| (format!("key{:06}", i).into_bytes(), HummockValue::Put(format!("{}", i).into_bytes())))
        .collect();
    store.write_batch(batch).unwrap();
    assert_eq!(store.scan_ids(), vec![1, 0]);
    assert_eq!(store.get(b"key019999"), Ok(Some(b"19999".to_vec())));
    assert_eq!(store.get(b"key020000"), Ok(None));
    assert_eq!(store.scan(everything()).map(|v| v.len()), Ok(20_001));
}
