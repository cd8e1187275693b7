use hummock::block::{Block, BlockBuilder, BlockIterator, RESTART_INTERVAL};
use hummock::bloom::{bloom_hash, build_filter, filter_may_contain, filter_may_contain_hash};
use hummock::builder::{TableBuilder, TableBuilderOptions};
use hummock::key::{epoch_of, key_with_epoch, user_key};
use hummock::object::{table_path, InMemObjectStore, ObjectStore};
use hummock::snapshot::HummockSnapshot;
use hummock::table::{open_meta, parse_footer, Table, FOOTER_LEN};
use hummock::table_iterator::TableIterator;
use hummock::version_manager::VersionManager;
use hummock::{ChecksumAlg, HummockError, HummockValue};

fn fk(user_key: &str, epoch: u64) -> Vec<u8> {
    key_with_epoch(user_key.as_bytes().to_vec(), epoch)
}

fn put(v: &str) -> HummockValue {
    HummockValue::Put(v.as_bytes().to_vec())
}

fn entries(n: usize) -> Vec<(Vec<u8>, HummockValue)> {
    (0..n)
        .map(|i| {
            let value = if i % 7 == 3 { HummockValue::Delete } else { put(&format!("value-{}", i)) };
            (fk(&format!("key{:05}", i), 9), value)
        })
        .collect()
}

fn build_block(items: &[(Vec<u8>, HummockValue)], alg: ChecksumAlg) -> Vec<u8> {
    let mut b = BlockBuilder::new();
    for (k, v) in items {
        b.add(k, v);
    }
    b.finish(alg)
}

fn options(block_size: u32, alg: ChecksumAlg) -> TableBuilderOptions {
    TableBuilderOptions {
        table_capacity: 1 << 20,
        block_size,
        bloom_bits_per_key: 10,
        checksum_algo: alg,
    }
}

fn build_table(items: &[(Vec<u8>, HummockValue)], block_size: u32, alg: ChecksumAlg) -> Vec<u8> {
    let mut b = TableBuilder::new(options(block_size, alg));
    for (k, v) in items {
        assert!(b.has_room());
        b.add(k, v);
    }
    b.finish().0
}

fn same(a: &HummockValue, b: &HummockValue) -> bool {
    match (a, b) {
        (HummockValue::Put(x), HummockValue::Put(y)) => x == y,
        (HummockValue::Delete, HummockValue::Delete) => true,
        _ => false,
    }
}

#[test]
fn block_round_trips_over_several_restart_points() {
    let items = entries(3 * RESTART_INTERVAL + 5);
    for alg in [ChecksumAlg::Crc32c, ChecksumAlg::XxHash64] {
        let bytes = build_block(&items, alg);
        let block = Block::decode(&bytes, alg).unwrap();
        assert_eq!(block.len(), items.len());
        for (i, (k, v)) in items.iter().enumerate() {
            assert_eq!(block.key(i), &k[..]);
            assert!(same(block.value(i), v));
        }
    }
}

#[test]
fn block_layout_ends_with_restarts_count_and_checksum() {
    let items = entries(RESTART_INTERVAL + 1);
    let bytes = build_block(&items, ChecksumAlg::Crc32c);
    let n = bytes.len();
    // Two restart points: at 0 and at the seventeenth record.
    assert_eq!(&bytes[n - 12..n - 8], &[2, 0, 0, 0]);
    assert_eq!(&bytes[n - 20..n - 16], &[0, 0, 0, 0]);
    // The first record shares nothing and holds the whole key.
    assert_eq!(&bytes[0..4], &[0, 0, 0, 0]);
    assert_eq!(&bytes[4..8], &[16, 0, 0, 0]);
    assert_eq!(&bytes[8..24], &items[0].0[..]);
    // The second record shares all of the key but one digit and the epoch.
    let second = 8 + 16 + 5 + "value-0".len();
    assert_eq!(&bytes[second..second + 4], &[7, 0, 0, 0]);
    assert_eq!(&bytes[second + 4..second + 8], &[9, 0, 0, 0]);
    let sum = hummock::checksum::checksum(ChecksumAlg::Crc32c, &bytes[..n - 8]);
    assert_eq!(&bytes[n - 8..], &sum.to_le_bytes());
}

#[test]
fn block_decoding_reports_what_is_wrong() {
    let items = entries(20);
    let bytes = build_block(&items, ChecksumAlg::Crc32c);
    assert!(matches!(Block::decode(&bytes[..11], ChecksumAlg::Crc32c), Err(HummockError::InvalidSST)));
    for at in [0, 9, bytes.len() / 2, bytes.len() - 13, bytes.len() - 1] {
        let mut bad = bytes.clone();
        bad[at] ^= 0x10;
        assert!(matches!(Block::decode(&bad, ChecksumAlg::Crc32c), Err(HummockError::ChecksumMismatch)));
    }
    // Under the other algorithm the stored checksum does not fit.
    assert!(matches!(Block::decode(&bytes, ChecksumAlg::XxHash64), Err(HummockError::ChecksumMismatch)));
    // A block whose keys are out of order is refused, though its checksum is right.
    let mut b = BlockBuilder::new();
    b.add(&fk("a", 1), &put("1"));
    b.add(&fk("b", 1), &put("2"));
    let mut swapped = b.finish(ChecksumAlg::Crc32c);
    swapped[8] = b'c';
    let n = swapped.len();
    let sum = hummock::checksum::checksum(ChecksumAlg::Crc32c, &swapped[..n - 8]);
    swapped[n - 8..].copy_from_slice(&sum.to_le_bytes());
    assert!(matches!(Block::decode(&swapped, ChecksumAlg::Crc32c), Err(HummockError::InvalidSST)));
    // A key without a user key is refused as a key.
    let mut short = Vec::new();
    short.extend_from_slice(&[0, 0, 0, 0, 8, 0, 0, 0]);
    short.extend_from_slice(&[0u8; 8]);
    short.push(1);
    short.extend_from_slice(&[0, 0, 0, 0, 1, 0, 0, 0]);
    let sum = hummock::checksum::checksum(ChecksumAlg::Crc32c, &short);
    short.extend_from_slice(&sum.to_le_bytes());
    assert!(matches!(Block::decode(&short, ChecksumAlg::Crc32c), Err(HummockError::InvalidKey)));
}

#[test]
fn block_seek_finds_the_first_key_not_before_the_target() {
    let items = entries(50);
    let block = Block::decode(&build_block(&items, ChecksumAlg::Crc32c), ChecksumAlg::Crc32c).unwrap();
    for i in 0..50 {
        assert_eq!(block.seek_index(&items[i].0), i);
        // A newer epoch of the same user key sorts just before it.
        assert_eq!(block.seek_index(&fk(&format!("key{:05}", i), 10)), i);
        // An older epoch sorts just behind it.
        assert_eq!(block.seek_index(&fk(&format!("key{:05}", i), 8)), i + 1);
    }
    assert_eq!(block.seek_index(&fk("a", 0)), 0);
    assert_eq!(block.seek_index(&fk("z", 0)), 50);
    let mut it = BlockIterator::new(block);
    it.seek(&items[48].0);
    assert!(it.is_valid());
    assert_eq!(it.key(), &items[48].0[..]);
    it.next();
    assert_eq!(it.key(), &items[49].0[..]);
    it.next();
    assert!(!it.is_valid());
    it.rewind();
    assert_eq!(it.key(), &items[0].0[..]);
}

#[test]
fn table_round_trips_through_builder_and_reader() {
    let items = entries(300);
    for alg in [ChecksumAlg::Crc32c, ChecksumAlg::XxHash64] {
        let bytes = build_table(&items, 256, alg);
        let table = Table::open(7, bytes).unwrap();
        assert!(table.block_count() > 3);
        assert_eq!(table.smallest_user_key(), b"key00000");
        assert_eq!(table.largest_user_key(), b"key00299");
        let mut it = TableIterator::new(table);
        it.rewind().unwrap();
        for (k, v) in &items {
            assert!(it.is_valid());
            assert_eq!(it.key(), &k[..]);
            assert!(same(it.value(), v));
            it.next().unwrap();
        }
        assert!(!it.is_valid());
        it.seek(&items[123].0).unwrap();
        assert_eq!(user_key(it.key()), b"key00123");
        assert_eq!(epoch_of(it.key()), 9);
        it.seek(&fk("key00123x", 0)).unwrap();
        assert_eq!(user_key(it.key()), b"key00124");
        it.seek(&fk("zzz", 0)).unwrap();
        assert!(!it.is_valid());
    }
}

#[test]
fn footer_is_forty_bytes_with_magic_and_algorithm() {
    let bytes = build_table(&entries(10), 64, ChecksumAlg::XxHash64);
    let footer = &bytes[bytes.len() - FOOTER_LEN..];
    assert_eq!(FOOTER_LEN, 40);
    assert_eq!(footer[24], 1);
    assert_eq!(footer[25], 1);
    assert_eq!(&footer[26..28], b"HU");
    let ft = parse_footer(footer).unwrap();
    assert_eq!(ft.filter_off, ft.index_off + ft.index_len as u64);
    assert_eq!(ft.filter_off + ft.filter_len as u64, (bytes.len() - FOOTER_LEN) as u64);
    assert_eq!(ft.alg, ChecksumAlg::XxHash64);
    let meta = open_meta(&bytes).unwrap();
    assert_eq!(meta.index[0].offset, 0);
    assert_eq!(meta.index.last().unwrap().offset + meta.index.last().unwrap().len as u64, ft.index_off);
}

#[test]
fn table_opening_reports_what_is_wrong() {
    let bytes = build_table(&entries(40), 128, ChecksumAlg::Crc32c);
    let n = bytes.len();
    assert!(matches!(Table::open(1, bytes[..39].to_vec()), Err(HummockError::InvalidSST)));
    assert!(matches!(Table::open(1, bytes[..n - 1].to_vec()), Err(HummockError::InvalidSST)));
    let mut bad_magic = bytes.clone();
    bad_magic[n - 40 + 26] = b'X';
    assert!(matches!(Table::open(1, bad_magic), Err(HummockError::InvalidSST)));
    let mut bad_alg = bytes.clone();
    bad_alg[n - 40 + 24] = 9;
    assert!(matches!(Table::open(1, bad_alg), Err(HummockError::InvalidSST)));
    let mut bad_footer = bytes.clone();
    bad_footer[n - 40] ^= 1;
    assert!(matches!(Table::open(1, bad_footer), Err(HummockError::ChecksumMismatch)));
    let ft = parse_footer(&bytes[n - 40..]).unwrap();
    let mut bad_index = bytes.clone();
    bad_index[ft.index_off as usize + 9] ^= 1;
    assert!(matches!(Table::open(1, bad_index), Err(HummockError::ChecksumMismatch)));
    let mut bad_filter = bytes.clone();
    bad_filter[ft.filter_off as usize] ^= 1;
    assert!(matches!(Table::open(1, bad_filter), Err(HummockError::ChecksumMismatch)));
    // A flipped bit in a block goes unseen until the block is touched.
    let mut bad_block = bytes.clone();
    bad_block[3] ^= 1;
    let table = Table::open(1, bad_block).unwrap();
    assert!(matches!(table.read_block(0), Err(HummockError::ChecksumMismatch)));
    assert!(table.read_block(1).is_ok());
}

#[test]
fn corrupted_block_fails_the_lookup_that_touches_it() {
    let items = entries(200);
    let bytes = build_table(&items, 256, ChecksumAlg::Crc32c);
    let meta = open_meta(&bytes).unwrap();
    assert!(meta.index.len() > 2);
    let second = meta.index[1].offset as usize;
    let mut bad = bytes.clone();
    bad[second + 10] ^= 0x04;
    let table = Table::open(9, bad.clone()).unwrap();
    let first_of_second = table.read_block(0).unwrap().len();
    let mut store = InMemObjectStore::new();
    store.put(&table_path("d", 9), &bad).unwrap();
    let mut vm = VersionManager::new();
    vm.add_l0(1, table.unloaded()).unwrap();
    let snapshot = HummockSnapshot::new(vm.pin());
    let in_second = user_key(&items[first_of_second].0).to_vec();
    assert_eq!(snapshot.get(&store, "d", &in_second), Err(HummockError::ChecksumMismatch));
    // Keys in other blocks are read as before.
    assert_eq!(snapshot.get(&store, "d", b"key00000"), Ok(Some(b"value-0".to_vec())));
    assert_eq!(snapshot.get(&store, "d", b"key00198"), Ok(Some(b"value-198".to_vec())));
    // The last entry is a tombstone.
    assert_eq!(snapshot.get(&store, "d", b"key00199"), Ok(None));
    // A scan runs into the block and fails; errors do not pass for absence.
    let all = || hummock::user_iterator::KeyRange {
        start: hummock::user_iterator::KeyBound::Unbounded,
        end: hummock::user_iterator::KeyBound::Unbounded,
    };
    assert_eq!(snapshot.scan(&store, "d", all()), Err(HummockError::ChecksumMismatch));
    let mut iter = snapshot.range_scan(&store, "d", all()).unwrap();
    assert_eq!(iter.rewind(), Ok(()));
    let mut outcome = Ok(());
    while outcome.is_ok() && iter.is_valid() {
        outcome = iter.next();
    }
    assert_eq!(outcome, Err(HummockError::ChecksumMismatch));
    // With the bytes as they were written, everything is read.
    store.put(&table_path("d", 9), &bytes).unwrap();
    let written = match &items[first_of_second].1 {
        HummockValue::Put(v) => Some(v.clone()),
        HummockValue::Delete => None,
    };
    assert_eq!(snapshot.get(&store, "d", &in_second), Ok(written));
    assert_eq!(snapshot.scan(&store, "d", all()).map(|v| v.len()), Ok(171));
}

#[test]
fn bloom_filter_admits_every_key_it_was_built_from() {
    let keys: Vec<Vec<u8>> = (0..2000).map(|i| format!("user-key-{}", i).into_bytes()).collect();
    let hashes: Vec<u64> = keys.iter().map(|k| bloom_hash(k)).collect();
    for bits in [1u32, 5, 10, 40, 1000] {
        let filter = build_filter(&hashes, bits);
        assert!(keys.iter().all(|k| filter_may_contain(&filter, k)));
        assert!(hashes.iter().all(|h| filter_may_contain_hash(&filter, *h)));
    }
    assert!(build_filter(&hashes, 0).is_empty());
    assert!(filter_may_contain(&[], b"anything"));
    let small = build_filter(&vec![], 10);
    assert_eq!(small.len(), 9);
    assert_eq!(small[8], 6);
    assert!(!filter_may_contain(&small, b"anything"));
}

#[test]
fn bloom_filter_keeps_its_false_positive_rate() {
    // Five bits per key are what a target of one in ten asks for.
    let target: f64 = 0.1;
    let bits = (-target.ln() / (2f64.ln() * 2f64.ln())).ceil() as u32;
    assert_eq!(bits, 5);
    let hashes: Vec<u64> = (0..5000).map(|i| bloom_hash(format!("in-{}", i).as_bytes())).collect();
    let filter = build_filter(&hashes, bits);
    let probes = 20000;
    let hits = (0..probes).filter(|i| filter_may_contain(&filter, format!("out-{}", i).as_bytes())).count();
    let rate = hits as f64 / probes as f64;
    assert!(rate <= target + 0.05, "false positive rate {}", rate);
}

#[test]
fn table_filter_passes_over_keys_that_are_not_there() {
    let bytes = build_table(&entries(100), 4096, ChecksumAlg::Crc32c);
    let table = Table::open(3, bytes).unwrap();
    assert!((0..100).all(|i| table.may_contain(format!("key{:05}", i).as_bytes())));
    let misses = (0..1000).filter(|i| !table.may_contain(format!("other{}", i).as_bytes())).count();
    assert!(misses > 900);
}

#[test]
fn records_take_the_bytes_of_their_lengths_key_tail_and_value() {
    let mut b = BlockBuilder::new();
    assert_eq!(b.size(), 0);
    // Two lengths, the key in full, and the value with its tag and length.
    b.add(&fk("k", 9), &put("v"));
    assert_eq!(b.size(), 8 + 9 + 6);
    // The second key shares its first byte with the first.
    b.add(&fk("kk", 9), &HummockValue::Delete);
    assert_eq!(b.size(), 23 + 8 + 9 + 1);
    // One restart point, the number of restart points, and the checksum.
    let bytes = b.finish(ChecksumAlg::Crc32c);
    assert_eq!(bytes.len(), 41 + 4 + 12);
}

#[test]
fn table_is_full_once_its_closed_blocks_reach_the_capacity() {
    let mut b = TableBuilder::new(TableBuilderOptions {
        table_capacity: 64,
        block_size: 32,
        bloom_bits_per_key: 10,
        checksum_algo: ChecksumAlg::Crc32c,
    });
    assert_eq!(b.estimated_size(), 0);
    assert!(b.has_room());
    b.add(&fk("c", 1), &put("3"));
    // The block stays open: its records count as they are.
    assert_eq!(b.estimated_size(), 8 + 9 + 6);
    assert!(!b.reached_capacity());
    b.add(&fk("d", 1), &put("0123456789"));
    // The records have outgrown the block size: the block is closed, with its end.
    assert_eq!(b.estimated_size(), 23 + 8 + 9 + 15 + 4 + 12);
    assert!(b.reached_capacity());
    assert!(b.has_room());
}
