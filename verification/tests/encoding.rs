use hummock::checksum::{checksum, checksum32, verify_checksum, ChecksumAlg};
use hummock::coding::{compare_bytes, KeyOrder};
use hummock::key::{compare_full_keys, epoch_of, full_key_less, key_with_epoch, split_full_key, user_key};
use hummock::value::HummockValue;
use hummock::HummockError;

#[test]
fn full_key_layout_is_user_key_then_inverted_epoch() {
    let fk = key_with_epoch(b"aa".to_vec(), 1);
    assert_eq!(fk, vec![b'a', b'a', 0xff, 0xff, 0xff, 0xff, 0xff, 0xff, 0xff, 0xfe]);
    assert_eq!(user_key(&fk), b"aa");
    assert_eq!(epoch_of(&fk), 1);
    let fk0 = key_with_epoch(b"k".to_vec(), u64::MAX);
    assert_eq!(&fk0[1..], &[0u8; 8]);
    assert_eq!(epoch_of(&fk0), u64::MAX);
}

#[test]
fn newer_epoch_sorts_first_for_one_user_key() {
    let newer = key_with_epoch(b"aa".to_vec(), 7);
    let older = key_with_epoch(b"aa".to_vec(), 3);
    assert_eq!(compare_full_keys(&newer, &older), KeyOrder::Less);
    assert_eq!(compare_full_keys(&older, &newer), KeyOrder::Greater);
    assert_eq!(compare_full_keys(&older, &older), KeyOrder::Equal);
    assert!(full_key_less(&newer, &older));
    assert!(!full_key_less(&older, &newer));
}

#[test]
fn user_key_order_comes_before_epoch_order() {
    let a = key_with_epoch(b"a".to_vec(), 0);
    let ab = key_with_epoch(b"ab".to_vec(), 900);
    let b = key_with_epoch(b"b".to_vec(), 5);
    assert_eq!(compare_full_keys(&a, &ab), KeyOrder::Less);
    assert_eq!(compare_full_keys(&ab, &b), KeyOrder::Less);
    assert_eq!(compare_full_keys(&b, &a), KeyOrder::Greater);
}

#[test]
fn split_refuses_keys_without_a_user_key() {
    assert_eq!(split_full_key(&[0u8; 8]), Err(HummockError::InvalidKey));
    assert_eq!(split_full_key(&[]), Err(HummockError::InvalidKey));
    let fk = key_with_epoch(b"x".to_vec(), 42);
    let (uk, e) = split_full_key(&fk).unwrap();
    assert_eq!(uk, b"x");
    assert_eq!(e, 42);
}

#[test]
fn byte_strings_compare_lexicographically() {
    assert_eq!(compare_bytes(b"", b""), KeyOrder::Equal);
    assert_eq!(compare_bytes(b"", b"a"), KeyOrder::Less);
    assert_eq!(compare_bytes(b"ab", b"a"), KeyOrder::Greater);
    assert_eq!(compare_bytes(b"ab", b"b"), KeyOrder::Less);
    assert_eq!(compare_bytes(b"ab", b"ab"), KeyOrder::Equal);
}

#[test]
fn value_round_trips_through_its_bytes() {
    let mut buf = Vec::new();
    HummockValue::Put(b"111".to_vec()).encode(&mut buf);
    assert_eq!(buf, vec![0, 3, 0, 0, 0, b'1', b'1', b'1']);
    let v = HummockValue::decode(&buf).unwrap();
    assert_eq!(v.into_put_value(), Some(b"111".to_vec()));

    let mut buf = Vec::new();
    HummockValue::Delete.encode(&mut buf);
    assert_eq!(buf, vec![1]);
    assert!(HummockValue::decode(&buf).unwrap().is_delete());
}

#[test]
fn value_decoding_refuses_malformed_bytes() {
    assert!(matches!(HummockValue::decode(&[]), Err(HummockError::InvalidSST)));
    assert!(matches!(HummockValue::decode(&[2]), Err(HummockError::InvalidSST)));
    assert!(matches!(HummockValue::decode(&[0, 3, 0, 0, 0, b'1']), Err(HummockError::InvalidSST)));
    assert!(matches!(HummockValue::decode(&[1, 0]), Err(HummockError::InvalidSST)));
}

#[test]
fn checksums_match_the_published_check_values() {
    assert_eq!(checksum(ChecksumAlg::Crc32c, b"123456789"), 0xE306_9283);
    assert_eq!(checksum(ChecksumAlg::XxHash64, b""), 0xEF46_DB37_51D8_E999);
    assert_eq!(checksum32(ChecksumAlg::XxHash64, b""), 0x51D8_E999);
    assert_ne!(checksum(ChecksumAlg::XxHash64, b"a"), checksum(ChecksumAlg::XxHash64, b"b"));
}

#[test]
fn verify_checksum_reports_a_mismatch() {
    let sum = checksum(ChecksumAlg::Crc32c, b"hummock");
    assert_eq!(verify_checksum(ChecksumAlg::Crc32c, b"hummock", sum), Ok(()));
    assert_eq!(
        verify_checksum(ChecksumAlg::Crc32c, b"hummocK", sum),
        Err(HummockError::ChecksumMismatch)
    );
}
