use simple_lsm_db::bloom_filter::BloomFilter;
use simple_lsm_db::error::ErrorKind;

#[test]
fn test_bloom_filter_insert_and_check() {
    let mut filter = BloomFilter::new(100, 3);

    filter.insert(b"key1");
    filter.insert(b"key2");

    assert!(filter.might_contain(b"key1"));
    assert!(filter.might_contain(b"key2"));
    assert!(!filter.might_contain(b"key3")); // Should not be present
}

#[test]
fn test_bloom_filter_false_positive() {
    let mut filter = BloomFilter::new(10, 3); // Very small filter

    filter.insert(b"key1");

    // With a small filter, we might get false positives
    // This is expected behavior
    assert!(filter.might_contain(b"key1"));
}

#[test]
fn test_bloom_filter_serialize_deserialize() {
    let mut filter = BloomFilter::new(100, 3);
    filter.insert(b"test_key");

    let serialized = filter.serialize();
    let deserialized = BloomFilter::deserialize(&serialized).unwrap();

    assert!(deserialized.might_contain(b"test_key"));
    assert_eq!(deserialized.num_bits(), filter.num_bits());
    assert_eq!(deserialized.num_hashes(), filter.num_hashes());
}

#[test]
fn bloom_layout_on_disk() {
    let filter = BloomFilter::new(20, 3);
    let bytes = filter.serialize();
    let mut expected = 20u64.to_le_bytes().to_vec();
    expected.extend_from_slice(&3u64.to_le_bytes());
    expected.extend_from_slice(&[0, 0, 0]);
    assert_eq!(bytes, expected);
}

#[test]
fn bloom_sets_the_fnv_bits() {
    // FNV-1a of "a" seeded with 0 is 0xAF63DC4C8601EC8C; modulo 64 that is bit 12.
    let mut filter = BloomFilter::new(64, 1);
    filter.insert(b"a");
    let bytes = filter.serialize();
    assert_eq!(&bytes[16..], &[0, 0x10, 0, 0, 0, 0, 0, 0]);
}

#[test]
fn bloom_short_header_is_invalid_data() {
    let err = BloomFilter::deserialize(&[1, 2, 3]).err().unwrap();
    assert_eq!(err.kind(), ErrorKind::InvalidData);
}

#[test]
fn bloom_default_sizing() {
    let filter = BloomFilter::default_for_keys(7);
    assert_eq!(filter.num_bits(), 70);
    assert_eq!(filter.num_hashes(), 3);
    let filter = BloomFilter::with_capacity(4, 8, 2);
    assert_eq!(filter.num_bits(), 32);
    assert_eq!(filter.num_hashes(), 2);
}

#[test]
fn bloom_keeps_earlier_keys() {
    let mut filter = BloomFilter::new(50, 4);
    let keys: Vec<Vec<u8>> = (0..20).map(|i| format!("key_{}", i).into_bytes()).collect();
    for key in &keys {
        filter.insert(key);
    }
    for key in &keys {
        assert!(filter.might_contain(key));
    }
    let restored = BloomFilter::deserialize(&filter.serialize()).unwrap();
    for key in &keys {
        assert!(restored.might_contain(key));
    }
}

#[test]
fn bloom_accepts_any_bit_array_length() {
    let mut data = 8u64.to_le_bytes().to_vec();
    data.extend_from_slice(&3u64.to_le_bytes());
    data.extend_from_slice(&[0, 0]);
    let filter = BloomFilter::deserialize(&data).unwrap();
    assert_eq!(filter.num_bits(), 8);
    assert_eq!(filter.num_hashes(), 3);
    assert_eq!(filter.serialize(), data);

    // A bit array shorter than its size rules nothing out, and inserting into it does not panic.
    let mut short = 64u64.to_le_bytes().to_vec();
    short.extend_from_slice(&1u64.to_le_bytes());
    let mut filter = BloomFilter::deserialize(&short).unwrap();
    assert!(filter.might_contain(b"anything"));
    filter.insert(b"a");
    assert_eq!(filter.serialize(), short);
}

#[test]
fn bloom_header_only_is_enough() {
    let data = [0u8; 16];
    let filter = BloomFilter::deserialize(&data).unwrap();
    assert_eq!(filter.num_bits(), 0);
    assert!(filter.might_contain(b"k"));
    assert!(BloomFilter::deserialize(&data[..15]).is_err());
}
