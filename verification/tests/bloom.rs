use justdb::bloom::{bound_bits, combine_hashes, first_word, BloomFilter, BloomSizing};
use justdb::StorageError;
use std::hash::Hasher;

fn sizing(expected: usize, rate: f64) -> BloomSizing {
    let bits = (-(expected as f64) * rate.ln() / (2.0_f64.ln().powi(2))).ceil() as usize;
    let bounded = bound_bits(bits);
    let hashes = ((bounded as f64 / expected as f64) * 2.0_f64.ln()).ceil() as usize;
    BloomSizing { bits, hashes }
}

fn filter(expected: usize) -> BloomFilter {
    BloomFilter::new(expected, sizing(expected, 0.01))
}

#[test]
fn sizes_follow_the_expected_elements() {
    let f = filter(100);
    assert_eq!(f.bit_count(), 959);
    assert_eq!(f.hash_count(), 7);
    assert_eq!(f.memory_usage().byte_count, 120);
    let f = filter(1);
    assert_eq!(f.bit_count(), 64);
    assert_eq!(f.hash_count(), 10);
    let f = BloomFilter::new(0, BloomSizing { bits: 0, hashes: 0 });
    assert_eq!(f.bit_count(), 8);
    assert_eq!(f.hash_count(), 1);
    assert_eq!(f.memory_usage().byte_count, 1);
}

#[test]
fn there_are_no_false_negatives() {
    let mut f = filter(100);
    assert!(f.is_empty());
    for i in 0..100u32 {
        f.add(&i.to_le_bytes());
    }
    assert_eq!(f.element_count(), 100);
    assert!(!f.is_empty());
    for i in 0..100u32 {
        assert!(f.might_contain(&i.to_le_bytes()));
    }
}

#[test]
fn most_other_elements_are_not_taken_for_members() {
    let mut f = filter(100);
    for i in 0..100u32 {
        f.add(&i.to_le_bytes());
    }
    let taken = (1000..2000u32)
        .filter(|i| f.might_contain(&i.to_le_bytes()))
        .count();
    assert!(taken < 100, "{taken}");
    assert!(f.memory_usage().set_bits > 300);
    assert!(f.memory_usage().set_bits <= 700);
}

#[test]
fn the_first_hash_is_that_of_blake3() {
    let digest = blake3::hash(b"abc");
    let bytes = digest.as_bytes();
    let mut expected = [0u8; 8];
    expected.copy_from_slice(&bytes[..8]);
    assert_eq!(first_word(bytes), u64::from_le_bytes(expected));
    assert_eq!(combine_hashes(5, 3, 0), 5);
    assert_eq!(combine_hashes(5, 3, 2), 11);
    assert_eq!(combine_hashes(u64::MAX, 1, 1), 0);
    assert_eq!(combine_hashes(0, u64::MAX, 2), u64::MAX - 1);
}

#[test]
fn added_hashes_are_found() {
    let mut by_hashes = filter(10);
    let first = first_word(blake3::hash(b"abc").as_bytes());
    let mut hasher = std::collections::hash_map::DefaultHasher::new();
    hasher.write(&3u64.to_le_bytes());
    hasher.write(b"abc");
    by_hashes.add_hashes(first, hasher.finish());
    assert!(by_hashes.might_contain(b"abc"));
    assert!(by_hashes.might_contain_hashes(first, hasher.finish()));
    let mut by_element = filter(10);
    by_element.add(b"abc");
    assert_eq!(by_hashes.to_bytes(), by_element.to_bytes());
}

#[test]
fn a_compact_filter_is_read_back() {
    let mut f = BloomFilter::new(0, BloomSizing { bits: 0, hashes: 0 });
    f.add(b"one");
    let bytes = f.to_bytes();
    assert_eq!(bytes.len(), 13);
    assert_eq!(bytes[..12], [8, 0, 0, 0, 1, 0, 0, 0, 1, 0, 0, 0]);
    let back = BloomFilter::from_bytes(&bytes).unwrap();
    assert_eq!(back.to_bytes(), bytes);
    assert!(back.might_contain(b"one"));

    let mut f = filter(100);
    for i in 0..100u32 {
        f.add(&i.to_le_bytes());
    }
    let bytes = f.to_bytes();
    assert_eq!(bytes.len(), 132);
    let back = BloomFilter::from_bytes(&bytes).unwrap();
    assert_eq!(back.to_bytes(), bytes);
    assert_eq!(back.bit_count(), 959);
    assert!((0..100u32).all(|i| back.might_contain(&i.to_le_bytes())));
    assert!(back.memory_usage().set_bits <= 959);
}

#[test]
fn bytes_of_a_filter_are_written_back() {
    let mut bytes = vec![21, 0, 0, 0, 255, 1, 2, 3, 9, 0, 128, 0];
    bytes.extend_from_slice(&[0xff, 0xa5, 0xff]);
    let filter = BloomFilter::from_bytes(&bytes).unwrap();
    assert_eq!(filter.bit_count(), 21);
    assert_eq!(filter.to_bytes(), bytes);
}

#[test]
fn a_filter_of_another_length_is_refused() {
    let mut bytes = filter(100).to_bytes();
    bytes.push(0);
    match BloomFilter::from_bytes(&bytes) {
        Err(StorageError::Corruption { message }) => {
            assert_eq!(message, "invalid bloom filter data length")
        }
        other => panic!("{other:?}"),
    }
    match BloomFilter::from_bytes(&[0; 11]) {
        Err(StorageError::Corruption { message }) => {
            assert_eq!(message, "bloom filter data too short")
        }
        other => panic!("{other:?}"),
    }
}

#[test]
fn a_filter_without_bits_takes_everything_for_a_member() {
    let mut bytes = vec![0u8; 12];
    bytes[4] = 3;
    let mut f = BloomFilter::from_bytes(&bytes).unwrap();
    assert!(f.might_contain(b"x"));
    f.add(b"y");
    assert_eq!(f.element_count(), 1);
}

#[test]
fn merged_filters_have_the_members_of_both() {
    let mut a = filter(100);
    let mut b = filter(100);
    a.add(b"a");
    b.add(b"b");
    let copy = a.clone();
    a.merge(&b).unwrap();
    assert!(a.might_contain(b"a") && a.might_contain(b"b"));
    assert_eq!(a.element_count(), 2);
    assert_eq!(copy.element_count(), 1);
    match a.merge(&filter(50)) {
        Err(StorageError::InvalidOperation { message }) => {
            assert_eq!(message, "cannot merge bloom filters with different config")
        }
        other => panic!("{other:?}"),
    }
}

#[test]
fn a_cleared_filter_is_empty() {
    let mut f = filter(10);
    f.add(b"a");
    f.clear();
    assert!(f.is_empty());
    assert_eq!(f.memory_usage().set_bits, 0);
    assert!(!f.might_contain(b"a"));
}
