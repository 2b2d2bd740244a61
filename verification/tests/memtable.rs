use justdb::memtable::MemTable;
use justdb::{Entry, StorageError};

fn keys(pairs: &[(Vec<u8>, Entry)]) -> Vec<&[u8]> {
    pairs.iter().map(|p| p.0.as_slice()).collect()
}

#[test]
fn what_was_put_is_found() {
    let mut m = MemTable::new(1000);
    m.put(b"b".to_vec(), b"2".to_vec()).unwrap();
    m.put(b"a".to_vec(), b"1".to_vec()).unwrap();
    m.delete(b"c".to_vec()).unwrap();
    let e = m.get(b"a").unwrap();
    assert_eq!(e.value, Some(b"1".to_vec()));
    assert_eq!(e.sequence, 1);
    assert!(e.timestamp > 1_600_000_000_000_000);
    assert!(!e.is_deleted());
    assert!(m.get(b"c").unwrap().is_deleted());
    assert!(m.get(b"d").is_none());
    assert!(m.contains_key(b"c") && !m.contains_key(b"d"));
    assert_eq!(m.count(), 3);
    assert_eq!(m.current_sequence(), 3);
}

#[test]
fn entries_come_in_the_order_of_their_keys() {
    let mut m = MemTable::new(1000);
    for k in ["d", "b", "a", "c", "b"] {
        m.put(k.as_bytes().to_vec(), b"v".to_vec()).unwrap();
    }
    assert_eq!(keys(&m.entries()), [b"a", b"b", b"c", b"d"]);
    assert_eq!(keys(&m.range_iter(b"b", b"d")), [b"b", b"c"]);
    assert!(m.range_iter(b"b", b"b").is_empty());
    assert_eq!(keys(&m.scan_from(b"c")), [b"c", b"d"]);
    assert_eq!(keys(&m.scan_from(b"bb")), [b"c", b"d"]);
    let mut iter = m.iter();
    let mut seen = Vec::new();
    while let Some((key, entry)) = iter.next() {
        assert_eq!(key, entry.key);
        seen.push(key);
    }
    assert_eq!(seen, [b"a", b"b", b"c", b"d"]);
    assert!(iter.next().is_none());
}

#[test]
fn sizes_are_added_up() {
    let mut m = MemTable::new(40);
    m.record(b"ab".to_vec(), Some(b"12345".to_vec()), 1).unwrap();
    assert_eq!(m.size(), 23);
    assert!(!m.should_flush());
    m.record(b"ab".to_vec(), Some(b"1234567".to_vec()), 2).unwrap();
    assert_eq!(m.size(), 25);
    m.record(b"ab".to_vec(), Some(b"1".to_vec()), 3).unwrap();
    assert_eq!(m.size(), 19);
    m.record(b"ab".to_vec(), None, 4).unwrap();
    assert_eq!(m.size(), 18);
    m.record(b"x".to_vec(), None, 5).unwrap();
    assert_eq!(m.size(), 35);
    assert!(!m.should_flush());
    m.record(b"y".to_vec(), Some(vec![0; 10]), 6).unwrap();
    m.record(b"y".to_vec(), Some(vec![0; 4]), 7).unwrap();
    assert_eq!(m.size(), 56);
    assert!(m.should_flush());
    assert_eq!(m.count(), 3);
}

#[test]
fn an_immutable_table_takes_no_writes() {
    let mut m = MemTable::with_sequence(10, 5);
    m.put(b"a".to_vec(), b"1".to_vec()).unwrap();
    assert_eq!(m.get(b"a").unwrap().sequence, 5);
    m.make_immutable();
    assert!(m.is_immutable());
    assert!(matches!(
        m.put(b"b".to_vec(), b"1".to_vec()),
        Err(StorageError::ReadOnly)
    ));
    assert!(matches!(m.delete(b"a".to_vec()), Err(StorageError::ReadOnly)));
    assert_eq!(m.count(), 1);
    assert_eq!(m.current_sequence(), 6);
}

#[test]
fn figures_tell_the_smallest_and_the_largest() {
    let mut m = MemTable::with_sequence_at(10, 0, 77);
    let empty = m.memory_usage();
    assert_eq!((empty.entry_count, empty.min_key_size, empty.max_value_size), (0, 0, 0));
    m.record(b"abc".to_vec(), Some(b"1234".to_vec()), 1).unwrap();
    m.record(b"a".to_vec(), Some(b"12".to_vec()), 1).unwrap();
    m.record(b"ab".to_vec(), None, 1).unwrap();
    let stats = m.memory_usage();
    assert_eq!(stats.entry_count, 3);
    assert_eq!((stats.min_key_size, stats.max_key_size), (1, 3));
    assert_eq!((stats.min_value_size, stats.max_value_size), (0, 4));
    assert_eq!(stats.approximate_size, 3 * 16 + 6 + 6);
    assert_eq!(stats.creation_time, 77);
    assert_eq!(m.created_at(), 77);
    assert!(!stats.is_immutable);
}

#[test]
fn a_clone_is_independent() {
    let mut m = MemTable::new(10);
    m.put(b"a".to_vec(), b"1".to_vec()).unwrap();
    let mut copy = m.clone();
    copy.put(b"b".to_vec(), b"2".to_vec()).unwrap();
    assert_eq!(m.count(), 1);
    assert_eq!(copy.count(), 2);
    assert_eq!(copy.get(b"a"), m.get(b"a"));
}

#[test]
fn entries_have_sizes() {
    let e = Entry::new(b"abc".to_vec(), Some(b"de".to_vec()), 1, 2);
    assert_eq!(e.size(), 21);
    assert_eq!(Entry::new(b"abc".to_vec(), None, 1, 2).size(), 19);
    assert_eq!(e.clone(), e);
    assert_eq!(justdb::MAX_KEY_SIZE, 1024);
    assert_eq!(justdb::MAX_VALUE_SIZE, 1024 * 1024);
    assert_eq!(justdb::VERSION, "0.1.0");
}
