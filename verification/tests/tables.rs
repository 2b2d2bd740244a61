use justdb::bloom::{bound_bits, BloomSizing};
use justdb::clock::{current_seconds, current_timestamp, seconds_of, timestamp_of};
use justdb::config::CompressionType;
use justdb::le::{get_le, put_le};
use justdb::levels::LevelMap;
use justdb::order::{less, same_bytes};
use justdb::sorted::EntryTable;
use justdb::sstable::{SSTableReader, SSTableWriter};
use justdb::Entry;
use std::path::PathBuf;
use std::time::Duration;

fn sizing(expected: usize) -> BloomSizing {
    if expected == 0 {
        return BloomSizing { bits: 0, hashes: 0 };
    }
    let bits = (-(expected as f64) * 0.01_f64.ln() / (2.0_f64.ln().powi(2))).ceil() as usize;
    let bounded = bound_bits(bits);
    let hashes = (bounded as f64 / expected as f64 * 2.0_f64.ln()).ceil() as usize;
    BloomSizing { bits, hashes }
}

fn entry(key: &str, sequence: u64) -> Entry {
    Entry::new(key.as_bytes().to_vec(), Some(vec![7]), 1, sequence)
}

fn reader(path: &str, created_at: u64, entries: &[Entry]) -> SSTableReader {
    let path = PathBuf::from(path);
    let mut writer = SSTableWriter::new_at(
        path.clone(),
        entries.len(),
        CompressionType::Uncompressed,
        0,
        sizing(entries.len()),
        created_at,
    );
    for e in entries {
        writer.add(e).unwrap();
    }
    let bytes = match writer.finish() {
        Ok(image) => image.bytes,
        Err(e) => panic!("{e:?}"),
    };
    match SSTableReader::open(path, bytes, true) {
        Ok(reader) => reader,
        Err(e) => panic!("{e:?}"),
    }
}

#[test]
fn numbers_are_stored_low_byte_first() {
    let mut out = vec![9];
    put_le(&mut out, 0x0102_0304, 4);
    assert_eq!(out, [9, 4, 3, 2, 1]);
    assert_eq!(get_le(&out, 1, 4), 0x0102_0304);
    assert_eq!(get_le(&out, 1, 0), 0);
    put_le(&mut out, 0x1_0002, 2);
    assert_eq!(out[5..], [2, 0]);
    out.clear();
    put_le(&mut out, u64::MAX, 8);
    assert_eq!(get_le(&out, 0, 8), u64::MAX);
}

#[test]
fn keys_are_ordered_as_in_a_dictionary() {
    let keys: [&[u8]; 6] = [b"", b"\x00", b"a", b"a\x00", b"ab", b"\xff"];
    for (i, a) in keys.iter().enumerate() {
        for (j, b) in keys.iter().enumerate() {
            assert_eq!(less(a, b), i < j);
            assert_eq!(same_bytes(a, b), i == j);
        }
    }
}

#[test]
fn a_table_of_entries_is_sorted() {
    let mut table = EntryTable::new();
    for (key, sequence) in [("c", 1), ("a", 2), ("b", 3), ("a", 4)] {
        table.insert(entry(key, sequence));
    }
    assert_eq!(table.len(), 3);
    let listed: Vec<u64> = table.entries().iter().map(|e| e.sequence).collect();
    assert_eq!(listed, [4, 3, 1]);
    assert_eq!(table.get(b"b").map(|e| e.sequence), Some(3));
    assert_eq!(table.get(b"d"), None);
    assert_eq!(table.index_of(b"c"), Some(2));
    assert_eq!(table.range(b"a\x00", b"c"), (1, 2));
    assert_eq!(table.range_from(b"b"), 1);
    assert_eq!(table.copy_range(1, 3).len(), 2);
}

#[test]
fn the_highest_sequence_number_stays() {
    let mut table = EntryTable::new();
    for (sequence, timestamp) in [(2, 10), (3, 20), (3, 30), (1, 40)] {
        table.absorb(Entry::new(b"k".to_vec(), None, timestamp, sequence));
    }
    let entries = table.into_entries();
    assert_eq!(entries, [Entry::new(b"k".to_vec(), None, 20, 3)]);
}

#[test]
fn tables_of_a_level_are_placed_by_their_age() {
    let mut levels = LevelMap::new();
    for (path, created_at) in [("b", 20), ("a", 10), ("d", 30), ("c", 20)] {
        levels.add_by_time(1, reader(path, created_at, &[]));
    }
    levels.add(1, reader("e", 5, &[entry("k", 1)]));
    assert_eq!(levels.table_count(0), None);
    assert_eq!(levels.table_count(1), Some(5));
    assert_eq!(levels.levels(), [1]);
    let ages: Vec<u64> = (0..5).map(|i| levels.meta(1, i).created_at).collect();
    assert_eq!(ages, [10, 20, 20, 30, 5]);
    assert_eq!(levels.get_in(1, 4, b"k").unwrap(), Some(entry("k", 1)));
    assert_eq!(levels.range_in(1, 4, b"a", b"z").unwrap(), [entry("k", 1)]);
    let mut into = EntryTable::new();
    levels.absorb_in(1, 4, &mut into).unwrap();
    assert_eq!(into.len(), 1);
    let paths: Vec<PathBuf> = levels
        .replace(1, Vec::new())
        .iter()
        .map(|r| r.path().clone())
        .collect();
    let expected: Vec<PathBuf> = ["a", "b", "c", "d", "e"].iter().map(PathBuf::from).collect();
    assert_eq!(paths, expected);
    assert_eq!(levels.table_count(1), Some(0));
}

#[test]
fn the_next_number_is_behind_all() {
    let mut table = reader("x", 1, &[entry("a", 5), entry("b", 9), entry("c", 2)]);
    assert_eq!(table.next_number(), 10);
    assert_eq!(reader("x", 1, &[]).next_number(), 0);
    assert_eq!(reader("x", 1, &[entry("a", u64::MAX)]).next_number(), u64::MAX);
    assert_eq!(table.get(b"b").unwrap(), Some(entry("b", 9)));
}

#[test]
fn times_are_in_whole_units() {
    let span = Some(Duration::new(3, 999_999_999));
    assert_eq!(seconds_of(span), 3);
    assert_eq!(timestamp_of(span), 3_999_999);
    assert_eq!(seconds_of(None), 0);
    assert_eq!(timestamp_of(None), 0);
    assert_eq!(
        timestamp_of(Some(Duration::from_secs(u64::MAX))),
        (u64::MAX as u128 * 1_000_000) as u64
    );
    let before = current_seconds();
    let now = current_timestamp();
    assert!(before > 1_000_000_000);
    assert!(now / 1_000_000 >= before);
}
