use justdb::bloom::{bound_bits, BloomSizing};
use justdb::config::CompressionType;
use justdb::memtable::MemTable;
use justdb::names::{has_table_extension, parse_level_from_filename, table_file_name};
use justdb::sstable::{SSTableReader, SSTableWriter};
use justdb::storage::{SSTableFile, WriteStep};
use justdb::{Config, Entry, StorageEngine, StorageError};
use std::path::PathBuf;

fn engine_with(config: Config, files: Vec<SSTableFile>) -> StorageEngine {
    match StorageEngine::open(config, files) {
        Ok((engine, failures)) => {
            assert!(failures.is_empty());
            engine
        }
        Err(e) => panic!("{e:?}"),
    }
}

fn create_test_engine() -> StorageEngine {
    let config = Config::new(1)
        .with_memtable_size(1024)
        .with_compaction(false);
    engine_with(config, Vec::new())
}

fn put(engine: &mut StorageEngine, key: &[u8], value: &[u8]) {
    match engine.put(key, value) {
        Ok(WriteStep::Done) => {}
        Ok(WriteStep::Flush(_)) => panic!("flush"),
        Err(e) => panic!("{e:?}"),
    }
}

fn delete(engine: &mut StorageEngine, key: &[u8]) {
    match engine.delete(key) {
        Ok(WriteStep::Done) => {}
        Ok(WriteStep::Flush(_)) => panic!("flush"),
        Err(e) => panic!("{e:?}"),
    }
}

fn image(entries: &[Entry], created_at: u64) -> Vec<u8> {
    let mut writer = SSTableWriter::new_at(
        PathBuf::from("x"),
        entries.len(),
        CompressionType::Uncompressed,
        0,
        sizing(entries.len()),
        created_at,
    );
    for entry in entries {
        writer.add(entry).unwrap();
    }
    match writer.finish() {
        Ok(image) => image.bytes,
        Err(e) => panic!("{e:?}"),
    }
}

fn reader(entries: &[Entry]) -> SSTableReader {
    match SSTableReader::open(PathBuf::from("x"), image(entries, 0), true) {
        Ok(reader) => reader,
        Err(e) => panic!("{e:?}"),
    }
}

fn file(name: &str, bytes: Vec<u8>) -> SSTableFile {
    SSTableFile {
        path: PathBuf::from(name),
        name: name.to_string(),
        bytes,
    }
}

fn sizing(expected: usize) -> BloomSizing {
    if expected == 0 {
        return BloomSizing { bits: 0, hashes: 0 };
    }
    let bits = (-(expected as f64) * 0.01_f64.ln() / (2.0_f64.ln().powi(2))).ceil() as usize;
    let bounded = bound_bits(bits);
    let hashes = (bounded as f64 / expected as f64 * 2.0_f64.ln()).ceil() as usize;
    BloomSizing { bits, hashes }
}

fn entry(key: &str, value: Option<&str>, sequence: u64) -> Entry {
    Entry::new(
        key.as_bytes().to_vec(),
        value.map(|v| v.as_bytes().to_vec()),
        0,
        sequence,
    )
}

#[test]
fn test_basic_operations() {
    let mut engine = create_test_engine();

    put(&mut engine, b"key1", b"value1");
    put(&mut engine, b"key2", b"value2");

    assert_eq!(engine.get(b"key1").unwrap(), Some(b"value1".to_vec()));
    assert_eq!(engine.get(b"key2").unwrap(), Some(b"value2".to_vec()));
    assert_eq!(engine.get(b"notexist").unwrap(), None);

    put(&mut engine, b"key1", b"updated_value1");
    assert_eq!(
        engine.get(b"key1").unwrap(),
        Some(b"updated_value1".to_vec())
    );

    delete(&mut engine, b"key1");
    assert_eq!(engine.get(b"key1").unwrap(), None);
    assert_eq!(engine.get(b"key2").unwrap(), Some(b"value2".to_vec()));
}

#[test]
fn sizes_are_limited() {
    let mut engine = create_test_engine();
    match engine.put(&[0; 1025], b"v") {
        Err(StorageError::InvalidKeySize { size, max_size }) => {
            assert_eq!((size, max_size), (1025, 1024))
        }
        _ => panic!("accepted"),
    }
    match engine.delete(&[0; 1025]) {
        Err(StorageError::InvalidKeySize { size, max_size }) => {
            assert_eq!((size, max_size), (1025, 1024))
        }
        _ => panic!("accepted"),
    }
    match engine.put(b"k", &vec![0; 1024 * 1024 + 1]) {
        Err(StorageError::InvalidValueSize { size, max_size }) => {
            assert_eq!((size, max_size), (1024 * 1024 + 1, 1024 * 1024))
        }
        _ => panic!("accepted"),
    }
    put(&mut engine, &[0; 1024], &vec![0; 1024 * 1024]);
}

#[test]
fn a_wrong_config_is_refused() {
    match StorageEngine::open(Config::new(0), Vec::new()) {
        Err(StorageError::Config { message }) => {
            assert_eq!(message, "compaction_threads must be greater than 0")
        }
        _ => panic!("accepted"),
    }
}

#[test]
fn a_closed_engine_refuses_everything() {
    let mut engine = create_test_engine();
    put(&mut engine, b"a", b"1");
    assert!(!engine.is_closed());
    let rest = engine.close();
    assert_eq!(rest.len(), 1);
    assert!(rest[0].is_immutable());
    assert_eq!(rest[0].get(b"a").unwrap().value, Some(b"1".to_vec()));
    assert!(engine.is_closed());
    assert!(engine.close().is_empty());
    assert!(matches!(engine.get(b"a"), Err(StorageError::Closed)));
    assert!(matches!(engine.put(b"a", b"1"), Err(StorageError::Closed)));
    assert!(matches!(engine.delete(b"a"), Err(StorageError::Closed)));
    assert!(matches!(engine.scan(b"a", b"b"), Err(StorageError::Closed)));
    assert!(matches!(engine.scan(b"b", b"a"), Err(StorageError::Closed)));
    assert!(engine.stats().is_closed);
    assert!(create_test_engine().close().is_empty());
}

#[test]
fn full_memtables_wait_and_are_handed_out() {
    let mut engine = create_test_engine();
    let value = [7u8; 1100];
    for key in [b"a", b"b", b"c"] {
        put(&mut engine, key, &value);
    }
    assert_eq!(engine.stats().immutable_memtable_count, 2);
    assert_eq!(engine.stats().seqence_number, 3);
    let oldest: MemTable = match engine.put(b"d", &value) {
        Ok(WriteStep::Flush(m)) => m,
        _ => panic!("no flush"),
    };
    assert!(oldest.is_immutable());
    assert_eq!(oldest.get(b"a").unwrap().value, Some(value.to_vec()));
    assert_eq!(engine.get(b"a").unwrap(), None);
    assert_eq!(engine.get(b"b").unwrap(), Some(value.to_vec()));
    assert_eq!(engine.get(b"d").unwrap(), None);

    let job = engine.flush_job(&oldest, 17).unwrap();
    assert_eq!(job.name, "L0_0000000017_1.sst");
    assert_eq!(job.entries.len(), 1);
    engine.install(0, reader(&job.entries));
    engine.resume_put(b"d", &value);
    for key in [b"a", b"b", b"c", b"d"] {
        assert_eq!(engine.get(key).unwrap(), Some(value.to_vec()));
    }
    assert_eq!(engine.stats().sstable_stats[&0].table_count, 1);
    assert_eq!(engine.stats().sstable_stats[&0].total_entries, 1);
    assert_eq!(engine.close().len(), 3);
}

#[test]
fn a_deletion_can_wait_for_a_flush() {
    let mut engine = create_test_engine();
    let value = [7u8; 1100];
    for key in [b"a", b"b", b"c"] {
        put(&mut engine, key, &value);
    }
    assert!(matches!(engine.delete(b"c"), Ok(WriteStep::Flush(_))));
    engine.resume_delete(b"c");
    assert_eq!(engine.get(b"c").unwrap(), None);
    assert_eq!(engine.get(b"b").unwrap(), Some(value.to_vec()));
}

#[test]
fn an_empty_memtable_is_not_flushed() {
    let engine = create_test_engine();
    assert!(engine.flush_job(&MemTable::new(1), 1).is_none());
    let builder = engine.table_builder();
    assert_eq!(builder.compression, CompressionType::Lz4);
    assert_eq!(builder.compression_level, 1);
    assert_eq!(engine.config().memtable_size_threshold, 1024);
}

#[test]
fn a_scan_lists_values_in_order() {
    let mut engine = create_test_engine();
    put(&mut engine, b"c", b"3");
    put(&mut engine, b"a", b"1");
    put(&mut engine, b"b", b"");
    put(&mut engine, b"d", b"4");
    put(&mut engine, b"e", b"5");
    delete(&mut engine, b"d");
    assert_eq!(
        engine.scan(b"a", b"e").unwrap(),
        vec![
            (b"a".to_vec(), b"1".to_vec()),
            (b"c".to_vec(), b"3".to_vec())
        ]
    );
    assert!(engine.scan(b"x", b"y").unwrap().is_empty());
    assert!(engine.scan(b"a", b"a").unwrap().is_empty());
}

#[test]
fn a_scan_lists_what_a_search_finds() {
    let mut engine = create_test_engine();
    engine.install(1, reader(&[entry("k", Some("deep"), 0), entry("l", Some("other"), 0)]));
    put(&mut engine, b"x", &[7; 1100]);
    put(&mut engine, b"k", b"memory");
    for (key, value) in engine.scan(b"k", b"m").unwrap() {
        if key == b"k" {
            assert_eq!(engine.get(&key).unwrap(), Some(value));
        } else {
            assert_eq!(value, b"other");
        }
    }
    assert_eq!(engine.scan(b"k", b"m").unwrap().len(), 2);
}

#[test]
fn newer_tables_hide_older_ones() {
    let mut engine = create_test_engine();
    engine.install(1, reader(&[entry("a", Some("level1"), 1), entry("b", Some("level1"), 2)]));
    engine.install(0, reader(&[entry("a", Some("old"), 3)]));
    engine.install(0, reader(&[entry("a", None, 4)]));
    assert_eq!(engine.get(b"a").unwrap(), None);
    assert_eq!(engine.get(b"c").unwrap(), None);
    delete(&mut engine, b"b");
    assert_eq!(engine.get(b"b").unwrap(), None);
}

#[test]
fn lower_levels_are_searched_by_their_keys() {
    let mut engine = create_test_engine();
    engine.install(1, reader(&[entry("a", Some("1"), 1)]));
    engine.install(1, reader(&[entry("b", Some("2"), 1)]));
    engine.install(2, reader(&[entry("c", Some("3"), 1)]));
    assert_eq!(engine.get(b"a").unwrap(), Some(b"1".to_vec()));
    assert_eq!(engine.get(b"b").unwrap(), Some(b"2".to_vec()));
    assert_eq!(engine.get(b"c").unwrap(), Some(b"3".to_vec()));
    assert_eq!(engine.get(b"d").unwrap(), None);
}

#[test]
fn files_are_loaded_by_level_and_age() {
    let config = Config::new(1).with_mmap(false);
    let files = vec![
        file("L0_0000000002_2.sst", image(&[entry("a", Some("young"), 1)], 20)),
        file("L0_0000000001_1.sst", image(&[entry("a", Some("old"), 1)], 10)),
        file("L3_0000000001_1.sst", image(&[entry("z", Some("deep"), 1)], 5)),
        file("notes.txt", vec![1, 2, 3]),
        file("Lx_1_1.sst", vec![]),
        file("L1_broken.sst", vec![1, 2, 3]),
    ];
    let (mut engine, failures) = match StorageEngine::open(config, files) {
        Ok(opened) => opened,
        Err(e) => panic!("{e:?}"),
    };
    assert_eq!(failures.len(), 1);
    assert_eq!(failures[0].path, PathBuf::from("L1_broken.sst"));
    assert!(failures[0].error.is_corrupt());
    assert_eq!(engine.get(b"a").unwrap(), Some(b"young".to_vec()));
    assert_eq!(engine.get(b"z").unwrap(), Some(b"deep".to_vec()));
    let stats = engine.stats();
    assert_eq!(stats.sstable_stats.len(), 2);
    assert_eq!(stats.sstable_stats[&0].table_count, 2);
    assert_eq!(stats.sstable_stats[&0].total_entries, 2);
    assert!(stats.sstable_stats[&3].total_size > 0);
    assert_eq!(stats.seqence_number, 1);
    assert_eq!(stats.memtable_stats.entry_count, 0);
    let copy = stats.clone();
    assert_eq!(copy.sstable_stats[&0], stats.sstable_stats[&0]);
}

#[test]
fn levels_are_merged() {
    let config = Config::new(1);
    let mut engine = engine_with(config, Vec::new());
    assert_eq!(engine.next_compaction(0), None);
    assert!(matches!(engine.merge_sstables(0), Ok(None)));
    engine.install(0, reader(&[entry("a", Some("1"), 1), entry("b", Some("2"), 2)]));
    engine.install(0, reader(&[entry("a", Some("3"), 3)]));
    engine.install(0, reader(&[entry("b", None, 4)]));
    assert_eq!(engine.next_compaction(0), None);
    engine.install(0, reader(&[entry("a", Some("same"), 3)]));
    engine.install(1, reader(&[entry("c", Some("5"), 5), entry("d", None, 6)]));
    assert_eq!(engine.next_compaction(0), Some(0));
    assert_eq!(engine.next_compaction(1), None);
    let merged = engine.merge_sstables(0).unwrap().unwrap();
    assert_eq!(
        merged,
        vec![entry("a", Some("3"), 3), entry("c", Some("5"), 5)]
    );
    let groups = engine.split_for_level(1, merged);
    assert_eq!(groups.len(), 1);
    assert_eq!(engine.next_table_name(1, 99), "L1_0000000099_1.sst");
    assert_eq!(engine.next_table_name(1, 12345678901), "L1_12345678901_2.sst");
    let tables = groups.iter().map(|g| reader(g)).collect();
    let (upper, lower) = engine.finish_compaction(0, tables);
    assert_eq!((upper.len(), lower.len()), (4, 1));
    assert_eq!(upper[0].path(), &PathBuf::from("x"));
    assert_eq!(engine.get(b"a").unwrap(), Some(b"3".to_vec()));
    assert_eq!(engine.get(b"b").unwrap(), None);
    assert_eq!(engine.get(b"c").unwrap(), Some(b"5".to_vec()));
    assert_eq!(engine.get(b"d").unwrap(), None);
    assert_eq!(engine.stats().sstable_stats[&0].table_count, 0);
    assert_eq!(engine.stats().sstable_stats[&1].total_entries, 2);
}

#[test]
fn all_keys_of_a_merged_table_are_found() {
    let mut engine = create_test_engine();
    engine.install(0, reader(&[entry("a", Some("1"), 1), entry("b", Some("2"), 2)]));
    let merged = engine.merge_sstables(0).unwrap().unwrap();
    let groups = engine.split_for_level(1, merged);
    assert_eq!(groups.len(), 1);
    engine.finish_compaction(0, vec![reader(&groups[0])]);
    assert_eq!(engine.get(b"a").unwrap(), Some(b"1".to_vec()));
    assert_eq!(engine.get(b"b").unwrap(), Some(b"2".to_vec()));
}

#[test]
fn all_keys_of_merged_tables_with_several_blocks_are_found() {
    let config = Config {
        l0_sstable_size: 40_000,
        ..Config::new(1)
    };
    let value = "v".repeat(500);
    let entries: Vec<Entry> = (0..200u64)
        .map(|i| entry(&format!("key{i:04}"), Some(&format!("{i}{value}")), i + 1))
        .collect();
    let mut engine = engine_with(config.clone(), Vec::new());
    let (first, second) = entries.split_at(120);
    engine.install(1, reader(first));
    engine.install(0, reader(second));
    let merged = engine.merge_sstables(0).unwrap().unwrap();
    assert_eq!(merged, entries);
    let groups = engine.split_for_level(1, merged);
    assert!(groups.len() > 1);
    let files: Vec<SSTableFile> = groups
        .iter()
        .enumerate()
        .map(|(i, g)| file(&format!("L1_0000000001_{i}.sst"), image(g, i as u64)))
        .collect();
    let tables: Vec<SSTableReader> = groups.iter().map(|g| reader(g)).collect();
    assert!(tables.iter().all(|t| t.block_count() > 1));
    engine.finish_compaction(0, tables);
    let mut again = engine_with(config, files);
    for e in &entries {
        assert_eq!(engine.get(&e.key).unwrap(), e.value);
        assert_eq!(again.get(&e.key).unwrap(), e.value);
    }
    assert_eq!(engine.get(b"key0120x").unwrap(), None);
    assert_eq!(engine.scan(b"key0100", b"key0150").unwrap().len(), 50);
    let merged = engine.merge_sstables(1).unwrap().unwrap();
    assert_eq!(merged, entries);
}

#[test]
fn a_single_level_is_never_merged() {
    let config = Config {
        max_levels: 1,
        l0_compaction_threshold: 1,
        ..Config::new(1)
    };
    let mut engine = engine_with(config, Vec::new());
    engine.install(0, reader(&[entry("a", Some("1"), 1)]));
    engine.install(0, reader(&[entry("b", Some("2"), 2)]));
    assert_eq!(engine.next_compaction(0), None);
    assert_eq!(engine.get(b"a").unwrap(), Some(b"1".to_vec()));
}

#[test]
fn merging_changes_no_value() {
    let whole = Config::new(1).l0_sstable_size;
    for (l0_sstable_size, tables) in [(1, 2), (whole, 1)] {
        let config = Config {
            l0_sstable_size,
            ..Config::new(1)
        };
        let mut engine = engine_with(config, Vec::new());
        engine.install(2, reader(&[entry("c", Some("deep"), 1)]));
        engine.install(1, reader(&[entry("a", Some("old"), 2)]));
        engine.install(1, reader(&[entry("b", Some("kept"), 3)]));
        engine.install(0, reader(&[entry("a", Some("new"), 4), entry("d", None, 5)]));
        let keys = ["a", "b", "c", "d", "e"];
        let before: Vec<Option<Vec<u8>>> = keys
            .iter()
            .map(|k| engine.get(k.as_bytes()).unwrap())
            .collect();
        let pairs = engine.scan(b"a", b"z").unwrap();
        assert_eq!(before[0], Some(b"new".to_vec()));
        assert_eq!(before[1], Some(b"kept".to_vec()));
        assert_eq!(before[2], Some(b"deep".to_vec()));
        let merged = engine.merge_sstables(0).unwrap().unwrap();
        let groups = engine.split_for_level(1, merged);
        assert_eq!(groups.len(), tables);
        engine.finish_compaction(0, groups.iter().map(|g| reader(g)).collect());
        let after: Vec<Option<Vec<u8>>> = keys
            .iter()
            .map(|k| engine.get(k.as_bytes()).unwrap())
            .collect();
        assert_eq!(after, before);
        assert_eq!(engine.scan(b"a", b"z").unwrap(), pairs);
    }
}

#[test]
fn a_damaged_table_stops_a_merge() {
    let mut engine = create_test_engine();
    let mut bytes = image(&[entry("a", Some("1"), 1)], 1);
    bytes[9] ^= 1;
    let broken = match SSTableReader::open(PathBuf::from("x"), bytes, true) {
        Ok(reader) => reader,
        Err(e) => panic!("{e:?}"),
    };
    engine.install(0, broken);
    assert!(matches!(
        engine.merge_sstables(0),
        Err(StorageError::ChecksumMismatch { .. })
    ));
    assert!(matches!(
        engine.get(b"a"),
        Err(StorageError::ChecksumMismatch { .. })
    ));
    assert!(matches!(
        engine.scan(b"a", b"b"),
        Err(StorageError::ChecksumMismatch { .. })
    ));
}

#[test]
fn large_levels_are_merged_into_the_next() {
    let config = Config {
        l0_sstable_size: 1,
        ..Config::new(1)
    };
    let mut engine = engine_with(config, Vec::new());
    engine.install(2, reader(&[entry("a", Some("0123456789012345678901234567890"), 1)]));
    assert_eq!(engine.next_compaction(0), None);
    let value = "x".repeat(200);
    engine.install(1, reader(&[entry("a", Some(value.as_str()), 1)]));
    assert_eq!(engine.next_compaction(0), Some(1));
    assert_eq!(engine.next_compaction(2), None);
}

#[test]
fn groups_are_as_large_as_a_table_is_meant_to_be() {
    let config = Config {
        l0_sstable_size: 50,
        ..Config::new(1)
    };
    let engine = engine_with(config, Vec::new());
    let entries: Vec<Entry> = (0..7)
        .map(|i| entry(&format!("{i}"), Some("12345678"), i))
        .collect();
    let sizes = |level: usize| -> Vec<usize> {
        engine
            .split_for_level(level, entries.clone())
            .iter()
            .map(|g| g.len())
            .collect()
    };
    assert_eq!(sizes(0), [2, 2, 2, 1]);
    assert_eq!(sizes(1), [4, 3]);
    assert!(engine.split_for_level(1, Vec::new()).is_empty());
    let big = vec![entry("k", Some("x".repeat(500).as_str()), 1)];
    assert_eq!(engine.split_for_level(0, big).len(), 1);
}

#[test]
fn levels_are_read_from_file_names() {
    assert_eq!(table_file_name(0, 17, 1), "L0_0000000017_1.sst");
    assert_eq!(
        parse_level_from_filename(&table_file_name(12, 1, 2)),
        Some(12)
    );
    assert_eq!(parse_level_from_filename("L3_x"), Some(3));
    assert_eq!(parse_level_from_filename("L+3_x"), Some(3));
    assert_eq!(parse_level_from_filename("L_x"), None);
    assert_eq!(parse_level_from_filename("L+_x"), None);
    assert_eq!(parse_level_from_filename("L-1_x"), None);
    assert_eq!(parse_level_from_filename("L1"), None);
    assert_eq!(parse_level_from_filename("l1_x"), None);
    assert_eq!(parse_level_from_filename(""), None);
    assert_eq!(parse_level_from_filename("L\u{e9}1_x"), None);
    assert_eq!(
        parse_level_from_filename(&format!("L{}_x", usize::MAX)),
        Some(usize::MAX)
    );
    assert_eq!(parse_level_from_filename("L18446744073709551616_x"), None);
    assert_eq!(parse_level_from_filename("L99999999999999999999_x"), None);
    assert!(has_table_extension("a.sst"));
    assert!(!has_table_extension(".sst"));
    assert!(!has_table_extension("a.sstx"));
    assert!(!has_table_extension("sst"));
}

#[test]
fn a_flushed_memtable_is_found_in_its_table() {
    let mut engine = create_test_engine();
    let value = [7u8; 1100];
    for key in [b"a", b"b", b"c"] {
        put(&mut engine, key, &value);
    }
    let oldest = match engine.put(b"d", b"4") {
        Ok(WriteStep::Flush(m)) => m,
        _ => panic!("no flush"),
    };
    let job = engine.flush_job(&oldest, 1).unwrap();
    let bloom = sizing(job.entries.len());
    let image = match engine
        .table_builder()
        .build_from_vec(PathBuf::from(&job.name), job.entries, bloom)
    {
        Ok(image) => image,
        Err(e) => panic!("{e:?}"),
    };
    assert_eq!(image.meta.entry_count, 1);
    let table = match SSTableReader::open(image.path, image.bytes, engine.config().use_mmap) {
        Ok(table) => table,
        Err(e) => panic!("{e:?}"),
    };
    engine.install(0, table);
    engine.resume_put(b"d", b"4");
    assert_eq!(engine.get(b"a").unwrap(), Some(value.to_vec()));
    assert_eq!(engine.get(b"d").unwrap(), Some(b"4".to_vec()));
    assert_eq!(engine.scan(b"a", b"z").unwrap().len(), 4);
}

#[test]
fn a_rotation_goes_on_with_the_numbers() {
    let mut engine = create_test_engine();
    for i in 0..20u8 {
        put(&mut engine, b"k", &[i; 10]);
    }
    put(&mut engine, b"full", &[7; 1100]);
    put(&mut engine, b"k", b"newest");
    assert_eq!(engine.stats().immutable_memtable_count, 1);
    assert_eq!(engine.get(b"k").unwrap(), Some(b"newest".to_vec()));
    assert_eq!(
        engine.scan(b"k", b"l").unwrap(),
        vec![(b"k".to_vec(), b"newest".to_vec())]
    );
}

#[test]
fn numbers_go_on_after_the_files() {
    let files = vec![
        file("L0_0000000001_9.sst", image(&[entry("k", Some("old"), 8), entry("l", None, 3)], 10)),
        file("L2_0000000001_1.sst", image(&[entry("m", Some("deep"), 11)], 5)),
    ];
    let mut engine = engine_with(Config::new(1), files);
    put(&mut engine, b"k", b"new");
    let rest = engine.close();
    assert_eq!(rest[0].get(b"k").unwrap().sequence, 12);

    let files = vec![file("L0_0000000001_9.sst", image(&[entry("k", Some("old"), 8)], 10))];
    let mut engine = engine_with(Config::new(1), files);
    assert_eq!(engine.get(b"k").unwrap(), Some(b"old".to_vec()));
    put(&mut engine, b"k", b"new");
    assert_eq!(engine.get(b"k").unwrap(), Some(b"new".to_vec()));
    assert_eq!(
        engine.scan(b"k", b"l").unwrap(),
        vec![(b"k".to_vec(), b"new".to_vec())]
    );
}

#[test]
fn values_survive_a_restart() {
    let mut engine = create_test_engine();
    put(&mut engine, b"a", &[1; 1100]);
    put(&mut engine, b"b", b"2");
    delete(&mut engine, b"a");
    put(&mut engine, b"c", &[3; 1100]);
    put(&mut engine, b"b", b"4");
    let keys = [b"a", b"b", b"c", b"d"];
    let before: Vec<Option<Vec<u8>>> = keys.iter().map(|k| engine.get(*k).unwrap()).collect();
    let rest = engine.close();
    assert_eq!(rest.len(), 3);
    let mut files = Vec::new();
    for (age, memtable) in rest.iter().enumerate() {
        let job = engine.flush_job(memtable, 7).unwrap();
        let bloom = sizing(job.entries.len());
        let image = match engine.table_builder().build_from_vec_at(
            PathBuf::from(&job.name),
            job.entries,
            bloom,
            age as u64,
        ) {
            Ok(image) => image,
            Err(e) => panic!("{e:?}"),
        };
        files.push(file(&job.name, image.bytes));
    }
    files.reverse();
    let mut again = engine_with(Config::new(1), files);
    let after: Vec<Option<Vec<u8>>> = keys.iter().map(|k| again.get(*k).unwrap()).collect();
    assert_eq!(after, before);
    assert_eq!(again.scan(b"a", b"z").unwrap().len(), 2);
    put(&mut again, b"b", b"5");
    assert_eq!(again.scan(b"b", b"c").unwrap()[0].1, b"5".to_vec());
}
