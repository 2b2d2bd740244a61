use justdb::bloom::{bound_bits, BloomSizing};
use justdb::config::{CompressionType, Rate};
use justdb::sstable::builder::sort_by_key;
use justdb::sstable::{SSTableBuilder, SSTableImage, SSTableReader, SSTableWriter};
use justdb::{Entry, StorageError};
use std::path::PathBuf;

fn sizing(expected: usize, rate: f64) -> BloomSizing {
    if expected == 0 {
        return BloomSizing { bits: 0, hashes: 0 };
    }
    let bits = (-(expected as f64) * rate.ln() / (2.0_f64.ln().powi(2))).ceil() as usize;
    let bounded = bound_bits(bits);
    let hashes = ((bounded as f64 / expected as f64) * 2.0_f64.ln()).ceil() as usize;
    BloomSizing { bits, hashes }
}

fn path() -> PathBuf {
    PathBuf::from("test.sst")
}

fn create_test_entries() -> Vec<Entry> {
    vec![
        Entry::new(b"key1".to_vec(), Some(b"value1".to_vec()), 1000, 1),
        Entry::new(b"key2".to_vec(), Some(b"value2".to_vec()), 1001, 2),
    ]
}

#[test]
fn test_sstable_writer_creation() {
    let writer = SSTableWriter::new(
        path(),
        100,
        CompressionType::Uncompressed,
        0,
        sizing(100, 0.01),
    );
    assert_eq!(writer.entry_count(), 0);
    assert_eq!(writer.size(), 0);
    assert_eq!(writer.path(), &path());
}

#[test]
fn test_sstable() {
    let entries = create_test_entries();
    let builder = SSTableBuilder::new()
        .compression(CompressionType::Uncompressed)
        .bloom_false_positive_rate(Rate {
            bits: 0.01_f64.to_bits(),
        });
    let image = builder
        .build_from_vec(path(), entries.clone(), sizing(2, 0.01))
        .unwrap_or_else(|e| panic!("{e:?}"));
    let meta = image.meta;
    assert_eq!(meta.entry_count, 2);
    assert_eq!(meta.compression, CompressionType::Uncompressed);
    assert_eq!(meta.min_key, b"key1".to_vec());
    assert_eq!(meta.max_key, b"key2".to_vec());
    assert!(meta.data_size > 0);
    assert!(meta.index_size > 0);
}

fn numbered(n: usize) -> Vec<Entry> {
    (0..n)
        .map(|i| {
            let value = if i % 5 == 0 {
                None
            } else {
                Some(vec![(i % 251) as u8; 200])
            };
            Entry::new(
                format!("key{i:06}").into_bytes(),
                value,
                i as u64,
                1000 + i as u64,
            )
        })
        .collect()
}

fn image_of(entries: &[Entry], compression: CompressionType) -> SSTableImage {
    SSTableBuilder::new()
        .compression(compression)
        .compression_level(3)
        .build_at(path(), entries.to_vec(), sizing(entries.len(), 0.01), 42)
        .unwrap_or_else(|e| panic!("{e:?}"))
}

fn open(bytes: Vec<u8>, mapped: bool) -> SSTableReader {
    SSTableReader::open(path(), bytes, mapped).unwrap_or_else(|e| panic!("{e:?}"))
}

#[test]
fn a_small_table_has_its_layout() {
    let image = image_of(&create_test_entries(), CompressionType::Uncompressed);
    let block = [
        vec![2, 0, 0, 0],
        vec![4, 0, 0, 0],
        b"key1".to_vec(),
        vec![1, 6, 0, 0, 0],
        b"value1".to_vec(),
        1000u64.to_le_bytes().to_vec(),
        1u64.to_le_bytes().to_vec(),
        vec![4, 0, 0, 0],
        b"key2".to_vec(),
        vec![1, 6, 0, 0, 0],
        b"value2".to_vec(),
        1001u64.to_le_bytes().to_vec(),
        2u64.to_le_bytes().to_vec(),
    ]
    .concat();
    let frame = [crc32fast::hash(&block).to_le_bytes().to_vec(), block].concat();
    assert_eq!(image.bytes[..frame.len()], frame);
    assert_eq!(image.meta.data_size, frame.len() as u64);
    assert_eq!(image.meta.bloom_offset, frame.len() as u64);
    assert_eq!(image.meta.bloom_size, 20);
    let index = [
        vec![1, 0, 0, 0, 4, 0, 0, 0],
        b"key1".to_vec(),
        0u64.to_le_bytes().to_vec(),
        (frame.len() as u64).to_le_bytes().to_vec(),
    ]
    .concat();
    let index_at = frame.len() + 20;
    assert_eq!(image.bytes[index_at..index_at + index.len()], index);
    assert_eq!(image.meta.index_size, index.len() as u64);
    let footer = &image.bytes[index_at + index.len()..];
    assert_eq!(footer.len(), 64);
    assert_eq!(footer[..8], 2u64.to_le_bytes());
    assert_eq!(footer[40..48], 42u64.to_le_bytes());
    assert_eq!(footer[48..57], [0, 1, 0, 0, 0, 0x54, 0x34, 0x53, 0x53]);
    assert_eq!(footer[57..], [0; 7]);
}

#[test]
fn every_entry_of_a_table_is_found() {
    let entries = numbered(300);
    for compression in [
        CompressionType::Uncompressed,
        CompressionType::Lz4,
        CompressionType::Zstd,
    ] {
        for mapped in [true, false] {
            let image = image_of(&entries, compression);
            let mut reader = open(image.bytes, mapped);
            assert!(reader.block_count() > 10);
            for entry in &entries {
                assert!(reader.might_contain(&entry.key));
                assert_eq!(reader.get(&entry.key).unwrap().as_ref(), Some(entry));
                assert_eq!(reader.get(&entry.key).unwrap().as_ref(), Some(entry));
            }
            for key in ["a", "key0000005", "key000100x", "z"] {
                assert_eq!(reader.get(key.as_bytes()).unwrap(), None);
            }
            assert_eq!(reader.metadata().entry_count, 300);
            assert_eq!(reader.metadata().min_key, b"key000000");
            assert_eq!(reader.metadata().created_at, 42);
            assert_eq!(reader.path(), &path());
        }
    }
}

#[test]
fn compressed_blocks_differ_from_their_contents() {
    let entries = numbered(300);
    let plain = image_of(&entries, CompressionType::Uncompressed);
    for compression in [CompressionType::Lz4, CompressionType::Zstd] {
        let image = image_of(&entries, compression);
        assert!(image.meta.data_size < plain.meta.data_size / 2);
        assert_eq!(image.meta.compression, compression);
    }
}

#[test]
fn a_walk_hands_out_all_entries() {
    let entries = numbered(3000);
    let image = image_of(&entries, CompressionType::Lz4);
    let mut reader = open(image.bytes, true);
    assert!(reader.block_count() > 100);
    let mut iter = reader.iter();
    let mut seen = Vec::new();
    while let Some(entry) = iter.next() {
        seen.push(entry.unwrap());
    }
    assert!(iter.next().is_none());
    assert_eq!(seen, entries);
    assert_eq!(reader.get(b"key000777").unwrap().as_ref(), Some(&entries[777]));
}

#[test]
fn a_range_gives_the_entries_between() {
    let entries = numbered(40);
    let image = image_of(&entries, CompressionType::Uncompressed);
    let mut reader = open(image.bytes, true);
    let found = reader.range(b"key000003", b"key000030").unwrap();
    assert_eq!(found, entries[3..30]);
    assert!(reader.range(b"x", b"y").unwrap().is_empty());
    assert_eq!(reader.range(b"", b"key000002").unwrap(), entries[..2]);
}

#[test]
fn a_range_searches_all_blocks() {
    let entries = numbered(300);
    let image = image_of(&entries, CompressionType::Uncompressed);
    let mut reader = open(image.bytes, true);
    let found = reader.range(b"", b"z").unwrap();
    assert_eq!(found, entries);
    assert_eq!(reader.range(b"key000200", b"z").unwrap(), entries[200..]);

    let large = |key: u8| Entry::new(vec![key], Some(vec![0; 5000]), 1, 1);
    let image = image_of(&[large(1), large(2)], CompressionType::Uncompressed);
    let mut reader = open(image.bytes, true);
    assert_eq!(reader.block_count(), 2);
    assert_eq!(reader.range(&[2], &[3]).unwrap(), [large(2)]);
}

#[test]
fn an_empty_table_can_be_opened() {
    let image = image_of(&[], CompressionType::Lz4);
    assert_eq!(image.meta.entry_count, 0);
    assert_eq!(image.meta.data_size, 0);
    assert!(image.meta.min_key.is_empty());
    let mut reader = open(image.bytes, true);
    assert_eq!(reader.get(b"a").unwrap(), None);
    assert!(reader.iter().next().is_none());
    assert!(reader.range(b"a", b"b").unwrap().is_empty());
}

#[test]
fn keys_have_to_be_in_order() {
    let none = BloomSizing { bits: 0, hashes: 0 };
    let mut writer = SSTableWriter::new(path(), 0, CompressionType::Uncompressed, 0, none);
    let entries = create_test_entries();
    writer.add(&entries[1]).unwrap();
    for entry in &entries {
        match writer.add(entry) {
            Err(StorageError::InvalidOperation { message }) => {
                assert_eq!(message, "keys must be added in sorted order")
            }
            other => panic!("{other:?}"),
        }
    }
    assert_eq!(writer.entry_count(), 1);
}

#[test]
fn a_builder_sorts_what_it_is_told_to() {
    let mut entries = numbered(20);
    entries.reverse();
    let builder = SSTableBuilder::default().compression(CompressionType::Uncompressed);
    assert!(builder
        .build(path(), entries.clone(), sizing(20, 0.01))
        .is_err());
    let image = builder
        .build_from_vec(path(), entries.clone(), sizing(20, 0.01))
        .unwrap_or_else(|e| panic!("{e:?}"));
    assert_eq!(image.meta.entry_count, 20);
    assert_eq!(sort_by_key(entries.clone()), numbered(20));
    entries.push(entries[3].clone());
    assert!(builder
        .build_from_vec(path(), entries, sizing(21, 0.01))
        .is_err());
    let sorted = numbered(3);
    let image = SSTableBuilder::new()
        .compression_level(5)
        .build(path(), sorted, sizing(3, 0.01))
        .unwrap_or_else(|e| panic!("{e:?}"));
    assert_eq!(image.meta.compression, CompressionType::Lz4);
}

#[test]
fn equal_keys_stay_in_their_order() {
    let mut entries = Vec::new();
    for (key, sequence) in [("b", 1), ("a", 2), ("b", 3), ("a", 4)] {
        entries.push(Entry::new(key.as_bytes().to_vec(), None, 0, sequence));
    }
    let sequences: Vec<u64> = sort_by_key(entries).iter().map(|e| e.sequence).collect();
    assert_eq!(sequences, [2, 4, 1, 3]);
}

#[test]
fn a_table_whose_filter_has_another_length_is_refused() {
    let image = image_of(&create_test_entries(), CompressionType::Uncompressed);
    let mut bytes = image.bytes;
    let at = image.meta.bloom_offset as usize;
    bytes[at] = 72;
    assert_eq!(
        message(refusal(bytes, true)),
        "invalid bloom filter data length"
    );
}

#[test]
fn entries_in_any_order_give_one_table() {
    let entries = numbered(50);
    let sorted = image_of(&entries, CompressionType::Zstd);
    let mut shuffled = entries.clone();
    shuffled.reverse();
    shuffled.swap(3, 20);
    let image = SSTableBuilder::new()
        .compression(CompressionType::Zstd)
        .compression_level(3)
        .build_from_vec_at(path(), shuffled.clone(), sizing(50, 0.01), 42)
        .unwrap_or_else(|e| panic!("{e:?}"));
    assert_eq!(image.bytes, sorted.bytes);
    assert_eq!(image.meta.min_key, sorted.meta.min_key);
    assert_eq!(image.meta.max_key, sorted.meta.max_key);
    shuffled.push(entries[7].clone());
    match SSTableBuilder::new().build_from_vec(path(), shuffled, sizing(51, 0.01)) {
        Err(StorageError::InvalidOperation { message }) => {
            assert_eq!(message, "keys must be added in sorted order")
        }
        _ => panic!("written"),
    }
}

#[test]
fn an_opened_table_names_its_first_and_its_last_key() {
    let entries = numbered(500);
    for compression in [
        CompressionType::Uncompressed,
        CompressionType::Lz4,
        CompressionType::Zstd,
    ] {
        for mapped in [true, false] {
            let image = image_of(&entries, compression);
            let reader = SSTableReader::open(path(), image.bytes, mapped)
                .unwrap_or_else(|e| panic!("{e:?}"));
            assert!(reader.block_count() > 1);
            assert_eq!(reader.metadata().min_key, entries[0].key);
            assert_eq!(reader.metadata().max_key, entries[499].key);
        }
    }
}

#[test]
fn a_table_whose_last_block_is_damaged_is_opened() {
    let image = image_of(&create_test_entries(), CompressionType::Uncompressed);
    let mut bytes = image.bytes;
    bytes[9] ^= 1;
    let mut reader =
        SSTableReader::open(path(), bytes, true).unwrap_or_else(|e| panic!("{e:?}"));
    assert_eq!(reader.metadata().max_key, b"key1".to_vec());
    assert!(matches!(
        reader.get(b"key1"),
        Err(StorageError::ChecksumMismatch { .. })
    ));
}

#[test]
fn a_table_is_written_twice_with_the_same_figures() {
    for compression in [CompressionType::Uncompressed, CompressionType::Zstd] {
        let build = |created_at: u64| {
            SSTableBuilder::new()
                .compression(compression)
                .compression_level(3)
                .build_from_vec_at(path(), numbered(300), sizing(300, 0.01), created_at)
                .unwrap_or_else(|e| panic!("{e:?}"))
        };
        let (a, b, later) = (build(1), build(1), build(2));
        assert_eq!(a.bytes, b.bytes);
        assert_ne!(a.bytes, later.bytes);
        assert_eq!(a.meta.data_size, later.meta.data_size);
        assert_eq!(a.meta.index_size, later.meta.index_size);
        assert_eq!(a.meta.bloom_offset, later.meta.bloom_offset);
        assert_eq!(a.meta.bloom_size, later.meta.bloom_size);
        assert_eq!(a.meta.entry_count, later.meta.entry_count);
        assert_eq!(a.meta.max_key, later.meta.max_key);
        assert_eq!((a.meta.created_at, later.meta.created_at), (1, 2));
    }
}

fn refusal(bytes: Vec<u8>, mapped: bool) -> StorageError {
    match SSTableReader::open(path(), bytes, mapped) {
        Err(e) => e,
        Ok(_) => panic!("opened"),
    }
}

fn message(e: StorageError) -> String {
    match e {
        StorageError::Corruption { message } => message,
        other => panic!("{other:?}"),
    }
}

#[test]
fn damaged_footers_are_refused() {
    let image = image_of(&create_test_entries(), CompressionType::Uncompressed);
    let footer = image.bytes.len() - 64;
    assert!(message(refusal(vec![0; 63], true)).contains("File too small to contain footer"));
    let mut bytes = image.bytes.clone();
    bytes[footer + 48] = 3;
    assert_eq!(message(refusal(bytes, true)), "invalid compression type");
    let mut bytes = image.bytes.clone();
    bytes[footer + 53] = 0;
    assert_eq!(message(refusal(bytes, true)), "invalid sstable magic number");
    let mut bytes = image.bytes.clone();
    bytes[footer + 49] = 2;
    assert_eq!(message(refusal(bytes, true)), "unsupported sstable version");
    let mut bytes = image.bytes.clone();
    bytes[footer + 23] = 1;
    assert_eq!(message(refusal(bytes.clone(), true)), "read beyond file bounds");
    match refusal(bytes, false) {
        StorageError::Io(e) => {
            assert_eq!(e.kind(), std::io::ErrorKind::UnexpectedEof);
            assert_eq!(e.to_string(), "failed to fill whole buffer");
        }
        other => panic!("{other:?}"),
    }
    let mut bytes = image.bytes.clone();
    for i in 24..40 {
        bytes[footer + i] = 255;
    }
    assert_eq!(message(refusal(bytes, true)), "read beyond file bounds");
    let mut bytes = image.bytes.clone();
    bytes[footer + 16] = 5;
    assert_eq!(message(refusal(bytes, true)), "unexpected end of data");
}

#[test]
fn damaged_blocks_are_found_out() {
    let entries = numbered(100);
    let image = image_of(&entries, CompressionType::Uncompressed);
    let mut bytes = image.bytes.clone();
    bytes[10] ^= 1;
    let mut reader = open(bytes, true);
    for _ in 0..2 {
        match reader.get(b"key000000") {
            Err(StorageError::ChecksumMismatch { expected, actual }) => {
                assert_ne!(expected, actual)
            }
            other => panic!("{other:?}"),
        }
    }
    assert!(reader.get(b"key000099").unwrap().is_some());
    assert!(reader.range(b"", b"key000001").is_err());
    let mut iter = reader.iter();
    for _ in 0..2 {
        assert!(matches!(
            iter.next(),
            Some(Err(StorageError::ChecksumMismatch { .. }))
        ));
    }
}

#[test]
fn blocks_that_cannot_be_decompressed_are_reported() {
    for (compression, code, text) in [
        (CompressionType::Lz4, 1, "LZ4 decompression failed: "),
        (CompressionType::Zstd, 2, "Zstd decompression failed: "),
    ] {
        let image = image_of(&create_test_entries(), CompressionType::Uncompressed);
        let mut bytes = image.bytes;
        let footer = bytes.len() - 64;
        bytes[footer + 48] = code;
        let mut reader = open(bytes, true);
        assert_eq!(reader.metadata().compression, compression);
        match reader.get(b"key1") {
            Err(StorageError::Decompression { message }) => {
                assert!(message.starts_with(text) && message.len() > text.len(), "{message}")
            }
            other => panic!("{other:?}"),
        }
    }
}

#[test]
fn a_large_block_does_not_survive_zstd() {
    let big = vec![Entry::new(b"k".to_vec(), Some(vec![7; 20_000]), 1, 1)];
    let image = image_of(&big, CompressionType::Zstd);
    let mut reader = open(image.bytes, true);
    assert!(matches!(
        reader.get(b"k"),
        Err(StorageError::Decompression { .. })
    ));
    let image = image_of(&big, CompressionType::Lz4);
    let mut reader = open(image.bytes, true);
    assert_eq!(reader.get(b"k").unwrap(), Some(big[0].clone()));
}

#[test]
fn figures_of_a_table_are_copied() {
    let image = image_of(&create_test_entries(), CompressionType::Uncompressed);
    let copy = image.meta.clone();
    assert_eq!(copy.max_key, image.meta.max_key);
    assert_eq!(copy.version, 1);
}
