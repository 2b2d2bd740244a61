use justdb::config::{CompressionType, Rate};
use justdb::Config;
use std::time::Duration;

fn rate(value: f64) -> Rate {
    Rate {
        bits: value.to_bits(),
    }
}

#[test]
fn defaults_are_valid() {
    let c = Config::new(4);
    assert!(c.validate().is_ok());
    assert_eq!(c.memtable_size_threshold, 64 * 1024 * 1024);
    assert_eq!(c.max_memtables, 2);
    assert_eq!(c.level_size_multiplier, 10);
    assert_eq!(c.max_levels, 7);
    assert_eq!(c.l0_sstable_size, 2 * 1024 * 1024);
    assert_eq!(c.l0_compaction_threshold, 4);
    assert_eq!(c.compression, CompressionType::Lz4);
    assert_eq!(c.compression, CompressionType::default());
    assert_eq!(c.compression_level, 1);
    assert!(c.enable_bloom_filters);
    assert_eq!(c.bloom_false_positive_rate, rate(0.01));
    assert_eq!(c.write_buffer_size, 4 * 1024 * 1024);
    assert_eq!(c.wal_sync_interval, 1000);
    assert_eq!(c.max_wal_size, 64 * 1024 * 1024);
    assert_eq!(c.compaction_threads, 4);
    assert_eq!(c.compaction_interval, Duration::from_secs(60));
    assert!(c.enable_compaction);
    assert_eq!(c.max_concurrent_compactions, 2);
    assert!(c.enable_metrics);
    assert_eq!(c.cache_size, 128 * 1024 * 1024);
    assert_eq!(c.max_open_files, 10);
    assert!(c.use_mmap && c.verify_checksums && !c.paranoid_checks);
}

#[test]
fn settings_are_changed_one_by_one() {
    let c = Config::new(1)
        .with_memtable_size(1)
        .with_compression(CompressionType::Zstd)
        .with_compression_level(9)
        .with_bloom_filters(false)
        .with_bloom_false_positive_rate(rate(0.5))
        .with_compaction(false)
        .with_compaction_threads(3)
        .with_metrics(false)
        .with_cache_size(7)
        .with_mmap(false)
        .with_checksum_verification(false)
        .with_paranoid_checks(true);
    assert_eq!(c.memtable_size_threshold, 1);
    assert_eq!(c.compression, CompressionType::Zstd);
    assert_eq!(c.compression_level, 9);
    assert!(!c.enable_bloom_filters);
    assert_eq!(c.bloom_false_positive_rate, rate(0.5));
    assert!(!c.enable_compaction);
    assert_eq!(c.compaction_threads, 3);
    assert!(!c.enable_metrics);
    assert_eq!(c.cache_size, 7);
    assert!(!c.use_mmap && !c.verify_checksums && c.paranoid_checks);
    assert_eq!(c.clone().cache_size, 7);
}

#[test]
fn the_first_wrong_setting_is_named() {
    let good = Config::new(1);
    let cases: Vec<(Config, &str)> = vec![
        (
            Config { memtable_size_threshold: 0, max_memtables: 0, ..good.clone() },
            "memtable_size_threshold must be greater than 0",
        ),
        (
            Config { max_memtables: 0, ..good.clone() },
            "max_memtables must be greater than 0",
        ),
        (
            Config { level_size_multiplier: 9, ..good.clone() },
            "level_size_multiplier must be at least 10",
        ),
        (
            Config { max_levels: 0, ..good.clone() },
            "mmax_levels must be greater than 0",
        ),
        (
            Config { l0_sstable_size: 0, ..good.clone() },
            "l0_sstable_size must be greater than 0",
        ),
        (
            Config { l0_compaction_threshold: 0, ..good.clone() },
            "l0_compaction_threshold must be greater than 0",
        ),
        (
            Config { bloom_false_positive_rate: rate(1.5), ..good.clone() },
            "bloom_false_positive_rate must be between 0.0 and 1.0",
        ),
        (
            Config { write_buffer_size: 0, ..good.clone() },
            "write_buffer_size must be greater than 0",
        ),
        (
            Config { wal_sync_interval: 0, ..good.clone() },
            "wal_sync_interval must be greater than 0",
        ),
        (
            Config { max_wal_size: 0, ..good.clone() },
            "max_wal_size must be greater than 0",
        ),
        (
            Config { compaction_threads: 0, ..good.clone() },
            "compaction_threads must be greater than 0",
        ),
        (
            Config { max_concurrent_compactions: 0, ..good.clone() },
            "max_concurrent_compactions must be greater than 0",
        ),
        (
            Config { max_open_files: 0, ..good.clone() },
            "max_open_files must be greater than 0",
        ),
    ];
    for (config, message) in cases {
        assert_eq!(config.validate().unwrap_err(), message);
    }
}

#[test]
fn rates_lie_between_zero_and_one() {
    for value in [0.0, -0.0, 0.01, 0.5, 1.0, f64::MIN_POSITIVE] {
        assert!(rate(value).is_in_unit_range(), "{value}");
    }
    for value in [
        -0.1,
        1.0000000000000002,
        2.0,
        f64::INFINITY,
        f64::NEG_INFINITY,
        f64::NAN,
        -f64::NAN,
        -f64::MIN_POSITIVE,
    ] {
        assert!(!rate(value).is_in_unit_range(), "{value}");
    }
}

#[test]
fn levels_grow_by_the_multiplier() {
    let c = Config::new(1);
    assert_eq!(c.level_target_size(0), 8 * 1024 * 1024);
    assert_eq!(c.level_target_size(1), 20 * 1024 * 1024);
    assert_eq!(c.level_target_size(2), 200 * 1024 * 1024);
    assert_eq!(c.checked_level_target_size(3), Some(2000 * 1024 * 1024));
    assert_eq!(c.checked_level_target_size(100), None);
    assert_eq!(c.level_max_sstables(0), 4);
}
