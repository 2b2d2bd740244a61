use justdb::cli::{
    bench_step, config_for, generate_key, generate_value, interpret, parse_line, populate_count,
    reports_progress, split_words, BenchCounters, BenchStep, Command, Usage,
};
use justdb::compaction::{CompactionManager, CompactionStrategy};
use justdb::config::CompressionType;
use justdb::wal::WriteAheadLog;
use std::path::PathBuf;

#[test]
fn commands_are_interpreted() {
    assert_eq!(interpret("PUT", 3), Command::Put);
    assert_eq!(interpret("PUT", 2), Command::Usage(Usage::Put));
    assert_eq!(interpret("GET", 2), Command::Get);
    assert_eq!(interpret("GET", 3), Command::Usage(Usage::Get));
    assert_eq!(interpret("DELETE", 2), Command::Delete);
    assert_eq!(interpret("DELETE", 1), Command::Usage(Usage::Delete));
    assert_eq!(interpret("SCAN", 3), Command::Scan);
    assert_eq!(interpret("SCAN", 4), Command::Usage(Usage::Scan));
    assert_eq!(interpret("STATS", 5), Command::Stats);
    assert_eq!(interpret("QUIT", 1), Command::Quit);
    assert_eq!(interpret("EXIT", 1), Command::Quit);
    assert_eq!(interpret("put", 3), Command::Unknown);
    assert_eq!(Usage::Put.text(), "Usage: PUT <key> <value>");
    assert_eq!(Usage::Get.text(), "Usage: GET <key>");
    assert_eq!(Usage::Delete.text(), "Usage: DELETE <key>");
    assert_eq!(Usage::Scan.text(), "Usage: SCAN <key> <value>");
}

#[test]
fn keys_and_values_are_generated() {
    assert_eq!(generate_key(42, 16), b"key0000000042000".to_vec());
    assert_eq!(generate_key(42, 5), b"key00".to_vec());
    assert_eq!(generate_value(7, 15), b"value0000000007".to_vec());
    assert_eq!(
        generate_value(7, 36),
        b"value00000000070123456789abcdef01234".to_vec()
    );
    assert_eq!(generate_value(7, 3), b"val".to_vec());
    assert_eq!(generate_key(12345678901, 14), b"key12345678901".to_vec());
}

#[test]
fn options_become_settings() {
    let c = config_for(64, false, 2);
    assert_eq!(c.memtable_size_threshold, 64 * 1024 * 1024);
    assert_eq!(c.compression, CompressionType::Lz4);
    let c = config_for(1, true, 2);
    assert_eq!(c.compression, CompressionType::Uncompressed);
    assert_eq!(c.compaction_threads, 2);
}

#[test]
fn lines_are_split_into_words() {
    assert_eq!(split_words("  put\ta  b\r\n"), vec!["put", "a", "b"]);
    assert_eq!(split_words("get\u{3000}k\u{e9}y"), vec!["get", "k\u{e9}y"]);
    assert_eq!(split_words("one"), vec!["one"]);
    assert!(split_words("").is_empty());
    assert!(split_words(" \t \u{a0}\n").is_empty());
}

#[test]
fn commands_are_understood_in_capitals_or_not() {
    assert!(parse_line("").is_none());
    assert!(parse_line("  \n").is_none());
    for line in ["PUT k v\n", "put k v", "  Put  k\tv "] {
        let (command, words) = parse_line(line).unwrap();
        assert_eq!(command, Command::Put);
        assert_eq!(words[1..], ["k", "v"]);
    }
    assert_eq!(parse_line("get a").unwrap().0, Command::Get);
    assert_eq!(parse_line("dElEtE a").unwrap().0, Command::Delete);
    assert_eq!(parse_line("scan a b").unwrap().0, Command::Scan);
    assert_eq!(parse_line("stats now").unwrap().0, Command::Stats);
    assert_eq!(parse_line("quit").unwrap().0, Command::Quit);
    assert_eq!(parse_line("exit").unwrap().0, Command::Quit);
    assert_eq!(parse_line("get").unwrap().0, Command::Usage(Usage::Get));
    assert_eq!(parse_line("e\u{17f}it").unwrap().0, Command::Unknown);
    // a long s becomes a capital S
    assert_eq!(parse_line("\u{17f}tats").unwrap().0, Command::Stats);
    let (command, words) = parse_line("fetch k").unwrap();
    assert_eq!(command, Command::Unknown);
    assert_eq!(words[0], "fetch");
}

#[test]
fn benchmark_steps_are_chosen_by_the_roll() {
    match bench_step(10, 3, 79, 80, 16, 20) {
        BenchStep::Read { below } => assert_eq!(below, 13),
        step => panic!("{step:?}"),
    }
    match bench_step(10, 3, 80, 80, 16, 20) {
        BenchStep::Write { id, key, value } => {
            assert_eq!(id, 13);
            assert_eq!(key, b"key0000000013000".to_vec());
            assert_eq!(value, b"key00000000130000000".to_vec());
        }
        step => panic!("{step:?}"),
    }
    assert!(matches!(
        bench_step(0, 0, 0, 0, 1, 1),
        BenchStep::Write { .. }
    ));
}

#[test]
fn benchmark_operations_are_counted() {
    let read = BenchStep::Read { below: 1 };
    let write = bench_step(1, 1, 99, 80, 4, 4);
    let c = BenchCounters::new()
        .counted(&read, true)
        .counted(&read, false)
        .counted(&write, false);
    assert_eq!((c.read_ops, c.write_ops, c.read_hits), (2, 1, 1));
    assert_eq!(populate_count(105), 10);
    assert!(reports_progress(10, 100));
    assert!(!reports_progress(11, 100));
}

#[test]
fn small_types_keep_what_they_are_given() {
    let m = CompactionManager::new(CompactionStrategy::Leveled);
    assert_eq!(m.strategy(), CompactionStrategy::Leveled);
    let log = WriteAheadLog::new(PathBuf::from("wal"));
    assert_eq!(log.path(), &PathBuf::from("wal"));
}
