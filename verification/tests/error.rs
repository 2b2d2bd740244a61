use justdb::error::BincodeError;
use justdb::StorageError;
use std::time::Duration;

fn all() -> Vec<StorageError> {
    let encode = rmp_serde::encode::Error::DepthLimitExceeded;
    let decode = rmp_serde::decode::Error::DepthLimitExceeded;
    vec![
        StorageError::from(std::io::ErrorKind::NotFound),
        StorageError::from(BincodeError::from(
            bincode::error::EncodeError::UnexpectedEnd,
        )),
        StorageError::from(encode),
        StorageError::from(decode),
        StorageError::compression("m"),
        StorageError::decompression("m"),
        StorageError::ChecksumMismatch {
            expected: 1,
            actual: 2,
        },
        StorageError::InvalidKeySize {
            size: 2,
            max_size: 1,
        },
        StorageError::InvalidValueSize {
            size: 2,
            max_size: 1,
        },
        StorageError::corruption("m"),
        StorageError::lock_failed("m"),
        StorageError::wal("m"),
        StorageError::compaction("m"),
        StorageError::config("m"),
        StorageError::memory("m"),
        StorageError::TooManyFiles { current: 2, max: 1 },
        StorageError::invalid_file_format("t", "p"),
        StorageError::KeyNotFound,
        StorageError::ReadOnly,
        StorageError::timeout(Duration::from_secs(3)),
        StorageError::Closed,
        StorageError::resource_exhausted("r"),
        StorageError::invalid_operation("m"),
        StorageError::thread_pool("m"),
        StorageError::metrics("m"),
        StorageError::recovery("m"),
        StorageError::unknown("m"),
    ]
}

#[test]
fn every_error_has_its_category() {
    let names: Vec<&str> = all().iter().map(|e| e.category()).collect();
    assert_eq!(
        names,
        vec![
            "io",
            "serialization",
            "messagepack",
            "messagepack_decode",
            "compression",
            "decompression",
            "checksum",
            "invalid_key_size",
            "invalid_value_size",
            "corruption",
            "lock_failed",
            "wal",
            "compaction",
            "config",
            "memory",
            "too_many_files",
            "invalid_file_format",
            "key_not_found",
            "read_only",
            "timeout",
            "closed",
            "resource_exhausted",
            "invalid_operation",
            "thread_pool",
            "metrics",
            "recovery",
            "unknown",
        ]
    );
}

#[test]
fn categories_of_different_errors_differ() {
    let errors = all();
    for (i, a) in errors.iter().enumerate() {
        for (j, b) in errors.iter().enumerate() {
            assert_eq!(a.category() == b.category(), i == j);
        }
    }
}

#[test]
fn no_error_is_the_fault_of_both_sides() {
    let mut neither = Vec::new();
    for e in all() {
        assert!(!(e.is_client_error() && e.is_server_error()));
        if e.is_retryable() {
            assert!(e.is_server_error());
        }
        if e.is_corrupt() {
            assert!(!e.is_client_error() && !e.is_retryable());
        }
        if !e.is_client_error() && !e.is_server_error() {
            neither.push(e.category());
        }
    }
    assert_eq!(neither, vec!["checksum", "invalid_file_format"]);
}

#[test]
fn messages_are_kept() {
    match StorageError::corruption("bad".to_string()) {
        StorageError::Corruption { message } => assert_eq!(message, "bad"),
        other => panic!("{other:?}"),
    }
    match StorageError::invalid_file_format("kind", "path") {
        StorageError::InvalidFileFormat { file_type, path } => {
            assert_eq!((file_type.as_str(), path.as_str()), ("kind", "path"))
        }
        other => panic!("{other:?}"),
    }
    match StorageError::resource_exhausted("disk") {
        StorageError::ResourceExhausted { resource } => assert_eq!(resource, "disk"),
        other => panic!("{other:?}"),
    }
}

#[test]
fn errors_of_channels_and_locks_are_converted() {
    match StorageError::from(crossbeam_channel::SendError(1u8)) {
        StorageError::ThreadPool { message } => {
            assert_eq!(message, "failed to send message to thread pool")
        }
        other => panic!("{other:?}"),
    }
    match StorageError::from(crossbeam_channel::RecvError) {
        StorageError::ThreadPool { message } => {
            assert_eq!(message, "failed to receive message from thread pool")
        }
        other => panic!("{other:?}"),
    }
    match StorageError::from(crossbeam_channel::RecvTimeoutError::Timeout) {
        StorageError::Timeout { duration } => assert_eq!(duration, Duration::from_secs(1)),
        other => panic!("{other:?}"),
    }
    match StorageError::from(crossbeam_channel::RecvTimeoutError::Disconnected) {
        StorageError::ThreadPool { message } => assert_eq!(message, "channel disconnected"),
        other => panic!("{other:?}"),
    }
    let semaphore = tokio::sync::Semaphore::new(1);
    semaphore.close();
    let runtime = tokio::runtime::Builder::new_multi_thread().worker_threads(1).build().unwrap();
    let refused = runtime.block_on(semaphore.acquire()).map(|_| ()).unwrap_err();
    match StorageError::from(refused) {
        StorageError::LockFailed { message } => assert_eq!(message, "failed to acquire lock"),
        other => panic!("{other:?}"),
    }
}

#[test]
fn io_errors_keep_their_kind() {
    match StorageError::from(std::io::ErrorKind::PermissionDenied) {
        StorageError::Io(e) => assert_eq!(e.kind(), std::io::ErrorKind::PermissionDenied),
        other => panic!("{other:?}"),
    }
    match StorageError::from(std::io::Error::new(std::io::ErrorKind::Other, "x")) {
        StorageError::Io(e) => assert_eq!(e.to_string(), "x"),
        other => panic!("{other:?}"),
    }
    let e = BincodeError::from(bincode::error::DecodeError::OtherString("d".to_string()));
    assert!(matches!(e, BincodeError::Decode(_)));
    assert!(matches!(
        StorageError::from(e),
        StorageError::Serialization(BincodeError::Decode(_))
    ));
}
