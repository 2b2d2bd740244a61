//! What can go wrong in the storage engine.
use vstd::prelude::*;

verus! {

/// The result of an operation of the storage engine.
pub type Result<T> = std::result::Result<T, StorageError>;

/// `std::io::Error`, carried as it came.
#[verifier::external_type_specification]
#[verifier::external_body]
pub struct ExIoError(std::io::Error);

/// `std::io::ErrorKind`, carried as it came.
#[verifier::external_type_specification]
#[verifier::external_body]
pub struct ExIoErrorKind(std::io::ErrorKind);

/// `bincode::error::EncodeError`, carried as it came.
#[verifier::external_type_specification]
#[verifier::external_body]
pub struct ExEncodeError(bincode::error::EncodeError);

/// `bincode::error::DecodeError`, carried as it came.
#[verifier::external_type_specification]
#[verifier::external_body]
pub struct ExDecodeError(bincode::error::DecodeError);

/// `rmp_serde::encode::Error`, carried as it came.
#[verifier::external_type_specification]
#[verifier::external_body]
pub struct ExPackError(rmp_serde::encode::Error);

/// `rmp_serde::decode::Error`, carried as it came.
#[verifier::external_type_specification]
#[verifier::external_body]
pub struct ExUnpackError(rmp_serde::decode::Error);

/// `tokio::sync::AcquireError`, which says only that a semaphore was closed.
#[verifier::external_type_specification]
#[verifier::external_body]
pub struct ExAcquireError(tokio::sync::AcquireError);

/// `crossbeam_channel::SendError`, which holds the message that was not sent.
#[verifier::external_type_specification]
#[verifier::external_body]
#[verifier::reject_recursive_types(T)]
pub struct ExSendError<T>(crossbeam_channel::SendError<T>);

/// `crossbeam_channel::RecvError`, which says only that the channel is empty and disconnected.
#[verifier::external_type_specification]
#[verifier::external_body]
pub struct ExRecvError(crossbeam_channel::RecvError);

/// `crossbeam_channel::RecvTimeoutError`, with its two variants.
#[verifier::external_type_specification]
pub struct ExRecvTimeoutError(crossbeam_channel::RecvTimeoutError);

/// `String::from` for a string slice holds the characters of the slice.
pub assume_specification<'a>[ <String as From<&'a str>>::from ](s: &str) -> (r: String)
    ensures
        r@ == s@,
;

/// The error that `std::io::Error::from` makes of an error kind.
pub uninterp spec fn io_error_of_kind(kind: std::io::ErrorKind) -> std::io::Error;

/// `std::io::Error::from` for an error kind: a simple error that is a function of the kind.
pub assume_specification[ <std::io::Error as From<std::io::ErrorKind>>::from ](
    kind: std::io::ErrorKind,
) -> (r: std::io::Error)
    ensures
        r == io_error_of_kind(kind),
;

/// The error of `Read::read_exact` where a byte is asked for and only `rest`, which is empty, is
/// left.
pub uninterp spec fn unfilled_error(rest: Seq<u8>) -> std::io::Error;

/// `Read::read_exact` of one byte from a slice in which none is left: the error with which every
/// reader reports that the data ended.
#[verifier::external_body]
pub(crate) fn read_past_end(rest: &[u8]) -> (r: std::io::Error)
    requires
        rest@.len() == 0,
    ensures
        r == unfilled_error(rest@),
{
    let mut reader: &[u8] = rest;
    std::io::Read::read_exact(&mut reader, &mut [0u8]).unwrap_err()
}

/// The time span that `Duration::from_secs` makes.
pub uninterp spec fn duration_of_secs(secs: u64) -> std::time::Duration;

/// `Duration::from_secs`: a span of this number of whole seconds, which is a function of them.
pub assume_specification[ std::time::Duration::from_secs ](secs: u64) -> (r: std::time::Duration)
    ensures
        r == duration_of_secs(secs),
        crate::clock::duration_micros(r) == secs * 1_000_000,
;

/// An error of the `bincode` encoding.
#[derive(Debug)]
pub enum BincodeError {
    Encode(bincode::error::EncodeError),
    Decode(bincode::error::DecodeError),
}

impl From<bincode::error::EncodeError> for BincodeError {
    fn from(value: bincode::error::EncodeError) -> (r: Self) {
        BincodeError::Encode(value)
    }
}

impl vstd::std_specs::convert::FromSpecImpl<bincode::error::EncodeError> for BincodeError {
    open spec fn obeys_from_spec() -> bool {
        true
    }

    open spec fn from_spec(v: bincode::error::EncodeError) -> Self {
        BincodeError::Encode(v)
    }
}

impl From<bincode::error::DecodeError> for BincodeError {
    fn from(value: bincode::error::DecodeError) -> (r: Self) {
        BincodeError::Decode(value)
    }
}

impl vstd::std_specs::convert::FromSpecImpl<bincode::error::DecodeError> for BincodeError {
    open spec fn obeys_from_spec() -> bool {
        true
    }

    open spec fn from_spec(v: bincode::error::DecodeError) -> Self {
        BincodeError::Decode(v)
    }
}

/// What an operation of the storage engine can fail with.
#[derive(Debug)]
pub enum StorageError {
    /// An I/O error.
    Io(std::io::Error),
    /// A serialization error.
    Serialization(BincodeError),
    /// A MessagePack encoding error.
    MessagePack(rmp_serde::encode::Error),
    /// A MessagePack decoding error.
    MessagePackDecode(rmp_serde::decode::Error),
    /// Compression failed.
    Compression { message: String },
    /// Decompression failed.
    Decompression { message: String },
    /// A stored checksum is not that of the data.
    ChecksumMismatch { expected: u32, actual: u32 },
    /// A key is too long.
    InvalidKeySize { size: usize, max_size: usize },
    /// A value is too long.
    InvalidValueSize { size: usize, max_size: usize },
    /// Stored data is damaged.
    Corruption { message: String },
    /// A lock could not be taken.
    LockFailed { message: String },
    /// A write-ahead log error.
    Wal { message: String },
    /// A compaction error.
    Compaction { message: String },
    /// A configuration error.
    Config { message: String },
    /// A memory allocation error.
    Memory { message: String },
    /// Too many open files.
    TooManyFiles { current: usize, max: usize },
    /// A file has the wrong format.
    InvalidFileFormat { file_type: String, path: String },
    /// There is no such key.
    KeyNotFound,
    /// The data can only be read.
    ReadOnly,
    /// An operation took too long.
    Timeout { duration: std::time::Duration },
    /// The database is closed.
    Closed,
    /// A resource is used up.
    ResourceExhausted { resource: String },
    /// The operation is not allowed.
    InvalidOperation { message: String },
    /// A thread pool error.
    ThreadPool { message: String },
    /// A metrics error.
    Metrics { message: String },
    /// A recovery error.
    Recovery { message: String },
    /// An unknown error.
    Unknown { message: String },
}

/// A [`StorageError`], with its texts as sequences of characters.
pub enum ErrorView {
    Io(std::io::Error),
    Serialization(BincodeError),
    MessagePack(rmp_serde::encode::Error),
    MessagePackDecode(rmp_serde::decode::Error),
    Compression { message: Seq<char> },
    Decompression { message: Seq<char> },
    ChecksumMismatch { expected: u32, actual: u32 },
    InvalidKeySize { size: usize, max_size: usize },
    InvalidValueSize { size: usize, max_size: usize },
    Corruption { message: Seq<char> },
    LockFailed { message: Seq<char> },
    Wal { message: Seq<char> },
    Compaction { message: Seq<char> },
    Config { message: Seq<char> },
    Memory { message: Seq<char> },
    TooManyFiles { current: usize, max: usize },
    InvalidFileFormat { file_type: Seq<char>, path: Seq<char> },
    KeyNotFound,
    ReadOnly,
    Timeout { duration: std::time::Duration },
    Closed,
    ResourceExhausted { resource: Seq<char> },
    InvalidOperation { message: Seq<char> },
    ThreadPool { message: Seq<char> },
    Metrics { message: Seq<char> },
    Recovery { message: Seq<char> },
    Unknown { message: Seq<char> },
}

impl View for StorageError {
    type V = ErrorView;

    open spec fn view(&self) -> ErrorView {
        match *self {
            StorageError::Io(cause) => ErrorView::Io(cause),
            StorageError::Serialization(cause) => ErrorView::Serialization(cause),
            StorageError::MessagePack(cause) => ErrorView::MessagePack(cause),
            StorageError::MessagePackDecode(cause) => ErrorView::MessagePackDecode(cause),
            StorageError::Compression { message } => ErrorView::Compression { message: message@ },
            StorageError::Decompression { message } => ErrorView::Decompression { message: message@ },
            StorageError::ChecksumMismatch { expected, actual } => ErrorView::ChecksumMismatch { expected, actual },
            StorageError::InvalidKeySize { size, max_size } => ErrorView::InvalidKeySize { size, max_size },
            StorageError::InvalidValueSize { size, max_size } => ErrorView::InvalidValueSize { size, max_size },
            StorageError::Corruption { message } => ErrorView::Corruption { message: message@ },
            StorageError::LockFailed { message } => ErrorView::LockFailed { message: message@ },
            StorageError::Wal { message } => ErrorView::Wal { message: message@ },
            StorageError::Compaction { message } => ErrorView::Compaction { message: message@ },
            StorageError::Config { message } => ErrorView::Config { message: message@ },
            StorageError::Memory { message } => ErrorView::Memory { message: message@ },
            StorageError::TooManyFiles { current, max } => ErrorView::TooManyFiles { current, max },
            StorageError::InvalidFileFormat { file_type, path } => ErrorView::InvalidFileFormat { file_type: file_type@, path: path@ },
            StorageError::KeyNotFound => ErrorView::KeyNotFound,
            StorageError::ReadOnly => ErrorView::ReadOnly,
            StorageError::Timeout { duration } => ErrorView::Timeout { duration },
            StorageError::Closed => ErrorView::Closed,
            StorageError::ResourceExhausted { resource } => ErrorView::ResourceExhausted { resource: resource@ },
            StorageError::InvalidOperation { message } => ErrorView::InvalidOperation { message: message@ },
            StorageError::ThreadPool { message } => ErrorView::ThreadPool { message: message@ },
            StorageError::Metrics { message } => ErrorView::Metrics { message: message@ },
            StorageError::Recovery { message } => ErrorView::Recovery { message: message@ },
            StorageError::Unknown { message } => ErrorView::Unknown { message: message@ },
        }
    }
}

impl StorageError {
    /// Whether the operation may be tried again.
    pub open spec fn retryable(self) -> bool {
        ||| self is Io
        ||| self is LockFailed
        ||| self is Timeout
        ||| self is ResourceExhausted
        ||| self is TooManyFiles
        ||| self is ThreadPool
    }

    /// Whether stored data was found to be damaged.
    pub open spec fn corrupt(self) -> bool {
        ||| self is Corruption
        ||| self is ChecksumMismatch
        ||| self is InvalidFileFormat
    }

    /// Whether the caller is at fault.
    pub open spec fn client_fault(self) -> bool {
        ||| self is InvalidKeySize
        ||| self is InvalidValueSize
        ||| self is KeyNotFound
        ||| self is ReadOnly
        ||| self is Closed
        ||| self is InvalidOperation
        ||| self is Config
    }

    /// Whether the system is at fault.
    pub open spec fn server_fault(self) -> bool {
        ||| self is Io
        ||| self is Serialization
        ||| self is MessagePack
        ||| self is MessagePackDecode
        ||| self is Compression
        ||| self is Decompression
        ||| self is Corruption
        ||| self is LockFailed
        ||| self is Wal
        ||| self is Compaction
        ||| self is Memory
        ||| self is TooManyFiles
        ||| self is Timeout
        ||| self is ResourceExhausted
        ||| self is ThreadPool
        ||| self is Metrics
        ||| self is Recovery
        ||| self is Unknown
    }

    /// The name of the variant, in lower case.
    pub open spec fn category_name(self) -> Seq<char> {
        match self {
            StorageError::Io(_) => "io"@,
            StorageError::Serialization(_) => "serialization"@,
            StorageError::MessagePack(_) => "messagepack"@,
            StorageError::MessagePackDecode(_) => "messagepack_decode"@,
            StorageError::Compression { .. } => "compression"@,
            StorageError::Decompression { .. } => "decompression"@,
            StorageError::ChecksumMismatch { .. } => "checksum"@,
            StorageError::InvalidKeySize { .. } => "invalid_key_size"@,
            StorageError::InvalidValueSize { .. } => "invalid_value_size"@,
            StorageError::Corruption { .. } => "corruption"@,
            StorageError::LockFailed { .. } => "lock_failed"@,
            StorageError::Wal { .. } => "wal"@,
            StorageError::Compaction { .. } => "compaction"@,
            StorageError::Config { .. } => "config"@,
            StorageError::Memory { .. } => "memory"@,
            StorageError::TooManyFiles { .. } => "too_many_files"@,
            StorageError::InvalidFileFormat { .. } => "invalid_file_format"@,
            StorageError::KeyNotFound => "key_not_found"@,
            StorageError::ReadOnly => "read_only"@,
            StorageError::Timeout { .. } => "timeout"@,
            StorageError::Closed => "closed"@,
            StorageError::ResourceExhausted { .. } => "resource_exhausted"@,
            StorageError::InvalidOperation { .. } => "invalid_operation"@,
            StorageError::ThreadPool { .. } => "thread_pool"@,
            StorageError::Metrics { .. } => "metrics"@,
            StorageError::Recovery { .. } => "recovery"@,
            StorageError::Unknown { .. } => "unknown"@,
        }
    }

    /// A compression error with this message.
    pub fn compression<S: Into<String>>(message: S) -> (r: Self)
        ensures
            r matches StorageError::Compression { message: m } && call_ensures(S::into, (message,), m),
    {
        StorageError::Compression { message: message.into() }
    }

    /// A decompression error with this message.
    pub fn decompression<S: Into<String>>(message: S) -> (r: Self)
        ensures
            r matches StorageError::Decompression { message: m } && call_ensures(S::into, (message,), m),
    {
        StorageError::Decompression { message: message.into() }
    }

    /// A corruption error with this message.
    pub fn corruption<S: Into<String>>(message: S) -> (r: Self)
        ensures
            r matches StorageError::Corruption { message: m } && call_ensures(S::into, (message,), m),
    {
        StorageError::Corruption { message: message.into() }
    }

    /// A lock error with this message.
    pub fn lock_failed<S: Into<String>>(message: S) -> (r: Self)
        ensures
            r matches StorageError::LockFailed { message: m } && call_ensures(S::into, (message,), m),
    {
        StorageError::LockFailed { message: message.into() }
    }

    /// A write-ahead log error with this message.
    pub fn wal<S: Into<String>>(message: S) -> (r: Self)
        ensures
            r matches StorageError::Wal { message: m } && call_ensures(S::into, (message,), m),
    {
        StorageError::Wal { message: message.into() }
    }

    /// A compaction error with this message.
    pub fn compaction<S: Into<String>>(message: S) -> (r: Self)
        ensures
            r matches StorageError::Compaction { message: m } && call_ensures(S::into, (message,), m),
    {
        StorageError::Compaction { message: message.into() }
    }

    /// A configuration error with this message.
    pub fn config<S: Into<String>>(message: S) -> (r: Self)
        ensures
            r matches StorageError::Config { message: m } && call_ensures(S::into, (message,), m),
    {
        StorageError::Config { message: message.into() }
    }

    /// A memory error with this message.
    pub fn memory<S: Into<String>>(message: S) -> (r: Self)
        ensures
            r matches StorageError::Memory { message: m } && call_ensures(S::into, (message,), m),
    {
        StorageError::Memory { message: message.into() }
    }

    /// An invalid operation error with this message.
    pub fn invalid_operation<S: Into<String>>(message: S) -> (r: Self)
        ensures
            r matches StorageError::InvalidOperation { message: m } && call_ensures(S::into, (message,), m),
    {
        StorageError::InvalidOperation { message: message.into() }
    }

    /// A thread pool error with this message.
    pub fn thread_pool<S: Into<String>>(message: S) -> (r: Self)
        ensures
            r matches StorageError::ThreadPool { message: m } && call_ensures(S::into, (message,), m),
    {
        StorageError::ThreadPool { message: message.into() }
    }

    /// A metrics error with this message.
    pub fn metrics<S: Into<String>>(message: S) -> (r: Self)
        ensures
            r matches StorageError::Metrics { message: m } && call_ensures(S::into, (message,), m),
    {
        StorageError::Metrics { message: message.into() }
    }

    /// A recovery error with this message.
    pub fn recovery<S: Into<String>>(message: S) -> (r: Self)
        ensures
            r matches StorageError::Recovery { message: m } && call_ensures(S::into, (message,), m),
    {
        StorageError::Recovery { message: message.into() }
    }

    /// An unknown error with this message.
    pub fn unknown<S: Into<String>>(message: S) -> (r: Self)
        ensures
            r matches StorageError::Unknown { message: m } && call_ensures(S::into, (message,), m),
    {
        StorageError::Unknown { message: message.into() }
    }

    /// An error about a file of the wrong format.
    pub fn invalid_file_format<S: Into<String>>(file_type: S, path: S) -> (r: Self)
        ensures
            r matches StorageError::InvalidFileFormat { file_type: t, path: p } && call_ensures(
                S::into,
                (file_type,),
                t,
            ) && call_ensures(S::into, (path,), p),
    {
        StorageError::InvalidFileFormat { file_type: file_type.into(), path: path.into() }
    }

    /// An operation took longer than `duration`.
    pub fn timeout(duration: std::time::Duration) -> (r: Self)
        ensures
            r == (StorageError::Timeout { duration }),
    {
        StorageError::Timeout { duration }
    }

    /// A resource is used up.
    pub fn resource_exhausted<S: Into<String>>(resource: S) -> (r: Self)
        ensures
            r matches StorageError::ResourceExhausted { resource: m } && call_ensures(
                S::into,
                (resource,),
                m,
            ),
    {
        StorageError::ResourceExhausted { resource: resource.into() }
    }

    /// Whether the operation may be tried again.
    pub fn is_retryable(&self) -> (r: bool)
        ensures
            r == self.retryable(),
    {
        match self {
            StorageError::Io(_)
            | StorageError::LockFailed { .. }
            | StorageError::Timeout { .. }
            | StorageError::ResourceExhausted { .. }
            | StorageError::TooManyFiles { .. }
            | StorageError::ThreadPool { .. } => true,
            _ => false,
        }
    }

    /// Whether stored data was found to be damaged.
    pub fn is_corrupt(&self) -> (r: bool)
        ensures
            r == self.corrupt(),
    {
        match self {
            StorageError::Corruption { .. }
            | StorageError::ChecksumMismatch { .. }
            | StorageError::InvalidFileFormat { .. } => true,
            _ => false,
        }
    }

    /// Whether the caller is at fault.
    pub fn is_client_error(&self) -> (r: bool)
        ensures
            r == self.client_fault(),
    {
        match self {
            StorageError::InvalidKeySize { .. }
            | StorageError::InvalidValueSize { .. }
            | StorageError::KeyNotFound
            | StorageError::ReadOnly
            | StorageError::Closed
            | StorageError::InvalidOperation { .. }
            | StorageError::Config { .. } => true,
            _ => false,
        }
    }

    /// Whether the system is at fault.
    pub fn is_server_error(&self) -> (r: bool)
        ensures
            r == self.server_fault(),
    {
        match self {
            StorageError::Io(_)
            | StorageError::Serialization(_)
            | StorageError::MessagePack(_)
            | StorageError::MessagePackDecode(_)
            | StorageError::Compression { .. }
            | StorageError::Decompression { .. }
            | StorageError::Corruption { .. }
            | StorageError::LockFailed { .. }
            | StorageError::Wal { .. }
            | StorageError::Compaction { .. }
            | StorageError::Memory { .. }
            | StorageError::TooManyFiles { .. }
            | StorageError::Timeout { .. }
            | StorageError::ResourceExhausted { .. }
            | StorageError::ThreadPool { .. }
            | StorageError::Metrics { .. }
            | StorageError::Recovery { .. }
            | StorageError::Unknown { .. } => true,
            _ => false,
        }
    }

    /// The name of the variant, in lower case.
    pub fn category(&self) -> (r: &'static str)
        ensures
            r@ == self.category_name(),
    {
        match self {
            StorageError::Io(_) => "io",
            StorageError::Serialization(_) => "serialization",
            StorageError::MessagePack(_) => "messagepack",
            StorageError::MessagePackDecode(_) => "messagepack_decode",
            StorageError::Compression { .. } => "compression",
            StorageError::Decompression { .. } => "decompression",
            StorageError::ChecksumMismatch { .. } => "checksum",
            StorageError::InvalidKeySize { .. } => "invalid_key_size",
            StorageError::InvalidValueSize { .. } => "invalid_value_size",
            StorageError::Corruption { .. } => "corruption",
            StorageError::LockFailed { .. } => "lock_failed",
            StorageError::Wal { .. } => "wal",
            StorageError::Compaction { .. } => "compaction",
            StorageError::Config { .. } => "config",
            StorageError::Memory { .. } => "memory",
            StorageError::TooManyFiles { .. } => "too_many_files",
            StorageError::InvalidFileFormat { .. } => "invalid_file_format",
            StorageError::KeyNotFound => "key_not_found",
            StorageError::ReadOnly => "read_only",
            StorageError::Timeout { .. } => "timeout",
            StorageError::Closed => "closed",
            StorageError::ResourceExhausted { .. } => "resource_exhausted",
            StorageError::InvalidOperation { .. } => "invalid_operation",
            StorageError::ThreadPool { .. } => "thread_pool",
            StorageError::Metrics { .. } => "metrics",
            StorageError::Recovery { .. } => "recovery",
            StorageError::Unknown { .. } => "unknown",
        }
    }
}

/// Law: no error is both the caller's fault and the system's.
pub proof fn law_one_side_is_at_fault(e: StorageError)
    ensures
        !(e.client_fault() && e.server_fault()),
        !(e.client_fault() || e.server_fault()) <==> (e is ChecksumMismatch
            || e is InvalidFileFormat),
{
}

/// Law: only a system's error may be tried again, and a damaged file is never the caller's fault
/// nor worth another try.
pub proof fn law_retry_and_damage(e: StorageError)
    ensures
        e.retryable() ==> e.server_fault(),
        e.corrupt() ==> !e.client_fault() && !e.retryable(),
{
}

impl From<std::io::Error> for StorageError {
    fn from(value: std::io::Error) -> (r: Self) {
        StorageError::Io(value)
    }
}

impl vstd::std_specs::convert::FromSpecImpl<std::io::Error> for StorageError {
    open spec fn obeys_from_spec() -> bool {
        true
    }

    open spec fn from_spec(v: std::io::Error) -> Self {
        StorageError::Io(v)
    }
}

impl From<BincodeError> for StorageError {
    fn from(value: BincodeError) -> (r: Self) {
        StorageError::Serialization(value)
    }
}

impl vstd::std_specs::convert::FromSpecImpl<BincodeError> for StorageError {
    open spec fn obeys_from_spec() -> bool {
        true
    }

    open spec fn from_spec(v: BincodeError) -> Self {
        StorageError::Serialization(v)
    }
}

impl From<rmp_serde::encode::Error> for StorageError {
    fn from(value: rmp_serde::encode::Error) -> (r: Self) {
        StorageError::MessagePack(value)
    }
}

impl vstd::std_specs::convert::FromSpecImpl<rmp_serde::encode::Error> for StorageError {
    open spec fn obeys_from_spec() -> bool {
        true
    }

    open spec fn from_spec(v: rmp_serde::encode::Error) -> Self {
        StorageError::MessagePack(v)
    }
}

impl From<rmp_serde::decode::Error> for StorageError {
    fn from(value: rmp_serde::decode::Error) -> (r: Self) {
        StorageError::MessagePackDecode(value)
    }
}

impl vstd::std_specs::convert::FromSpecImpl<rmp_serde::decode::Error> for StorageError {
    open spec fn obeys_from_spec() -> bool {
        true
    }

    open spec fn from_spec(v: rmp_serde::decode::Error) -> Self {
        StorageError::MessagePackDecode(v)
    }
}

impl From<std::io::ErrorKind> for StorageError {
    fn from(value: std::io::ErrorKind) -> (r: Self) {
        StorageError::Io(std::io::Error::from(value))
    }
}

impl vstd::std_specs::convert::FromSpecImpl<std::io::ErrorKind> for StorageError {
    open spec fn obeys_from_spec() -> bool {
        true
    }

    open spec fn from_spec(v: std::io::ErrorKind) -> Self {
        StorageError::Io(io_error_of_kind(v))
    }
}

impl From<tokio::sync::AcquireError> for StorageError {
    fn from(_value: tokio::sync::AcquireError) -> (r: Self)
        ensures
            r matches StorageError::LockFailed { message } && message@ == "failed to acquire lock"@,
    {
        StorageError::lock_failed("failed to acquire lock")
    }
}

impl vstd::std_specs::convert::FromSpecImpl<tokio::sync::AcquireError> for StorageError {
    open spec fn obeys_from_spec() -> bool {
        false
    }

    open spec fn from_spec(v: tokio::sync::AcquireError) -> Self {
        arbitrary()
    }
}

impl<T> From<crossbeam_channel::SendError<T>> for StorageError {
    fn from(_value: crossbeam_channel::SendError<T>) -> (r: Self)
        ensures
            r matches StorageError::ThreadPool { message } && message@ == "failed to send message to thread pool"@,
    {
        StorageError::thread_pool("failed to send message to thread pool")
    }
}

impl<T> vstd::std_specs::convert::FromSpecImpl<crossbeam_channel::SendError<T>> for StorageError {
    open spec fn obeys_from_spec() -> bool {
        false
    }

    open spec fn from_spec(v: crossbeam_channel::SendError<T>) -> Self {
        arbitrary()
    }
}

impl From<crossbeam_channel::RecvError> for StorageError {
    fn from(_value: crossbeam_channel::RecvError) -> (r: Self)
        ensures
            r matches StorageError::ThreadPool { message } && message@ == "failed to receive message from thread pool"@,
    {
        StorageError::thread_pool("failed to receive message from thread pool")
    }
}

impl vstd::std_specs::convert::FromSpecImpl<crossbeam_channel::RecvError> for StorageError {
    open spec fn obeys_from_spec() -> bool {
        false
    }

    open spec fn from_spec(v: crossbeam_channel::RecvError) -> Self {
        arbitrary()
    }
}

impl From<crossbeam_channel::RecvTimeoutError> for StorageError {
    fn from(err: crossbeam_channel::RecvTimeoutError) -> (r: Self)
        ensures
            match err {
                crossbeam_channel::RecvTimeoutError::Timeout => r == (StorageError::Timeout {
                    duration: duration_of_secs(1),
                }),
                crossbeam_channel::RecvTimeoutError::Disconnected => r matches StorageError::ThreadPool {
                    message,
                } && message@ == "channel disconnected"@,
            },
    {
        match err {
            crossbeam_channel::RecvTimeoutError::Timeout => {
                StorageError::timeout(std::time::Duration::from_secs(1))
            },
            crossbeam_channel::RecvTimeoutError::Disconnected => {
                StorageError::thread_pool("channel disconnected")
            },
        }
    }
}

impl vstd::std_specs::convert::FromSpecImpl<crossbeam_channel::RecvTimeoutError> for StorageError {
    open spec fn obeys_from_spec() -> bool {
        false
    }

    open spec fn from_spec(v: crossbeam_channel::RecvTimeoutError) -> Self {
        arbitrary()
    }
}

/// Whether two errors are of one variant, whatever they hold.
pub open spec fn same_variant(a: StorageError, b: StorageError) -> bool {
    match a {
        StorageError::Io(_) => b is Io,
        StorageError::Serialization(_) => b is Serialization,
        StorageError::MessagePack(_) => b is MessagePack,
        StorageError::MessagePackDecode(_) => b is MessagePackDecode,
        StorageError::Compression { .. } => b is Compression,
        StorageError::Decompression { .. } => b is Decompression,
        StorageError::ChecksumMismatch { .. } => b is ChecksumMismatch,
        StorageError::InvalidKeySize { .. } => b is InvalidKeySize,
        StorageError::InvalidValueSize { .. } => b is InvalidValueSize,
        StorageError::Corruption { .. } => b is Corruption,
        StorageError::LockFailed { .. } => b is LockFailed,
        StorageError::Wal { .. } => b is Wal,
        StorageError::Compaction { .. } => b is Compaction,
        StorageError::Config { .. } => b is Config,
        StorageError::Memory { .. } => b is Memory,
        StorageError::TooManyFiles { .. } => b is TooManyFiles,
        StorageError::InvalidFileFormat { .. } => b is InvalidFileFormat,
        StorageError::KeyNotFound => b is KeyNotFound,
        StorageError::ReadOnly => b is ReadOnly,
        StorageError::Timeout { .. } => b is Timeout,
        StorageError::Closed => b is Closed,
        StorageError::ResourceExhausted { .. } => b is ResourceExhausted,
        StorageError::InvalidOperation { .. } => b is InvalidOperation,
        StorageError::ThreadPool { .. } => b is ThreadPool,
        StorageError::Metrics { .. } => b is Metrics,
        StorageError::Recovery { .. } => b is Recovery,
        StorageError::Unknown { .. } => b is Unknown,
    }
}

/// Law: the categories of two errors have the same name exactly where they are of one variant.
pub proof fn law_categories_differ(a: StorageError, b: StorageError)
    ensures
        a.category_name() == b.category_name() <==> same_variant(a, b),
{
    reveal_strlit("io");
    reveal_strlit("serialization");
    reveal_strlit("messagepack");
    reveal_strlit("messagepack_decode");
    reveal_strlit("compression");
    reveal_strlit("decompression");
    reveal_strlit("checksum");
    reveal_strlit("invalid_key_size");
    reveal_strlit("invalid_value_size");
    reveal_strlit("corruption");
    reveal_strlit("lock_failed");
    reveal_strlit("wal");
    reveal_strlit("compaction");
    reveal_strlit("config");
    reveal_strlit("memory");
    reveal_strlit("too_many_files");
    reveal_strlit("invalid_file_format");
    reveal_strlit("key_not_found");
    reveal_strlit("read_only");
    reveal_strlit("timeout");
    reveal_strlit("closed");
    reveal_strlit("resource_exhausted");
    reveal_strlit("invalid_operation");
    reveal_strlit("thread_pool");
    reveal_strlit("metrics");
    reveal_strlit("recovery");
    reveal_strlit("unknown");
    let x = a.category_name();
    let y = b.category_name();
    assert(x == y ==> x.len() == y.len() && x[0] == y[0] && x[1] == y[1] && x[2] == y[2]);
    match a {
        StorageError::Io(_) => {},
        StorageError::Serialization(_) => {},
        StorageError::MessagePack(_) => {},
        StorageError::MessagePackDecode(_) => {},
        StorageError::Compression { .. } => {},
        StorageError::Decompression { .. } => {},
        StorageError::ChecksumMismatch { .. } => {},
        StorageError::InvalidKeySize { .. } => {},
        StorageError::InvalidValueSize { .. } => {},
        StorageError::Corruption { .. } => {},
        StorageError::LockFailed { .. } => {},
        StorageError::Wal { .. } => {},
        StorageError::Compaction { .. } => {},
        StorageError::Config { .. } => {},
        StorageError::Memory { .. } => {},
        StorageError::TooManyFiles { .. } => {},
        StorageError::InvalidFileFormat { .. } => {},
        StorageError::KeyNotFound => {},
        StorageError::ReadOnly => {},
        StorageError::Timeout { .. } => {},
        StorageError::Closed => {},
        StorageError::ResourceExhausted { .. } => {},
        StorageError::InvalidOperation { .. } => {},
        StorageError::ThreadPool { .. } => {},
        StorageError::Metrics { .. } => {},
        StorageError::Recovery { .. } => {},
        StorageError::Unknown { .. } => {},
    }
}

/// Law: an operation may be tried again exactly where what stood in its way may pass: a failure of a
/// device, a lock, a time limit, a resource or open files that ran out, or of a pool of threads.
/// Stored data is damaged exactly where it, its checksum or its format is wrong. The caller is at
/// fault exactly where what was asked for is not allowed.
pub proof fn law_faults_are_told_apart(e: StorageError)
    ensures
        e.retryable() <==> e is Io || e is LockFailed || e is Timeout || e is ResourceExhausted
            || e is TooManyFiles || e is ThreadPool,
        e.corrupt() <==> e is Corruption || e is ChecksumMismatch || e is InvalidFileFormat,
        e.client_fault() <==> e is InvalidKeySize || e is InvalidValueSize || e is KeyNotFound
            || e is ReadOnly || e is Closed || e is InvalidOperation || e is Config,
{
}

/// Law: what is seen of an error is its variant and all that it holds.
pub proof fn law_errors_are_seen_whole(e: StorageError)
    ensures
        match e {
            StorageError::Io(cause) => e@ == ErrorView::Io(cause),
            StorageError::Serialization(cause) => e@ == ErrorView::Serialization(cause),
            StorageError::MessagePack(cause) => e@ == ErrorView::MessagePack(cause),
            StorageError::MessagePackDecode(cause) => e@ == ErrorView::MessagePackDecode(cause),
            StorageError::Compression { message } => e@ == (ErrorView::Compression { message: message@ }),
            StorageError::Decompression { message } => e@ == (ErrorView::Decompression { message: message@ }),
            StorageError::ChecksumMismatch { expected, actual } => e@ == (ErrorView::ChecksumMismatch { expected, actual }),
            StorageError::InvalidKeySize { size, max_size } => e@ == (ErrorView::InvalidKeySize { size, max_size }),
            StorageError::InvalidValueSize { size, max_size } => e@ == (ErrorView::InvalidValueSize { size, max_size }),
            StorageError::Corruption { message } => e@ == (ErrorView::Corruption { message: message@ }),
            StorageError::LockFailed { message } => e@ == (ErrorView::LockFailed { message: message@ }),
            StorageError::Wal { message } => e@ == (ErrorView::Wal { message: message@ }),
            StorageError::Compaction { message } => e@ == (ErrorView::Compaction { message: message@ }),
            StorageError::Config { message } => e@ == (ErrorView::Config { message: message@ }),
            StorageError::Memory { message } => e@ == (ErrorView::Memory { message: message@ }),
            StorageError::TooManyFiles { current, max } => e@ == (ErrorView::TooManyFiles { current, max }),
            StorageError::InvalidFileFormat { file_type, path } => e@ == (ErrorView::InvalidFileFormat { file_type: file_type@, path: path@ }),
            StorageError::KeyNotFound => e@ == ErrorView::KeyNotFound,
            StorageError::ReadOnly => e@ == ErrorView::ReadOnly,
            StorageError::Timeout { duration } => e@ == (ErrorView::Timeout { duration }),
            StorageError::Closed => e@ == ErrorView::Closed,
            StorageError::ResourceExhausted { resource } => e@ == (ErrorView::ResourceExhausted { resource: resource@ }),
            StorageError::InvalidOperation { message } => e@ == (ErrorView::InvalidOperation { message: message@ }),
            StorageError::ThreadPool { message } => e@ == (ErrorView::ThreadPool { message: message@ }),
            StorageError::Metrics { message } => e@ == (ErrorView::Metrics { message: message@ }),
            StorageError::Recovery { message } => e@ == (ErrorView::Recovery { message: message@ }),
            StorageError::Unknown { message } => e@ == (ErrorView::Unknown { message: message@ }),
        },
{
}

} // verus!
