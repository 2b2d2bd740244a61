//! Checksums and compression of blocks.
use crate::config::CompressionType;
use crate::error::{ErrorView, Result, StorageError};
use crate::le::{get_le, le_value, lemma_byte_ranges};
use vstd::prelude::*;

verus! {

/// The bytes or the text of an outcome.
pub open spec fn outcome_view(
    outcome: std::result::Result<Vec<u8>, String>,
) -> std::result::Result<Seq<u8>, Seq<char>> {
    match outcome {
        Ok(bytes) => Ok(bytes@),
        Err(text) => Err(text@),
    }
}

/// Whether `outcome` is a success with exactly these bytes.
pub open spec fn yields(
    outcome: std::result::Result<Seq<u8>, Seq<char>>,
    bytes: Seq<u8>,
) -> bool {
    outcome matches Ok(b) && b == bytes
}

/// The CRC-32 checksum of `data`.
pub uninterp spec fn crc32(data: Seq<u8>) -> u32;

/// `crc32fast::hash`: the checksum of the data, a function of its bytes.
#[verifier::external_body]
pub(crate) fn checksum(data: &[u8]) -> (r: u32)
    ensures
        r == crc32(data@),
{
    crc32fast::hash(data)
}

/// Compares a stored checksum with that of the data.
pub fn verify_checksum(stored: u32, computed: u32) -> (r: Result<()>)
    ensures
        match r {
            Ok(_) => stored == computed,
            Err(e) => stored != computed && e@ == (ErrorView::ChecksumMismatch {
                expected: stored,
                actual: computed,
            }),
        },
{
    if stored != computed {
        Err(StorageError::ChecksumMismatch { expected: stored, actual: computed })
    } else {
        Ok(())
    }
}

/// From how many bytes of 255 on, one behind the other, a length of the LZ4 format, which is a sum
/// of such bytes, can no longer be held: in 32 bits on a machine with wider words, and as an offset
/// behind other bytes on one with words of 32 bits.
pub open spec fn lz4_run_limit() -> nat {
    if usize::MAX > u32::MAX {
        0x101_0101
    } else {
        0x80_0000
    }
}

/// From how many bytes of 255 on, one behind the other, a length can no longer be held.
fn run_limit() -> (r: usize)
    ensures
        r == lz4_run_limit(),
{
    if usize::MAX as u64 > u32::MAX as u64 {
        0x101_0101
    } else {
        0x80_0000
    }
}

/// Whether `n` bytes of 255 stand in `data` from `at` on.
pub open spec fn run_at(data: Seq<u8>, at: int, n: int) -> bool {
    0 <= at && at + n <= data.len() && forall|i: int| at <= i < at + n ==> data[i] == 255
}

/// Whether LZ4 data announces a length that can be held, and no part of it spells out a length
/// that cannot.
pub open spec fn lz4_lengths_fit(data: Seq<u8>) -> bool {
    &&& data.len() >= 4 ==> le_value(data.take(4)) <= isize::MAX
    &&& forall|at: int| !(#[trigger] run_at(data, at, lz4_run_limit() as int))
}

/// What the LZ4 data `data`, behind the length of what it stands for, stands for; or the text that
/// says what is wrong with it.
pub uninterp spec fn lz4_decompressed(data: Seq<u8>) -> std::result::Result<Seq<u8>, Seq<char>>;

/// `lz4_flex::decompress_size_prepended`: a function of the data. Data that fits in memory but
/// whose lengths do not is left out: their sum would overflow.
#[verifier::external_body]
pub(crate) fn lz4_decompress(data: &[u8]) -> (r: std::result::Result<Vec<u8>, String>)
    requires
        lz4_lengths_fit(data@),
    ensures
        outcome_view(r) == lz4_decompressed(data@),
{
    lz4_flex::decompress_size_prepended(data).map_err(|e| e.to_string())
}

/// `lz4_flex::compress_prepend_size`: data behind four bytes that hold the length of `data`, or its
/// low-order bits; it decompresses to `data` where they hold all of it. Which of the possible data
/// it is depends on the machine. It is never longer than the bound that the output is allocated
/// with, whose computation does not overflow for the lengths that are admitted.
#[verifier::external_body]
pub(crate) fn lz4_compress(data: &[u8]) -> (r: Vec<u8>)
    requires
        data.len() <= lz4_limit(),
    ensures
        data@.len() <= u32::MAX ==> yields(lz4_decompressed(r@), data@),
        le_value(r@.take(4)) == data@.len() % 0x1_0000_0000,
        4 <= r@.len() <= data@.len() * 110 / 100 + 24,
{
    lz4_flex::compress_prepend_size(data)
}

/// What the Zstandard data `data` stands for where it has at most `capacity` bytes, or the text
/// that says what is wrong.
pub uninterp spec fn zstd_decompressed(
    data: Seq<u8>,
    capacity: usize,
) -> std::result::Result<Seq<u8>, Seq<char>>;

/// `zstd::bulk::decompress`: a function of the data and the capacity.
#[verifier::external_body]
pub(crate) fn zstd_decompress(data: &[u8], capacity: usize) -> (r: std::result::Result<
    Vec<u8>,
    String,
>)
    requires
        capacity <= isize::MAX,
    ensures
        outcome_view(r) == zstd_decompressed(data@, capacity),
{
    zstd::bulk::decompress(data, capacity).map_err(|e| e.to_string())
}

/// The Zstandard data for `data` at a level, or the text that says what went wrong.
pub uninterp spec fn zstd_compressed(
    data: Seq<u8>,
    level: i32,
) -> std::result::Result<Seq<u8>, Seq<char>>;

/// `zstd::bulk::compress`: a function of the data and the level, which decompresses to the data
/// wherever the capacity is large enough.
#[verifier::external_body]
pub(crate) fn zstd_compress(data: &[u8], level: i32) -> (r: std::result::Result<Vec<u8>, String>)
    requires
        data.len() <= zstd_limit(),
    ensures
        outcome_view(r) == zstd_compressed(data@, level),
        r is Ok ==> forall|capacity: usize|
            data@.len() <= capacity <= isize::MAX ==> yields(
                #[trigger] zstd_decompressed(r->Ok_0@, capacity),
                data@,
            ),
{
    zstd::bulk::compress(data, level).map_err(|e| e.to_string())
}

/// The bytes that a block may have after Zstandard decompression.
pub const ZSTD_CAPACITY: usize = 16384;

/// The first part of the message where LZ4 decompression fails.
pub open spec fn lz4_failed() -> Seq<char> {
    "LZ4 decompression failed: "@
}

/// What follows it where a length does not fit.
pub open spec fn length_out_of_range() -> Seq<char> {
    "length out of range"@
}

/// What the compressed block `data` stands for, or the error.
pub open spec fn decompressed(
    compression: CompressionType,
    data: Seq<u8>,
) -> std::result::Result<Seq<u8>, ErrorView> {
    match compression {
        CompressionType::Uncompressed => Ok(data),
        CompressionType::Lz4 => if lz4_lengths_fit(data) {
            decompression_outcome(lz4_decompressed(data), lz4_failed())
        } else {
            Err(ErrorView::Decompression { message: lz4_failed() + length_out_of_range() })
        },
        CompressionType::Zstd => decompression_outcome(
            zstd_decompressed(data, ZSTD_CAPACITY),
            "Zstd decompression failed: "@,
        ),
    }
}

/// An outcome of decompression, with the error that reports a failure.
pub open spec fn decompression_outcome(
    outcome: std::result::Result<Seq<u8>, Seq<char>>,
    prefix: Seq<char>,
) -> std::result::Result<Seq<u8>, ErrorView> {
    match outcome {
        Ok(bytes) => Ok(bytes),
        Err(text) => Err(ErrorView::Decompression { message: prefix + text }),
    }
}

/// An outcome of compression, with the error that reports a failure.
pub open spec fn compression_outcome(
    outcome: std::result::Result<Seq<u8>, Seq<char>>,
    prefix: Seq<char>,
) -> std::result::Result<Seq<u8>, ErrorView> {
    match outcome {
        Ok(bytes) => Ok(bytes),
        Err(text) => Err(ErrorView::Compression { message: prefix + text }),
    }
}

/// The longest block for which the room that LZ4 compression needs can be computed.
pub open spec fn lz4_limit() -> int {
    usize::MAX as int / 110
}

/// The longest block for which the room that Zstandard compression needs can be had.
pub open spec fn zstd_limit() -> int {
    isize::MAX - isize::MAX as int / 256
}

/// Whether compressing the block `data` may give `r`.
pub open spec fn compresses_to(
    compression: CompressionType,
    level: i32,
    data: Seq<u8>,
    r: std::result::Result<Seq<u8>, ErrorView>,
) -> bool {
    match compression {
        CompressionType::Uncompressed => r == Ok::<Seq<u8>, ErrorView>(data),
        CompressionType::Lz4 => if data.len() > lz4_limit() {
            r == Err::<Seq<u8>, ErrorView>(too_large())
        } else {
            &&& r is Ok
            &&& data.len() <= u32::MAX ==> yields(lz4_decompressed(r->Ok_0), data)
            &&& le_value(r->Ok_0.take(4)) == data.len() % 0x1_0000_0000
            &&& 4 <= r->Ok_0.len() <= data.len() * 110 / 100 + 24
        },
        CompressionType::Zstd => if data.len() > zstd_limit() {
            r == Err::<Seq<u8>, ErrorView>(too_large())
        } else {
            &&& r == compression_outcome(
                zstd_compressed(data, level),
                "Zstd compression failed: "@,
            )
            &&& r is Ok ==> forall|capacity: usize|
                data.len() <= capacity <= isize::MAX ==> yields(
                    #[trigger] zstd_decompressed(r->Ok_0, capacity),
                    data,
                )
        },
    }
}

/// The error for a block that is too large to be compressed.
pub open spec fn too_large() -> ErrorView {
    ErrorView::Compression { message: "block too large"@ }
}

/// Turns an outcome of decompression into a result whose error names the format.
pub fn decompression_result(
    outcome: std::result::Result<Vec<u8>, String>,
    prefix: &str,
) -> (r: Result<Vec<u8>>)
    ensures
        result_view(r) == decompression_outcome(outcome_view(outcome), prefix@),
{
    match outcome {
        Ok(bytes) => Ok(bytes),
        Err(text) => Err(
            StorageError::Decompression { message: prefix.to_string().concat(text.as_str()) },
        ),
    }
}

/// Turns an outcome of compression into a result whose error names the format.
pub fn compression_result(
    outcome: std::result::Result<Vec<u8>, String>,
    prefix: &str,
) -> (r: Result<Vec<u8>>)
    ensures
        result_view(r) == compression_outcome(outcome_view(outcome), prefix@),
{
    match outcome {
        Ok(bytes) => Ok(bytes),
        Err(text) => Err(
            StorageError::Compression { message: prefix.to_string().concat(text.as_str()) },
        ),
    }
}

/// The bytes or the error of a result.
pub open spec fn result_view(r: Result<Vec<u8>>) -> std::result::Result<Seq<u8>, ErrorView> {
    match r {
        Ok(bytes) => Ok(bytes@),
        Err(e) => Err(e@),
    }
}

/// Whether LZ4 data announces only lengths that can be held.
pub fn lz4_lengths_are_held(data: &[u8]) -> (r: bool)
    ensures
        r == lz4_lengths_fit(data@),
{
    if data.len() >= 4 {
        let size: u64 = get_le(data, 0, 4);
        assert(data@.subrange(0, 4) =~= data@.take(4));
        proof {
            lemma_byte_ranges();
        }
        if size > isize::MAX as u64 {
            return false;
        }
    }
    let limit: usize = run_limit();
    let mut run: usize = 0;
    let mut i: usize = 0;
    while i < data.len()
        invariant
            limit == lz4_run_limit(),
            i <= data.len(),
            run <= i,
            run < limit,
            run_at(data@, i - run, run as int),
            run < i ==> data@[i - run - 1] != 255,
            forall|at: int|
                at + limit <= i ==> !(#[trigger] run_at(data@, at, limit as int)),
            data@.len() >= 4 ==> le_value(data@.take(4)) <= isize::MAX,
        decreases data.len() - i,
    {
        if data[i] == 255 {
            run = run + 1;
            if run == limit {
                assert(run_at(data@, i + 1 - run, limit as int));
                return false;
            }
        } else {
            run = 0;
        }
        i = i + 1;
        assert forall|at: int| at + limit <= i implies !(#[trigger] run_at(
            data@,
            at,
            limit as int,
        )) by {
            if run_at(data@, at, limit as int) && at + limit == i {
                assert(data@[i - run - 1] == 255);
            }
        }
    }
    true
}

/// Decompresses a block.
pub fn decompress(compression: CompressionType, data: &[u8]) -> (r: Result<Vec<u8>>)
    ensures
        result_view(r) == decompressed(compression, data@),
{
    match compression {
        CompressionType::Uncompressed => Ok(crate::copy_bytes(data)),
        CompressionType::Lz4 => {
            if lz4_lengths_are_held(data) {
                decompression_result(lz4_decompress(data), "LZ4 decompression failed: ")
            } else {
                let message = "LZ4 decompression failed: ".to_string().concat(
                    "length out of range",
                );
                Err(StorageError::Decompression { message })
            }
        },
        CompressionType::Zstd => {
            decompression_result(
                zstd_decompress(data, ZSTD_CAPACITY),
                "Zstd decompression failed: ",
            )
        },
    }
}

/// Compresses a block.
pub fn compress(compression: CompressionType, level: i32, data: &[u8]) -> (r: Result<Vec<u8>>)
    ensures
        compresses_to(compression, level, data@, result_view(r)),
{
    match compression {
        CompressionType::Uncompressed => Ok(crate::copy_bytes(data)),
        CompressionType::Lz4 => {
            if data.len() > usize::MAX / 110 {
                return Err(StorageError::compression("block too large"));
            }
            Ok(lz4_compress(data))
        },
        CompressionType::Zstd => {
            if data.len() > isize::MAX as usize - isize::MAX as usize / 256 {
                return Err(StorageError::compression("block too large"));
            }
            compression_result(zstd_compress(data, level), "Zstd compression failed: ")
        },
    }
}

/// Whether a block of `len` bytes is read back after it was compressed.
pub open spec fn reads_back(compression: CompressionType, len: nat) -> bool {
    match compression {
        CompressionType::Uncompressed => true,
        CompressionType::Lz4 => len * 110 / 100 + 24 < lz4_run_limit(),
        CompressionType::Zstd => len <= ZSTD_CAPACITY,
    }
}

/// Law: a block that was compressed is decompressed to itself.
///
/// Left out are Zstandard blocks beyond the capacity that is set aside for them, and LZ4 blocks of
/// more than some 15 million bytes, or half of that on a machine with words of 32 bits.
pub proof fn law_compression_round_trip(
    compression: CompressionType,
    level: i32,
    data: Seq<u8>,
    c: Seq<u8>,
)
    requires
        compresses_to(compression, level, data, Ok(c)),
        reads_back(compression, data.len()),
    ensures
        decompressed(compression, c) == Ok::<Seq<u8>, ErrorView>(data),
{
    if compression == CompressionType::Lz4 {
        assert(data.len() <= lz4_limit());
    }
}

/// Law: every block that is not compressed is read back, every LZ4 block of up to fifteen million
/// bytes on a machine with words of 64 bits, of up to seven million on any, and every Zstandard block
/// of up to 16384 bytes.
pub proof fn law_usual_blocks_are_read_back(len: nat)
    ensures
        reads_back(CompressionType::Uncompressed, len),
        len <= 7_000_000 ==> reads_back(CompressionType::Lz4, len),
        len <= 15_000_000 && usize::MAX > u32::MAX ==> reads_back(CompressionType::Lz4, len),
        len <= 16384 ==> reads_back(CompressionType::Zstd, len),
{
}

/// Law: a block that is not compressed stands for itself, and is written as it is.
pub proof fn law_uncompressed_blocks_stay(
    data: Seq<u8>,
    level: i32,
    r: std::result::Result<Seq<u8>, ErrorView>,
)
    ensures
        decompressed(CompressionType::Uncompressed, data) == Ok::<Seq<u8>, ErrorView>(data),
        compresses_to(CompressionType::Uncompressed, level, data, r) <==> r == Ok::<
            Seq<u8>,
            ErrorView,
        >(data),
{
}

/// Law: what decompression gives is given on as it is, and its failure is reported with its own text;
/// LZ4 data is only refused before where it announces or spells out a length that cannot be held.
pub proof fn law_decompression_is_reported_as_it_is(data: Seq<u8>)
    ensures
        match zstd_decompressed(data, 16384) {
            Ok(b) => decompressed(CompressionType::Zstd, data) == Ok::<Seq<u8>, ErrorView>(b),
            Err(text) => decompressed(CompressionType::Zstd, data) matches Err(
                ErrorView::Decompression { message },
            ) && message == "Zstd decompression failed: "@ + text,
        },
        (data.len() < 4 || le_value(data.take(4)) <= isize::MAX) && data.len() < 0x80_0000
            ==> match lz4_decompressed(data) {
            Ok(b) => decompressed(CompressionType::Lz4, data) == Ok::<Seq<u8>, ErrorView>(b),
            Err(text) => decompressed(CompressionType::Lz4, data) matches Err(
                ErrorView::Decompression { message },
            ) && message == "LZ4 decompression failed: "@ + text,
        },
{
}

/// Law: LZ4 data is refused before it is read exactly where the length that it announces cannot be
/// held, or where as many bytes of 255 stand in a row as spell out a length that cannot.
pub proof fn law_only_impossible_lengths_are_refused(data: Seq<u8>, at: int, n: int)
    ensures
        usize::MAX > u32::MAX ==> lz4_run_limit() == 0x101_0101,
        usize::MAX == u32::MAX ==> lz4_run_limit() == 0x80_0000,
        !lz4_lengths_fit(data) <==> (data.len() >= 4 && le_value(data.take(4)) > isize::MAX)
            || exists|at: int| #[trigger] run_at(data, at, lz4_run_limit() as int),
        run_at(data, at, n) <==> 0 <= at && at + n <= data.len() && forall|i: int|
            at <= i < at + n ==> #[trigger] data[i] == 255,
{
}

/// Law: what is seen of a result is all of its bytes, or its error.
pub proof fn law_results_are_seen_whole(r: Result<Vec<u8>>)
    ensures
        match r {
            Ok(bytes) => result_view(r) == Ok::<Seq<u8>, ErrorView>(bytes@),
            Err(e) => result_view(r) == Err::<Seq<u8>, ErrorView>(e@),
        },
{
}

/// Law: compressing a block of up to 39 million bytes with LZ4 always succeeds; with Zstandard a block
/// of up to two thousand million bytes is refused only where the compression itself fails, and is what
/// the compression gives.
pub proof fn law_usual_blocks_are_compressed(
    data: Seq<u8>,
    level: i32,
    r: std::result::Result<Seq<u8>, ErrorView>,
)
    ensures
        data.len() <= 39_000_000 && compresses_to(CompressionType::Lz4, level, data, r) ==> r is Ok,
        data.len() <= 2_000_000_000 && compresses_to(CompressionType::Zstd, level, data, r)
            ==> match zstd_compressed(data, level) {
            Ok(b) => r == Ok::<Seq<u8>, ErrorView>(b),
            Err(text) => r matches Err(ErrorView::Compression { message }) && message
                == "Zstd compression failed: "@ + text,
        },
{
}

} // verus!
