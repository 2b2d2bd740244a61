use justdb::codec::{
    compress, compression_result, decompress, decompression_result, lz4_lengths_are_held,
    verify_checksum,
};
use justdb::config::CompressionType;
use justdb::sstable::reader::unframe;
use justdb::StorageError;

#[test]
fn checksums_are_compared() {
    assert!(verify_checksum(5, 5).is_ok());
    match verify_checksum(5, 6) {
        Err(StorageError::ChecksumMismatch { expected, actual }) => {
            assert_eq!((expected, actual), (5, 6))
        }
        other => panic!("{other:?}"),
    }
}

#[test]
fn blocks_are_decompressed_to_themselves() {
    let data: Vec<u8> = (0..5000u32).map(|i| (i / 7) as u8).collect();
    for compression in [
        CompressionType::Uncompressed,
        CompressionType::Lz4,
        CompressionType::Zstd,
    ] {
        let packed = compress(compression, 3, &data).unwrap();
        assert_eq!(packed == data, compression == CompressionType::Uncompressed);
        assert_eq!(decompress(compression, &packed).unwrap(), data);
    }
}

#[test]
fn outcomes_name_their_format() {
    assert_eq!(decompression_result(Ok(vec![1]), "X: ").unwrap(), vec![1]);
    match decompression_result(Err("bad".to_string()), "X: ") {
        Err(StorageError::Decompression { message }) => assert_eq!(message, "X: bad"),
        other => panic!("{other:?}"),
    }
    assert_eq!(compression_result(Ok(vec![1]), "X: ").unwrap(), vec![1]);
    match compression_result(Err("bad".to_string()), "X: ") {
        Err(StorageError::Compression { message }) => assert_eq!(message, "X: bad"),
        other => panic!("{other:?}"),
    }
}

#[test]
fn long_runs_spell_lengths_that_do_not_fit() {
    let mut data = vec![255u8; 0x101_0101 + 4];
    data[..4].copy_from_slice(&[1, 0, 0, 0]);
    assert!(!lz4_lengths_are_held(&data));
    match decompress(CompressionType::Lz4, &data) {
        Err(StorageError::Decompression { message }) => {
            assert_eq!(message, "LZ4 decompression failed: length out of range")
        }
        other => panic!("{other:?}"),
    }
    data[100] = 0;
    assert!(lz4_lengths_are_held(&data));
    assert!(decompress(CompressionType::Lz4, &data).is_err());
    assert!(lz4_lengths_are_held(&[]));
}

#[test]
fn frames_hold_a_checksum() {
    let body = b"some bytes";
    let mut frame = crc32fast::hash(body).to_le_bytes().to_vec();
    frame.extend_from_slice(body);
    assert_eq!(unframe(&frame, CompressionType::Uncompressed).unwrap(), body);
    frame[6] ^= 1;
    assert!(matches!(
        unframe(&frame, CompressionType::Uncompressed),
        Err(StorageError::ChecksumMismatch { .. })
    ));
    match unframe(&[1, 2, 3], CompressionType::Uncompressed) {
        Err(StorageError::Corruption { message }) => {
            assert_eq!(message.trim(), "block too small to contain checksum")
        }
        other => panic!("{other:?}"),
    }
}
