use justdb::serialization::utils::{deseriaze, serialize, serialized_sized};
use justdb::serialization::{Deserializer, Serializer};
use justdb::StorageError;

fn corruption(e: StorageError) -> String {
    match e {
        StorageError::Corruption { message } => message,
        other => panic!("{other:?}"),
    }
}

#[test]
fn fixed_width_numbers_are_little_endian() {
    let mut out = Serializer::new();
    out.write_u8(7);
    out.write_u16(0x0102);
    out.write_u32(0x0304_0506);
    out.write_u64(0x0708_090A_0B0C_0D0E);
    assert_eq!(out.size(), 15);
    assert_eq!(out.as_slice()[..3], [7, 2, 1]);
    assert_eq!(
        out.finish(),
        vec![7, 2, 1, 6, 5, 4, 3, 14, 13, 12, 11, 10, 9, 8, 7]
    );
}

#[test]
fn fixed_width_numbers_are_read_back() {
    let mut out = Serializer::default();
    out.write_u8(255);
    out.write_u16(65535);
    out.write_u32(4_000_000_000);
    out.write_u64(u64::MAX);
    let bytes = out.finish();
    let mut d = Deserializer::new(&bytes);
    assert_eq!(d.peek_u8().unwrap(), 255);
    assert_eq!(d.read_u8().unwrap(), 255);
    assert_eq!(d.read_u16().unwrap(), 65535);
    assert_eq!(d.read_u32().unwrap(), 4_000_000_000);
    assert_eq!(d.read_u64().unwrap(), u64::MAX);
    assert!(d.is_eof());
    assert_eq!(d.position(), 15);
    assert_eq!(corruption(d.read_u8().unwrap_err()), "unexpected end of data");
    assert_eq!(corruption(d.peek_u8().unwrap_err()), "unexpected end of data");
}

#[test]
fn a_short_read_leaves_the_position() {
    let bytes = [1, 2, 3];
    let mut d = Deserializer::new(&bytes);
    assert_eq!(corruption(d.read_u32().unwrap_err()), "unexpected end of data");
    assert_eq!(corruption(d.read_u64().unwrap_err()), "unexpected end of data");
    assert_eq!(corruption(d.read_bytes(4).unwrap_err()), "unexpected end of data");
    assert_eq!(corruption(d.skip(usize::MAX).unwrap_err()), "unexpected end of data");
    assert_eq!(d.position(), 0);
    assert_eq!(d.read_u16().unwrap(), 0x0201);
    assert_eq!(d.remaining(), 1);
    assert_eq!(d.remaining_slice(), &[3]);
    d.skip(1).unwrap();
    assert!(d.is_eof());
}

#[test]
fn variable_ints_have_groups_of_seven_bits() {
    for (value, bytes) in [
        (0u64, vec![0u8]),
        (127, vec![127]),
        (128, vec![128, 1]),
        (300, vec![0xAC, 0x02]),
        (
            u64::MAX,
            vec![255, 255, 255, 255, 255, 255, 255, 255, 255, 1],
        ),
    ] {
        let mut out = Serializer::new();
        out.write_variable_int(value);
        assert_eq!(out.finish(), bytes);
        let mut with_tail = bytes.clone();
        with_tail.push(9);
        let mut d = Deserializer::new(&with_tail);
        assert_eq!(d.read_variable_int().unwrap(), value);
        assert_eq!(d.position(), bytes.len());
    }
}

#[test]
fn variable_ints_drop_what_does_not_fit() {
    let bytes = [255, 255, 255, 255, 255, 255, 255, 255, 255, 0x7F];
    let mut d = Deserializer::new(&bytes);
    assert_eq!(d.read_variable_int().unwrap(), u64::MAX);
}

#[test]
fn variable_ints_that_do_not_end_are_refused() {
    let long = [0x80; 11];
    let mut d = Deserializer::new(&long);
    assert_eq!(
        corruption(d.read_variable_int().unwrap_err()),
        "variable integer too long"
    );
    assert_eq!(d.position(), 10);
    let short = [0x80, 0x80];
    let mut d = Deserializer::new(&short);
    assert_eq!(
        corruption(d.read_variable_int().unwrap_err()),
        "unexpected end of data"
    );
    assert_eq!(d.position(), 2);
}

#[test]
fn texts_stand_behind_their_length() {
    let mut out = Serializer::new();
    out.write_string("h\u{e9}");
    let bytes = out.finish();
    assert_eq!(bytes, vec![3, 0, 0, 0, 0x68, 0xC3, 0xA9]);
    let mut d = Deserializer::new(&bytes);
    assert_eq!(d.read_string().unwrap(), "h\u{e9}");
    let mut d = Deserializer::new(&[1, 0, 0, 0, 0xFF]);
    assert_eq!(corruption(d.read_string().unwrap_err()), "Invalid UTF-8 string");
    let mut d = Deserializer::new(&[9, 0, 0, 0, 0x68]);
    assert_eq!(corruption(d.read_string().unwrap_err()), "unexpected end of data");
    assert_eq!(d.position(), 4);
}

#[test]
fn values_are_written_and_read_by_their_traits() {
    assert_eq!(serialize(&7u8).unwrap(), vec![7]);
    assert_eq!(serialize(&7u16).unwrap(), vec![7, 0]);
    assert_eq!(serialize(&7u32).unwrap(), vec![7, 0, 0, 0]);
    assert_eq!(serialize(&7u64).unwrap(), vec![7, 0, 0, 0, 0, 0, 0, 0]);
    assert_eq!(serialize(&vec![1u8, 2]).unwrap(), vec![2, 0, 0, 0, 1, 2]);
    assert_eq!(serialized_sized(&"abc".to_string()).unwrap(), 7);
    let bytes = serialize(&"abc".to_string()).unwrap();
    assert_eq!(deseriaze::<String>(&bytes).unwrap(), "abc");
    let bytes = serialize(&vec![5u8; 3]).unwrap();
    assert_eq!(deseriaze::<Vec<u8>>(&bytes).unwrap(), vec![5, 5, 5]);
    assert_eq!(deseriaze::<u64>(&[1, 0, 0, 0, 0, 0, 0, 0]).unwrap(), 1);
    assert_eq!(deseriaze::<u16>(&[1, 2]).unwrap(), 0x0201);
    assert_eq!(deseriaze::<u32>(&[1, 2, 0, 0]).unwrap(), 0x0201);
    assert_eq!(deseriaze::<u8>(&[4]).unwrap(), 4);
    assert!(deseriaze::<Vec<u8>>(&[4, 0, 0, 0, 1]).is_err());
}
