use xelis_core::crypto::hash;
use xelis_core::serializer::codec::{from_bytes, from_hex, Serializer};
use xelis_core::serializer::error::ReaderError;
use xelis_core::serializer::reader::Reader;
use xelis_core::serializer::writer::Writer;

#[test]
fn writer_integers_are_big_endian() {
    let mut writer = Writer::new();
    writer.write_u8(0xab);
    writer.write_u16(0x0102);
    writer.write_u32(&0x03040506);
    writer.write_u64(&0x0708090a0b0c0d0e);
    writer.write_u128(&0x0f101112131415161718191a1b1c1d1e);
    assert_eq!(writer.total_write(), 1 + 2 + 4 + 8 + 16);
    let bytes = writer.bytes();
    let mut expected = vec![0xab, 1, 2, 3, 4, 5, 6, 7, 8, 9, 10, 11, 12, 13, 14];
    expected.extend(15u8..=30);
    assert_eq!(bytes, expected);
}

#[test]
fn writer_extremes() {
    let mut writer = Writer::new();
    writer.write_u64(&u64::MAX);
    writer.write_u64(&0);
    writer.write_u128(&u128::MAX);
    writer.write_u16(u16::MAX);
    let bytes = writer.bytes();
    assert_eq!(&bytes[0..8], &[0xff; 8]);
    assert_eq!(&bytes[8..16], &[0; 8]);
    assert_eq!(&bytes[16..32], &[0xff; 16]);
    assert_eq!(&bytes[32..34], &[0xff; 2]);
}

#[test]
fn writer_bool_and_bytes() {
    let mut writer = Writer::new();
    writer.write_bool(true);
    writer.write_bool(false);
    writer.write_bytes(&[5, 6, 7]);
    writer.write_hash(&hash::Hash::new([3u8; 32]));
    let bytes = writer.bytes();
    assert_eq!(&bytes[0..5], &[1, 0, 5, 6, 7]);
    assert_eq!(&bytes[5..], &[3u8; 32]);
}

#[test]
fn reader_reads_back_what_writer_wrote() {
    let mut writer = Writer::new();
    writer.write_u8(200);
    writer.write_u16(65535);
    writer.write_u64(&0x1122334455667788);
    writer.write_u128(&0x0102030405060708090a0b0c0d0e0f10);
    writer.write_bool(true);
    writer.write_hash(&hash::Hash::new([0xee; 32]));
    writer.write_bytes(&[4u8; 64]);
    let bytes = writer.bytes();
    let mut reader = Reader::new(&bytes);
    assert_eq!(reader.total_size(), bytes.len());
    assert_eq!(reader.read_u8(), Ok(200));
    assert_eq!(reader.total_read(), 1);
    assert_eq!(reader.read_u16(), Ok(65535));
    assert_eq!(reader.read_u64(), Ok(0x1122334455667788));
    assert_eq!(reader.read_u128(), Ok(0x0102030405060708090a0b0c0d0e0f10));
    assert_eq!(reader.read_bool(), Ok(true));
    assert_eq!(reader.read_hash(), Ok(hash::Hash::new([0xee; 32])));
    assert_eq!(reader.size(), 64);
    assert_eq!(reader.read_bytes_64(), Ok([4u8; 64]));
    assert_eq!(reader.size(), 0);
    assert_eq!(reader.total_read(), bytes.len());
}

#[test]
fn reader_truncated_leaves_position() {
    let bytes = [1u8, 2, 3];
    let mut reader = Reader::new(&bytes);
    assert_eq!(reader.read_u64(), Err(ReaderError::Truncated));
    assert_eq!(reader.total_read(), 0);
    assert_eq!(reader.read_u16(), Ok(0x0102));
    assert_eq!(reader.read_u16(), Err(ReaderError::Truncated));
    assert_eq!(reader.read_bytes_32(), Err(ReaderError::Truncated));
    assert_eq!(reader.read_u8(), Ok(3));
    assert_eq!(reader.read_u8(), Err(ReaderError::Truncated));
    assert_eq!(reader.read_bool(), Err(ReaderError::Truncated));
}

#[test]
fn reader_bool_accepts_zero_and_one_only() {
    let bytes = [0u8, 1, 2, 255];
    let mut reader = Reader::new(&bytes);
    assert_eq!(reader.read_bool(), Ok(false));
    assert_eq!(reader.read_bool(), Ok(true));
    assert_eq!(reader.read_bool(), Err(ReaderError::InvalidValue));
    assert_eq!(reader.read_bool(), Err(ReaderError::InvalidValue));
}

#[test]
fn hash_round_trip_and_hex() {
    let mut bytes = [0u8; 32];
    for (i, b) in bytes.iter_mut().enumerate() {
        *b = (i * 8 + 1) as u8;
    }
    let value = hash::Hash::new(bytes);
    assert_eq!(value.to_bytes(), bytes);
    let encoded = Serializer::to_bytes(&value);
    assert_eq!(encoded, bytes.to_vec());
    let decoded: hash::Hash = from_bytes(&encoded).unwrap();
    assert_eq!(decoded, value);
    assert_eq!(
        value.to_hex(),
        "0109111921293139414951596169717981899199a1a9b1b9c1c9d1d9e1e9f1f9"
    );
    assert_eq!(Serializer::to_hex(&value), value.to_hex());
    let from_text: hash::Hash = from_hex(&value.to_hex()).unwrap();
    assert_eq!(from_text, value);
    let upper: hash::Hash = from_hex(&value.to_hex().to_uppercase()).unwrap();
    assert_eq!(upper, value);
}

#[test]
fn hash_zero_is_all_zero() {
    assert_eq!(hash::Hash::zero().to_bytes(), [0u8; 32]);
    assert!(hash::Hash::zero().same(&hash::Hash::new([0u8; 32])));
    assert!(!hash::Hash::zero().same(&hash::Hash::new([1u8; 32])));
}

#[test]
fn from_hex_refuses_bad_text() {
    let odd: Result<hash::Hash, ReaderError> = from_hex("abc");
    assert_eq!(odd, Err(ReaderError::InvalidHex));
    let not_hex: Result<hash::Hash, ReaderError> = from_hex("zz");
    assert_eq!(not_hex, Err(ReaderError::InvalidHex));
    let short: Result<hash::Hash, ReaderError> = from_hex("abcd");
    assert_eq!(short, Err(ReaderError::Truncated));
}

#[test]
fn option_encoding() {
    let some = Some(hash::Hash::new([7u8; 32]));
    let bytes = some.to_bytes();
    assert_eq!(bytes.len(), 33);
    assert_eq!(bytes[0], 1);
    let back: Option<hash::Hash> = from_bytes(&bytes).unwrap();
    assert_eq!(back, some);
    let none: Option<hash::Hash> = None;
    assert_eq!(none.to_bytes(), vec![0u8]);
    let back: Option<hash::Hash> = from_bytes(&[0u8]).unwrap();
    assert_eq!(back, None);
    let bad: Result<Option<hash::Hash>, ReaderError> = from_bytes(&[2u8]);
    assert_eq!(bad, Err(ReaderError::InvalidValue));
    let cut: Result<Option<hash::Hash>, ReaderError> = from_bytes(&[1u8, 0, 0]);
    assert_eq!(cut, Err(ReaderError::Truncated));
}
