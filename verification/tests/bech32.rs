use xelis_core::config::{
    PREFIX_ADDRESS, PREFIX_ADDRESS_BYTES, TESTNET_PREFIX_ADDRESS, TESTNET_PREFIX_ADDRESS_BYTES,
};
use xelis_core::crypto::address::{Address, AddressError, AddressType};
use xelis_core::crypto::bech32::{convert_bits, decode, decode_bytes, encode, Bech32Error, CHARSET, SEPARATOR};
use xelis_core::crypto::hash;
use xelis_core::crypto::key::{KeyPair, PrivateKey, PublicKey};
use xelis_core::serializer::codec::Serializer;
use xelis_core::serializer::error::ReaderError;

fn key() -> PublicKey {
    *KeyPair::from_private_key(PrivateKey::from_bytes(&[8u8; 32])).get_public_key()
}

#[test]
fn alphabet_and_prefixes() {
    assert_eq!(&CHARSET, b"qpzry9x8gf2tvdw0s3jn54khce6mua7l");
    assert_eq!(SEPARATOR, b':');
    assert_eq!(PREFIX_ADDRESS.as_bytes(), &PREFIX_ADDRESS_BYTES);
    assert_eq!(TESTNET_PREFIX_ADDRESS.as_bytes(), &TESTNET_PREFIX_ADDRESS_BYTES);
    assert_eq!(PREFIX_ADDRESS, "xel");
    assert_eq!(TESTNET_PREFIX_ADDRESS, "xet");
}

#[test]
fn convert_bits_exact_values() {
    assert_eq!(convert_bits(&[0xff], 8, 5, true), Ok(vec![31, 28]));
    assert_eq!(convert_bits(&[0xff, 0x01], 8, 5, true), Ok(vec![31, 28, 0, 16]));
    assert_eq!(convert_bits(&[], 8, 5, true), Ok(vec![]));
    assert_eq!(convert_bits(&[1, 2, 3, 4, 5], 8, 5, true), Ok(vec![0, 4, 1, 0, 6, 1, 0, 5]));
    assert_eq!(convert_bits(&[31, 28], 5, 8, false), Ok(vec![0xff]));
    assert_eq!(convert_bits(&[31, 28, 0, 16], 5, 8, false), Ok(vec![0xff, 0x01]));
    assert_eq!(convert_bits(&[0b101], 3, 1, true), Ok(vec![1, 0, 1]));
    assert_eq!(convert_bits(&[1, 0, 1], 1, 3, false), Ok(vec![0b101]));
}

#[test]
fn convert_bits_round_trip() {
    for len in 0..40usize {
        let data: Vec<u8> = (0..len).map(|i| (i * 37 + 11) as u8).collect();
        let groups = convert_bits(&data, 8, 5, true).unwrap();
        assert_eq!(groups.len(), (len * 8 + 4) / 5);
        assert!(groups.iter().all(|g| *g < 32));
        assert_eq!(convert_bits(&groups, 5, 8, false), Ok(data));
    }
}

#[test]
fn convert_bits_errors() {
    assert_eq!(convert_bits(&[1, 32, 40], 5, 8, false), Err(Bech32Error::InvalidDataRange(32, 5)));
    assert_eq!(convert_bits(&[0], 5, 8, false), Err(Bech32Error::IllegalZeroPadding));
    assert_eq!(convert_bits(&[31, 31], 5, 8, false), Err(Bech32Error::NonZeroPadding));
    assert_eq!(convert_bits(&[31, 29], 5, 8, false), Err(Bech32Error::NonZeroPadding));
    assert_eq!(convert_bits(&[31, 28], 5, 8, true), Ok(vec![0xff, 0]));
}

#[test]
fn encode_known_texts() {
    assert_eq!(encode(b"a", &[]), Ok("a:2uel5l".to_string()));
    let all: Vec<u8> = (0..32).collect();
    assert_eq!(
        encode(b"abcdef", &all),
        Ok("abcdef:qpzry9x8gf2tvdw0s3jn54khce6mua7lmqqqxw".to_string())
    );
}

#[test]
fn encode_errors() {
    assert_eq!(encode(b"", &[1]), Err(Bech32Error::HrpEmpty));
    assert_eq!(encode(b"a b", &[1]), Err(Bech32Error::HrpInvalidCharacter(32)));
    assert_eq!(encode(&[b'a', 127], &[1]), Err(Bech32Error::HrpInvalidCharacter(127)));
    assert_eq!(encode(b"Xel", &[1]), Err(Bech32Error::MixedCase));
    assert_eq!(encode(b"xel", &[1, 32, 33]), Err(Bech32Error::InvalidValue(32)));
}

#[test]
fn decode_known_texts() {
    assert_eq!(decode("a:2uel5l"), Ok((b"a".to_vec(), vec![])));
    assert_eq!(decode("A:2UEL5L"), Ok((b"a".to_vec(), vec![])));
    let all: Vec<u8> = (0..32).collect();
    assert_eq!(
        decode("abcdef:qpzry9x8gf2tvdw0s3jn54khce6mua7lmqqqxw"),
        Ok((b"abcdef".to_vec(), all))
    );
    assert_eq!(decode_bytes(b"a:2uel5l"), Ok((b"a".to_vec(), vec![])));
}

#[test]
fn decode_uses_last_separator() {
    let text = encode(b"a:b", &[1, 2, 3]).unwrap();
    assert!(text.starts_with("a:b:"));
    assert_eq!(decode(&text), Ok((b"a:b".to_vec(), vec![1, 2, 3])));
}

#[test]
fn decode_errors() {
    assert_eq!(decode("a:2uEl5l"), Err(Bech32Error::MixedCase));
    assert_eq!(decode("a2uel5l"), Err(Bech32Error::SeparatorNotFound));
    assert_eq!(decode(""), Err(Bech32Error::SeparatorNotFound));
    assert_eq!(decode(":2uel5l"), Err(Bech32Error::SeparatorInvalidPosition(0)));
    assert_eq!(decode("a:uel5l"), Err(Bech32Error::SeparatorInvalidPosition(1)));
    assert_eq!(decode("a b:2uel5l"), Err(Bech32Error::HrpInvalidCharacter(32)));
    assert_eq!(decode("a:2uel5b"), Err(Bech32Error::InvalidCharacter(7)));
    assert_eq!(decode("a:2ue15l"), Err(Bech32Error::InvalidCharacter(5)));
    assert_eq!(decode("a:2uel5\u{e9}"), Err(Bech32Error::InvalidCharacter(7)));
    assert_eq!(decode("a:2uel5q"), Err(Bech32Error::InvalidChecksum));
    assert_eq!(decode("b:2uel5l"), Err(Bech32Error::InvalidChecksum));
}

#[test]
fn encode_decode_round_trip() {
    for len in 0..50usize {
        let data: Vec<u8> = (0..len).map(|i| ((i * 7 + len) % 32) as u8).collect();
        let text = encode(b"xel", &data).unwrap();
        assert_eq!(text.len(), 4 + len + 6);
        assert_eq!(decode(&text), Ok((b"xel".to_vec(), data.clone())));
        assert_eq!(decode(&text.to_uppercase()), Ok((b"xel".to_vec(), data)));
    }
}

#[test]
fn address_text_round_trip() {
    let main: Address<hash::Hash> = key().to_address(true);
    let text = main.as_string().unwrap();
    assert!(text.starts_with("xel:"));
    assert_eq!(text.len(), 4 + (34 * 8 + 4) / 5 + 6);
    let back: Address<hash::Hash> = Address::from_string(&text).unwrap();
    assert!(back.is_mainnet());
    assert!(back.is_normal());
    assert_eq!(back.get_public_key(), &key());
    let test: Address<hash::Hash> = key().to_address(false);
    let text = test.as_string().unwrap();
    assert!(text.starts_with("xet:"));
    let back: Address<hash::Hash> = Address::from_string(&text).unwrap();
    assert!(!back.is_mainnet());
    assert_eq!(back.to_bytes(), test.to_bytes());
}

#[test]
fn address_text_with_payload_round_trip() {
    let payload = hash::Hash::new([0x31u8; 32]);
    let address = key().to_address_with(true, payload);
    let text = address.as_string().unwrap();
    let back: Address<hash::Hash> = Address::from_string(&text).unwrap();
    assert!(matches!(back.get_type(), AddressType::Data(p) if *p == payload));
    assert_eq!(back.to_bytes(), address.to_bytes());
    assert_eq!(back.as_string(), Ok(text));
}

#[test]
fn address_text_matches_manual_encoding() {
    let address: Address<hash::Hash> = key().to_address(true);
    let groups = convert_bits(&address.to_bytes(), 8, 5, true).unwrap();
    assert_eq!(address.as_string(), encode(b"xel", &groups));
}

#[test]
fn address_text_errors() {
    let address: Address<hash::Hash> = key().to_address(true);
    let groups = convert_bits(&address.to_bytes(), 8, 5, true).unwrap();
    let unknown = encode(b"abc", &groups).unwrap();
    let r: Result<Address<hash::Hash>, AddressError> = Address::from_string(&unknown);
    assert_eq!(r.err(), Some(AddressError::Bech32(Bech32Error::InvalidPrefix)));
    let wrong_network = encode(b"xet", &groups).unwrap();
    let r: Result<Address<hash::Hash>, AddressError> = Address::from_string(&wrong_network);
    assert_eq!(r.err(), Some(AddressError::Bech32(Bech32Error::InvalidPrefix)));
    let mut tampered = address.as_string().unwrap();
    tampered.pop();
    tampered.push(if tampered.ends_with('q') { 'p' } else { 'q' });
    let r: Result<Address<hash::Hash>, AddressError> = Address::from_string(&tampered);
    assert!(matches!(
        r.err(),
        Some(AddressError::Bech32(Bech32Error::InvalidChecksum))
    ));
    let short = encode(b"xel", &convert_bits(&[1u8, 0, 5], 8, 5, true).unwrap()).unwrap();
    let r: Result<Address<hash::Hash>, AddressError> = Address::from_string(&short);
    assert_eq!(r.err(), Some(AddressError::Reader(ReaderError::Truncated)));
    let bad_tag = encode(b"xel", &convert_bits(&[1u8, 9, 5], 8, 5, true).unwrap()).unwrap();
    let r: Result<Address<hash::Hash>, AddressError> = Address::from_string(&bad_tag);
    assert_eq!(r.err(), Some(AddressError::Reader(ReaderError::InvalidValue)));
    let r: Result<Address<hash::Hash>, AddressError> = Address::from_string(&"nothing".to_string());
    assert_eq!(r.err(), Some(AddressError::Bech32(Bech32Error::SeparatorNotFound)));
}
