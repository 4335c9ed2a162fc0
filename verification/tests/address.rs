use xelis_core::config::EXTRA_DATA_LIMIT_SIZE;
use xelis_core::crypto::address::{Address, AddressType};
use xelis_core::crypto::hash;
use xelis_core::crypto::key::{KeyPair, PrivateKey, PublicKey};
use xelis_core::p2p::chain::{BlockId, ChainRequest};
use xelis_core::serializer::codec::{from_bytes, Serializer};
use xelis_core::serializer::error::ReaderError;

fn key() -> PublicKey {
    *KeyPair::from_private_key(PrivateKey::from_bytes(&[8u8; 32])).get_public_key()
}

fn request(count: usize) -> ChainRequest {
    let blocks = (0..count).map(|i| BlockId::new(hash::Hash::new([i as u8; 32]), i as u64)).collect();
    ChainRequest::new(blocks, 512)
}

#[test]
fn normal_address_layout_and_round_trip() {
    let address: Address<hash::Hash> = key().to_address(true);
    assert!(address.is_normal());
    assert!(address.is_mainnet());
    assert_eq!(address.get_public_key(), &key());
    let bytes = address.to_bytes();
    assert_eq!(bytes.len(), 34);
    assert_eq!(bytes[0], 1);
    assert_eq!(bytes[1], 0);
    assert_eq!(&bytes[2..], key().as_bytes());
    let back: Address<hash::Hash> = from_bytes(&bytes).unwrap();
    assert!(back.is_normal());
    assert!(back.is_mainnet());
    assert_eq!(back.to_public_key(), key());
    let testnet: Address<hash::Hash> = key().to_address(false);
    assert!(!testnet.is_mainnet());
    assert_eq!(testnet.to_bytes()[0], 0);
}

#[test]
fn data_address_layout_and_round_trip() {
    let payload = hash::Hash::new([0x77u8; 32]);
    let address = key().to_address_with(false, payload);
    assert!(!address.is_normal());
    assert!(matches!(address.get_type(), AddressType::Data(p) if *p == payload));
    let bytes = address.to_bytes();
    assert_eq!(bytes.len(), 1 + 1 + 32 + 32);
    assert_eq!(bytes[0], 0);
    assert_eq!(bytes[1], 1);
    assert_eq!(&bytes[2..34], &[0x77u8; 32]);
    assert_eq!(&bytes[34..], key().as_bytes());
    let back: Address<hash::Hash> = from_bytes(&bytes).unwrap();
    let (data, plain) = back.extract_data();
    assert_eq!(data, Some(payload));
    assert!(plain.is_normal());
    assert!(!plain.is_mainnet());
    let (public, kind) = plain.split();
    assert_eq!(public, key());
    assert!(matches!(kind, AddressType::Normal));
}

#[test]
fn get_data_borrows_the_payload() {
    let payload = hash::Hash::new([0x55u8; 32]);
    let with = key().to_address_with(true, payload);
    assert_eq!(with.get_data(), Some(&payload));
    let without: Address<hash::Hash> = key().to_address(true);
    assert_eq!(without.get_data(), None);
}

#[test]
fn extract_data_of_normal_address() {
    let address: Address<hash::Hash> = Address::new(true, AddressType::Normal, key());
    let (data, same) = address.extract_data();
    assert_eq!(data, None);
    assert!(same.is_normal());
    assert!(same.is_mainnet());
    assert_eq!(same.get_public_key(), &key());
}

#[test]
fn address_type_unknown_tag_fails() {
    for tag in [2u8, 3, 255] {
        let r: Result<AddressType<hash::Hash>, ReaderError> = from_bytes(&[tag, 0, 0]);
        assert_eq!(r.err(), Some(ReaderError::InvalidValue));
    }
    let r: Result<AddressType<hash::Hash>, ReaderError> = from_bytes(&[]);
    assert_eq!(r.err(), Some(ReaderError::Truncated));
    let r: Result<AddressType<hash::Hash>, ReaderError> = from_bytes(&[1, 0]);
    assert_eq!(r.err(), Some(ReaderError::Truncated));
}

#[test]
fn address_payload_over_limit_fails() {
    let small = key().to_address_with(true, request(25));
    assert!(small.to_bytes().len() - 34 <= EXTRA_DATA_LIMIT_SIZE);
    let back: Result<Address<ChainRequest>, ReaderError> = from_bytes(&small.to_bytes());
    assert!(back.is_ok());
    let large = key().to_address_with(true, request(26));
    assert!(large.to_bytes().len() - 34 > EXTRA_DATA_LIMIT_SIZE);
    let back: Result<Address<ChainRequest>, ReaderError> = from_bytes(&large.to_bytes());
    assert_eq!(back.err(), Some(ReaderError::InvalidSize));
}

#[test]
fn address_network_flag_must_be_zero_or_one() {
    let address: Address<hash::Hash> = key().to_address(true);
    let mut bytes = address.to_bytes();
    bytes[0] = 2;
    let r: Result<Address<hash::Hash>, ReaderError> = from_bytes(&bytes);
    assert_eq!(r.err(), Some(ReaderError::InvalidValue));
}

#[test]
fn address_refuses_key_off_the_curve() {
    let address: Address<hash::Hash> = key().to_address(true);
    let mut bytes = address.to_bytes();
    let mut refused = false;
    for candidate in 0..=255u8 {
        bytes[2] = candidate;
        let r: Result<Address<hash::Hash>, ReaderError> = from_bytes(&bytes);
        if let Err(e) = r {
            assert_eq!(e, ReaderError::ErrorTryInto);
            refused = true;
        }
    }
    assert!(refused);
}

#[test]
fn address_gives_up_key_and_type() {
    let address = key().to_address_with(true, hash::Hash::new([4u8; 32]));
    let public: PublicKey = address.clone().into();
    assert_eq!(public, key());
    let kind: AddressType<hash::Hash> = address.into();
    assert!(matches!(kind, AddressType::Data(p) if p == hash::Hash::new([4u8; 32])));
}
