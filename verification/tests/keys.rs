use xelis_core::block::{deserialize_extra_nonce, deserialize_timestamp, serialize_extra_nonce, serialize_timestamp};
use xelis_core::crypto::hash;
use xelis_core::crypto::key::{KeyPair, PrivateKey, PublicKey, Signature, KEY_LENGTH, SIGNATURE_LENGTH};
use xelis_core::serializer::codec::{from_bytes, Serializer};
use xelis_core::serializer::error::ReaderError;

const SECRET: &str = "9d61b19deffd5a60ba844af492ec2cc44449c5697b326919703bac031cae7f60";
const PUBLIC: &str = "d75a980182b10ab7d54bfed3c964073a0ee172f3daa62325af021a68f707511a";
const SIGNATURE_OF_EMPTY: &str = "e5564300c360ac729086e2cc806e828a84877f1eb8e5d974d873e065224901555fb8821590a33bacc61e39701cf9b46bd25bf5f0595bbe24655141438e7a100b";

fn pair() -> KeyPair {
    KeyPair::from_private_key(PrivateKey::from_bytes(&hex::decode(SECRET).unwrap()))
}

#[test]
fn public_key_is_derived_from_private_key() {
    let pair = pair();
    assert_eq!(KEY_LENGTH, 32);
    assert_eq!(pair.get_public_key().as_bytes().to_vec(), hex::decode(PUBLIC).unwrap());
    assert_eq!(pair.get_private_key().to_bytes(), hex::decode(SECRET).unwrap());
}

#[test]
fn signature_matches_known_vector() {
    let pair = pair();
    let signature = pair.sign(&[]);
    assert_eq!(SIGNATURE_LENGTH, 64);
    assert_eq!(signature.to_hex(), SIGNATURE_OF_EMPTY);
    assert_eq!(signature.to_bytes(), hex::decode(SIGNATURE_OF_EMPTY).unwrap());
    let direct = pair.get_private_key().sign(&[], pair.get_public_key());
    assert_eq!(direct, signature);
}

#[test]
fn signature_verifies_only_for_signed_hash_and_key() {
    let pair = pair();
    let message = hash::Hash::new([0x42u8; 32]);
    let signature = pair.sign(message.as_bytes());
    assert!(pair.get_public_key().verify_signature(&message, &signature));
    let other = hash::Hash::new([0x43u8; 32]);
    assert!(!pair.get_public_key().verify_signature(&other, &signature));
    let stranger = KeyPair::from_private_key(PrivateKey::from_bytes(&[5u8; 32]));
    assert!(!stranger.get_public_key().verify_signature(&message, &signature));
}

#[test]
fn from_keys_keeps_both_keys() {
    let a = pair();
    let b = KeyPair::from_private_key(PrivateKey::from_bytes(&[5u8; 32]));
    let mixed = KeyPair::from_keys(*a.get_public_key(), PrivateKey::from_bytes(&[5u8; 32]));
    assert_eq!(mixed.get_public_key(), a.get_public_key());
    assert_eq!(mixed.get_private_key().to_bytes(), b.get_private_key().to_bytes());
}

#[test]
fn fresh_pairs_differ_and_sign() {
    let a = KeyPair::new();
    let b = KeyPair::new();
    assert_ne!(a.get_public_key(), b.get_public_key());
    let message = hash::Hash::new([1u8; 32]);
    assert!(a.get_public_key().verify_signature(&message, &a.sign(message.as_bytes())));
    let derived = KeyPair::from_private_key(PrivateKey::from_bytes(&a.get_private_key().to_bytes()));
    assert_eq!(derived.get_public_key(), a.get_public_key());
    let random = PublicKey::random();
    let back: PublicKey = from_bytes(&random.to_bytes()).unwrap();
    assert_eq!(back, random);
}

#[test]
fn public_key_round_trip() {
    let pair = pair();
    let bytes = pair.get_public_key().to_bytes();
    assert_eq!(bytes, hex::decode(PUBLIC).unwrap());
    let back: PublicKey = from_bytes(&bytes).unwrap();
    assert_eq!(&back, pair.get_public_key());
    let cut: Result<PublicKey, ReaderError> = from_bytes(&bytes[..31]);
    assert_eq!(cut.err(), Some(ReaderError::Truncated));
}

#[test]
fn public_key_refuses_bytes_off_the_curve() {
    let mut refused = 0;
    let mut accepted = 0;
    for first in 0..=255u8 {
        let mut bytes = [0u8; 32];
        bytes[0] = first;
        let r: Result<PublicKey, ReaderError> = from_bytes(&bytes);
        match r {
            Ok(key) => {
                assert_eq!(key.as_bytes(), &bytes);
                accepted += 1;
            }
            Err(e) => {
                assert_eq!(e, ReaderError::ErrorTryInto);
                refused += 1;
            }
        }
    }
    assert!(refused > 0);
    assert!(accepted > 0);
}

#[test]
fn key_pair_round_trip() {
    let pair = pair();
    let bytes = pair.to_bytes();
    assert_eq!(bytes.len(), 64);
    assert_eq!(&bytes[..32], &hex::decode(PUBLIC).unwrap()[..]);
    assert_eq!(&bytes[32..], &hex::decode(SECRET).unwrap()[..]);
    let back: KeyPair = from_bytes(&bytes).unwrap();
    assert_eq!(back.get_public_key(), pair.get_public_key());
    assert_eq!(back.get_private_key().to_bytes(), pair.get_private_key().to_bytes());
    assert_eq!(back.sign(&[]).to_hex(), SIGNATURE_OF_EMPTY);
}

#[test]
fn signature_round_trip_and_range_check() {
    let bytes = hex::decode(SIGNATURE_OF_EMPTY).unwrap();
    let signature: Signature = from_bytes(&bytes).unwrap();
    assert_eq!(signature.to_bytes(), bytes);
    assert_eq!(signature, pair().sign(&[]));
    for high in [0x20u8, 0x40, 0x80, 0xff] {
        let mut bad = bytes.clone();
        bad[63] = high;
        let r: Result<Signature, ReaderError> = from_bytes(&bad);
        assert_eq!(r.err(), Some(ReaderError::ErrorTryInto));
    }
    let mut edge = bytes.clone();
    edge[63] = 0x1f;
    let r: Result<Signature, ReaderError> = from_bytes(&edge);
    assert!(r.is_ok());
    let cut: Result<Signature, ReaderError> = from_bytes(&bytes[..63]);
    assert_eq!(cut.err(), Some(ReaderError::Truncated));
}

#[test]
fn extra_nonce_text_form() {
    let mut nonce = [0u8; 32];
    nonce[0] = 0xab;
    nonce[31] = 0x0f;
    let text = serialize_extra_nonce(&nonce);
    assert_eq!(text, "ab0000000000000000000000000000000000000000000000000000000000000f");
    assert_eq!(deserialize_extra_nonce(&text), Ok(nonce));
    assert_eq!(deserialize_extra_nonce(&text.to_uppercase()), Ok(nonce));
    let bad = "zz".repeat(32);
    assert_eq!(deserialize_extra_nonce(&bad), Err(ReaderError::InvalidHex));
    assert_eq!(deserialize_extra_nonce("abc"), Err(ReaderError::InvalidHex));
}

#[test]
fn timestamp_text_form_keeps_low_64_bits() {
    assert_eq!(serialize_timestamp(&1_700_000_000_123), 1_700_000_000_123);
    assert_eq!(serialize_timestamp(&(u64::MAX as u128)), u64::MAX);
    assert_eq!(serialize_timestamp(&((1u128 << 64) + 5)), 5);
    assert_eq!(serialize_timestamp(&u128::MAX), u64::MAX);
    assert_eq!(deserialize_timestamp(5), 5u128);
    assert_eq!(deserialize_timestamp(u64::MAX), u64::MAX as u128);
}
