use sha3::{Digest, Keccak256};
use xelis_core::block::{BlockHeader, Hashable, BLOCK_WORK_SIZE, HEADER_WORK_SIZE};
use xelis_core::crypto::hash;
use xelis_core::crypto::key::{KeyPair, PrivateKey, PublicKey};
use xelis_core::serializer::codec::{from_bytes, Serializer};
use xelis_core::serializer::error::ReaderError;

fn key(seed: u8) -> PublicKey {
    let pair = KeyPair::from_private_key(PrivateKey::from_bytes(&[seed; 32]));
    *pair.get_public_key()
}

fn hashes(first: u8, count: usize) -> Vec<hash::Hash> {
    let mut out = Vec::new();
    for i in 0..count {
        let mut bytes = [first; 32];
        bytes[0] = (i % 256) as u8;
        bytes[1] = (i / 256) as u8;
        out.push(hash::Hash::new(bytes));
    }
    out
}

fn keccak(bytes: &[u8]) -> [u8; 32] {
    Keccak256::digest(bytes).into()
}

fn sample(tips: usize, txs: usize) -> BlockHeader {
    BlockHeader::new(1, 77, 1_700_000_000_123, hashes(0xaa, tips), [9u8; 32], key(1), hashes(0xbb, txs))
}

#[test]
fn new_header_has_zero_nonce() {
    let header = sample(2, 3);
    assert_eq!(header.get_nonce(), 0);
    assert_eq!(header.get_version(), 1);
    assert_eq!(header.get_height(), 77);
    assert_eq!(header.get_timestamp(), 1_700_000_000_123);
    assert_eq!(header.get_tips().len(), 2);
    assert_eq!(header.get_txs_count(), 3);
    assert_eq!(header.get_extra_nonce(), &[9u8; 32]);
    assert_eq!(header.get_miner(), &key(1));
}

#[test]
fn tips_hash_is_digest_of_concatenation() {
    let header = sample(3, 0);
    let mut bytes = Vec::new();
    for tip in header.get_tips() {
        bytes.extend_from_slice(tip.as_bytes());
    }
    assert_eq!(header.get_tips_hash().to_bytes(), keccak(&bytes));
    assert_eq!(header.get_txs_hash().to_bytes(), keccak(&[]));
}

#[test]
fn work_is_73_bytes_in_layout() {
    let header = sample(2, 2);
    let work = header.get_work();
    assert_eq!(work.len(), HEADER_WORK_SIZE);
    assert_eq!(work.len(), 73);
    assert_eq!(work[0], 1);
    assert_eq!(&work[1..9], &77u64.to_be_bytes());
    assert_eq!(&work[9..41], header.get_tips_hash().as_bytes());
    assert_eq!(&work[41..73], header.get_txs_hash().as_bytes());
    assert_eq!(header.get_work_hash().to_bytes(), keccak(&work));
}

#[test]
fn serialized_header_is_120_bytes_in_layout() {
    let mut header = sample(1, 1);
    header.nonce = 0x0102030405060708;
    let bytes = header.get_serialized_header();
    assert_eq!(bytes.len(), BLOCK_WORK_SIZE);
    assert_eq!(bytes.len(), 120);
    assert_eq!(&bytes[0..32], header.get_work_hash().as_bytes());
    assert_eq!(&bytes[32..48], &1_700_000_000_123u128.to_be_bytes());
    assert_eq!(&bytes[48..56], &[1, 2, 3, 4, 5, 6, 7, 8]);
    assert_eq!(&bytes[56..88], &[9u8; 32]);
    assert_eq!(&bytes[88..120], key(1).as_bytes());
    assert_eq!(header.get_pow_hash().to_bytes(), keccak(&bytes));
    assert_eq!(header.hash(), header.get_pow_hash());
}

#[test]
fn work_hash_ignores_mined_fields() {
    let base = sample(3, 4);
    let before = base.get_work_hash();
    let mut other = sample(3, 4);
    other.nonce = 42;
    other.timestamp = 5;
    other.set_extra_nonce([7u8; 32]);
    other.set_miner(key(2));
    assert_eq!(other.get_work_hash(), before);
    assert_ne!(other.get_pow_hash(), base.get_pow_hash());
}

#[test]
fn mined_fields_each_change_pow_hash() {
    let base = sample(1, 1);
    let mut a = sample(1, 1);
    a.nonce = 1;
    assert_ne!(a.get_pow_hash(), base.get_pow_hash());
    let mut b = sample(1, 1);
    b.timestamp += 1;
    assert_ne!(b.get_pow_hash(), base.get_pow_hash());
    let mut c = sample(1, 1);
    c.set_extra_nonce([0u8; 32]);
    assert_ne!(c.get_pow_hash(), base.get_pow_hash());
    let mut d = sample(1, 1);
    d.set_miner(key(3));
    assert_ne!(d.get_pow_hash(), base.get_pow_hash());
}

#[test]
fn tips_and_txs_change_work_hash() {
    let base = sample(2, 2);
    let more_tips = sample(3, 2);
    let more_txs = sample(2, 3);
    assert_ne!(more_tips.get_work_hash(), base.get_work_hash());
    assert_ne!(more_txs.get_work_hash(), base.get_work_hash());
    assert_ne!(more_tips.get_pow_hash(), base.get_pow_hash());
    let mut swapped = sample(2, 2);
    swapped.tips.swap(0, 1);
    assert_ne!(swapped.get_work_hash(), base.get_work_hash());
}

#[test]
fn header_encoding_layout() {
    let mut header = sample(1, 2);
    header.nonce = 3;
    let bytes = header.to_bytes();
    assert_eq!(bytes.len(), 1 + 8 + 16 + 8 + 32 + 1 + 32 + 2 + 64 + 32);
    assert_eq!(header.size(), bytes.len());
    assert_eq!(bytes[0], 1);
    assert_eq!(&bytes[1..9], &77u64.to_be_bytes());
    assert_eq!(&bytes[9..25], &1_700_000_000_123u128.to_be_bytes());
    assert_eq!(&bytes[25..33], &3u64.to_be_bytes());
    assert_eq!(&bytes[33..65], &[9u8; 32]);
    assert_eq!(bytes[65], 1);
    assert_eq!(&bytes[66..98], header.tips[0].as_bytes());
    assert_eq!(&bytes[98..100], &[0, 2]);
    assert_eq!(&bytes[100..132], header.txs_hashes[0].as_bytes());
    assert_eq!(&bytes[132..164], header.txs_hashes[1].as_bytes());
    assert_eq!(&bytes[164..196], key(1).as_bytes());
}

fn assert_round_trip(header: &BlockHeader) {
    let bytes = header.to_bytes();
    let decoded: BlockHeader = from_bytes(&bytes).unwrap();
    assert_eq!(decoded.version, header.version);
    assert_eq!(decoded.height, header.height);
    assert_eq!(decoded.timestamp, header.timestamp);
    assert_eq!(decoded.nonce, header.nonce);
    assert_eq!(decoded.extra_nonce, header.extra_nonce);
    assert_eq!(decoded.miner, header.miner);
    assert_eq!(decoded.tips, header.tips);
    assert_eq!(decoded.txs_hashes, header.txs_hashes);
    assert_eq!(decoded.to_bytes(), bytes);
}

#[test]
fn header_round_trip_zero_tips_zero_txs() {
    assert_round_trip(&sample(0, 0));
}

#[test]
fn header_round_trip_maximum_tips() {
    assert_round_trip(&sample(255, 1));
}

#[test]
fn header_round_trip_many_txs() {
    let mut header = sample(3, 65535);
    header.nonce = u64::MAX;
    header.timestamp = u128::MAX;
    assert_round_trip(&header);
}

#[test]
fn header_decode_performs_no_bound_check_on_tips() {
    let header = sample(200, 0);
    let decoded: BlockHeader = from_bytes(&header.to_bytes()).unwrap();
    assert_eq!(decoded.get_tips().len(), 200);
}

#[test]
fn header_decode_truncated_at_every_length() {
    let bytes = sample(2, 2).to_bytes();
    for cut in 0..bytes.len() {
        let r: Result<BlockHeader, ReaderError> = from_bytes(&bytes[..cut]);
        assert_eq!(r.err(), Some(ReaderError::Truncated));
    }
}

#[test]
fn header_decode_refuses_bytes_that_are_no_key() {
    let mut bytes = sample(0, 0).to_bytes();
    let n = bytes.len();
    let mut refused = 0;
    for candidate in 0..=255u8 {
        for b in bytes[n - 32..].iter_mut() {
            *b = candidate;
        }
        bytes[n - 1] = 0x7f;
        let r: Result<BlockHeader, ReaderError> = from_bytes(&bytes);
        if let Err(e) = r {
            assert_eq!(e, ReaderError::ErrorTryInto);
            refused += 1;
        }
    }
    assert!(refused > 0);
}
