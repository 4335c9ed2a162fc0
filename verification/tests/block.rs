use std::sync::Arc;
use xelis_core::block::{Block, BlockHeader, Hashable};
use xelis_core::crypto::hash;
use xelis_core::crypto::key::{KeyPair, PrivateKey, PublicKey};
use xelis_core::immutable::Immutable;
use xelis_core::p2p::chain::BlockId;
use xelis_core::serializer::codec::{from_bytes, Serializer};
use xelis_core::serializer::error::ReaderError;

fn key() -> PublicKey {
    *KeyPair::from_private_key(PrivateKey::from_bytes(&[3u8; 32])).get_public_key()
}

fn header(txs: usize) -> BlockHeader {
    let tips = vec![hash::Hash::new([1u8; 32]), hash::Hash::new([2u8; 32])];
    let txs_hashes = (0..txs).map(|i| hash::Hash::new([0x80 + i as u8; 32])).collect();
    BlockHeader::new(0, 5, 99, tips, [0u8; 32], key(), txs_hashes)
}

fn transaction(n: u64) -> BlockId {
    BlockId::new(hash::Hash::new([n as u8; 32]), n)
}

fn owned(count: u64) -> Vec<Immutable<BlockId>> {
    (0..count).map(|n| Immutable::Owned(transaction(n))).collect()
}

#[test]
fn known_digest_of_nothing() {
    let expected = "c5d2460186f7233c927e7db2dcc703c0e500b653ca82273b7bfad8045d85a470";
    assert_eq!(header(0).get_txs_hash().to_hex(), expected);
    let no_tips = BlockHeader::new(0, 5, 99, Vec::new(), [0u8; 32], key(), Vec::new());
    assert_eq!(no_tips.get_tips_hash().to_hex(), expected);
}

#[test]
fn block_encoding_is_header_then_transactions() {
    let block = Block::new(Immutable::Owned(header(2)), owned(2));
    let bytes = block.to_bytes();
    let mut expected = header(2).to_bytes();
    expected.extend(transaction(0).to_bytes());
    expected.extend(transaction(1).to_bytes());
    assert_eq!(bytes, expected);
}

#[test]
fn block_round_trip() {
    for count in [0u64, 1, 7] {
        let block = Block::new(Immutable::Owned(header(count as usize)), owned(count));
        let bytes = block.to_bytes();
        let back: Block<BlockId> = from_bytes(&bytes).unwrap();
        assert_eq!(back.get_txs_count(), count as usize);
        assert_eq!(back.get_header().to_bytes(), header(count as usize).to_bytes());
        for (n, tx) in back.get_transactions().iter().enumerate() {
            assert_eq!(tx.get_inner().to_bytes(), transaction(n as u64).to_bytes());
        }
        assert_eq!(back.to_bytes(), bytes);
    }
}

#[test]
fn block_round_trip_shared_parts() {
    let shared_header = Immutable::Arc(Arc::new(header(1)));
    let shared_tx = Immutable::Arc(Arc::new(transaction(0)));
    let block = Block::new(shared_header, vec![shared_tx]);
    let owned_block = Block::new(Immutable::Owned(header(1)), owned(1));
    assert_eq!(block.to_bytes(), owned_block.to_bytes());
    let back: Block<BlockId> = from_bytes(&block.to_bytes()).unwrap();
    assert_eq!(back.to_bytes(), owned_block.to_bytes());
}

#[test]
fn block_identity_is_header_identity() {
    let block = Block::new(Immutable::Owned(header(3)), owned(3));
    assert_eq!(block.hash(), header(3).hash());
    assert_eq!(block.hash(), header(3).get_pow_hash());
}

#[test]
fn block_parts() {
    let block = Block::new(Immutable::Owned(header(2)), owned(2));
    assert_eq!(block.get_header().get_height(), 5);
    assert_eq!(block.get_txs_count(), 2);
    assert_eq!(block.get_transactions().len(), 2);
    let (head, txs) = block.split();
    assert_eq!(head.get_inner().get_txs_count(), 2);
    assert_eq!(txs.len(), 2);
    let block = Block::new(head, txs);
    let shared = block.to_header();
    assert_eq!(shared.get_height(), 5);
}

#[test]
fn block_header_consistency_is_not_enforced() {
    let block = Block::new(Immutable::Owned(header(2)), owned(1));
    assert_eq!(block.get_header().get_txs_count(), 2);
    assert_eq!(block.get_txs_count(), 1);
    let bytes = block.to_bytes();
    let mut expected = header(2).to_bytes();
    expected.extend(transaction(0).to_bytes());
    assert_eq!(bytes, expected);
    let short: Result<Block<BlockId>, ReaderError> = from_bytes(&bytes);
    assert_eq!(short.err(), Some(ReaderError::Truncated));
    let mut two = header(2).to_bytes();
    two.extend(transaction(40).to_bytes());
    two.extend(transaction(41).to_bytes());
    let decoded: Block<BlockId> = from_bytes(&two).unwrap();
    assert_eq!(decoded.get_txs_count(), 2);
    assert_eq!(decoded.get_header().get_txs_hashes()[0], hash::Hash::new([0x80; 32]));
    assert_eq!(decoded.get_transactions()[0].get_inner().get_topoheight(), 40);
}

#[test]
fn block_decode_truncated() {
    let block = Block::new(Immutable::Owned(header(2)), owned(2));
    let bytes = block.to_bytes();
    for cut in 0..bytes.len() {
        let r: Result<Block<BlockId>, ReaderError> = from_bytes(&bytes[..cut]);
        assert_eq!(r.err(), Some(ReaderError::Truncated));
    }
}

#[test]
fn immutable_holds_value_either_way() {
    let owned = Immutable::Owned(7u32);
    let shared = Immutable::Arc(Arc::new(7u32));
    assert_eq!(owned.get_inner(), shared.get_inner());
    assert_eq!(*owned.to_arc(), 7);
    assert_eq!(*shared.to_arc(), 7);
}

#[test]
fn block_stands_for_its_header() {
    let block = Block::new(Immutable::Owned(header(2)), owned(2));
    assert_eq!(block.get_height(), 5);
    assert_eq!(block.get_tips().len(), 2);
    assert_eq!(block.get_work_hash(), header(2).get_work_hash());
}
