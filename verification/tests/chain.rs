use indexmap::IndexSet;
use xelis_core::config::{
    CHAIN_SYNC_REQUEST_MAX_BLOCKS, CHAIN_SYNC_RESPONSE_MAX_BLOCKS, CHAIN_SYNC_RESPONSE_MIN_BLOCKS,
    CHAIN_SYNC_TOP_BLOCKS, CHAIN_SYNC_TOP_BLOCKS_MAX, TIPS_LIMIT,
};
use xelis_core::crypto::hash;
use xelis_core::p2p::chain::{BlockId, ChainRequest, ChainResponse, CommonPoint};
use xelis_core::serializer::codec::{from_bytes, Serializer};
use xelis_core::serializer::error::ReaderError;

fn digest(n: u32) -> [u8; 32] {
    let mut bytes = [0x5au8; 32];
    bytes[0..4].copy_from_slice(&n.to_be_bytes());
    bytes
}

fn checkpoints(count: usize) -> Vec<BlockId> {
    (0..count).map(|i| BlockId::new(hash::Hash::new(digest(i as u32)), 1000 - i as u64)).collect()
}

fn set(from: u32, count: usize) -> IndexSet<[u8; 32]> {
    (0..count).map(|i| digest(from + i as u32)).collect()
}

fn items(set: &IndexSet<[u8; 32]>) -> Vec<[u8; 32]> {
    set.iter().copied().collect()
}

#[test]
fn configured_bounds() {
    assert_eq!(CHAIN_SYNC_TOP_BLOCKS_MAX, CHAIN_SYNC_TOP_BLOCKS * TIPS_LIMIT);
    assert!(CHAIN_SYNC_REQUEST_MAX_BLOCKS <= 255);
    assert!(CHAIN_SYNC_RESPONSE_MIN_BLOCKS <= CHAIN_SYNC_RESPONSE_MAX_BLOCKS);
    assert!(CHAIN_SYNC_RESPONSE_MAX_BLOCKS <= 65535);
    assert!(CHAIN_SYNC_TOP_BLOCKS_MAX <= 255);
}

#[test]
fn block_id_layout_and_round_trip() {
    let id = BlockId::new(hash::Hash::new(digest(7)), 0x0102030405060708);
    assert_eq!(id.get_hash(), &hash::Hash::new(digest(7)));
    assert_eq!(id.get_topoheight(), 0x0102030405060708);
    let bytes = id.to_bytes();
    assert_eq!(bytes.len(), 40);
    assert_eq!(&bytes[0..32], &digest(7));
    assert_eq!(&bytes[32..40], &[1, 2, 3, 4, 5, 6, 7, 8]);
    let back: BlockId = from_bytes(&bytes).unwrap();
    assert_eq!(back.consume(), (hash::Hash::new(digest(7)), 0x0102030405060708));
    let cut: Result<BlockId, ReaderError> = from_bytes(&bytes[..39]);
    assert_eq!(cut.err(), Some(ReaderError::Truncated));
}

#[test]
fn common_point_layout_and_round_trip() {
    let point = CommonPoint::new(hash::Hash::new(digest(9)), 20);
    let bytes = point.to_bytes();
    assert_eq!(bytes.len(), 40);
    assert_eq!(&bytes[0..32], &digest(9));
    assert_eq!(&bytes[32..40], &20u64.to_be_bytes());
    let back: CommonPoint = from_bytes(&bytes).unwrap();
    assert_eq!(back.get_hash(), &hash::Hash::new(digest(9)));
    assert_eq!(back.get_topoheight(), 20);
}

fn request_bytes(count: u8, blocks: usize, size: u16) -> Vec<u8> {
    let mut bytes = vec![count];
    for id in checkpoints(blocks) {
        bytes.extend(id.to_bytes());
    }
    bytes.extend(size.to_be_bytes());
    bytes
}

fn assert_request_round_trip(count: usize, size: u16) {
    let request = ChainRequest::new(checkpoints(count), size);
    assert_eq!(request.size(), count);
    let bytes = request.to_bytes();
    assert_eq!(bytes, request_bytes(count as u8, count, size));
    let back: ChainRequest = from_bytes(&bytes).unwrap();
    assert_eq!(back.get_accepted_response_size(), size);
    let blocks = back.get_blocks();
    assert_eq!(blocks.len(), count);
    for (got, want) in blocks.into_iter().zip(checkpoints(count)) {
        assert_eq!(got.consume(), want.consume());
    }
}

#[test]
fn chain_request_round_trip_one_checkpoint() {
    assert_request_round_trip(1, 512);
}

#[test]
fn chain_request_round_trip_maximum_checkpoints() {
    assert_request_round_trip(CHAIN_SYNC_REQUEST_MAX_BLOCKS, 4096);
}

#[test]
fn chain_request_response_size_at_bounds() {
    assert_request_round_trip(3, CHAIN_SYNC_RESPONSE_MIN_BLOCKS as u16);
    assert_request_round_trip(3, CHAIN_SYNC_RESPONSE_MAX_BLOCKS as u16);
}

#[test]
fn chain_request_zero_checkpoints_fails() {
    let r: Result<ChainRequest, ReaderError> = from_bytes(&request_bytes(0, 0, 512));
    assert_eq!(r.err(), Some(ReaderError::InvalidValue));
    let empty = ChainRequest::new(Vec::new(), 512);
    let r: Result<ChainRequest, ReaderError> = from_bytes(&empty.to_bytes());
    assert_eq!(r.err(), Some(ReaderError::InvalidValue));
}

#[test]
fn chain_request_too_many_checkpoints_fails() {
    let over = CHAIN_SYNC_REQUEST_MAX_BLOCKS + 1;
    let request = ChainRequest::new(checkpoints(over), 512);
    let r: Result<ChainRequest, ReaderError> = from_bytes(&request.to_bytes());
    assert_eq!(r.err(), Some(ReaderError::InvalidValue));
    let r: Result<ChainRequest, ReaderError> = from_bytes(&request_bytes(255, 255, 512));
    assert_eq!(r.err(), Some(ReaderError::InvalidValue));
}

#[test]
fn chain_request_response_size_out_of_bounds_fails() {
    let below = (CHAIN_SYNC_RESPONSE_MIN_BLOCKS - 1) as u16;
    let above = (CHAIN_SYNC_RESPONSE_MAX_BLOCKS + 1) as u16;
    for size in [0, below, above, u16::MAX] {
        let request = ChainRequest::new(checkpoints(2), size);
        let r: Result<ChainRequest, ReaderError> = from_bytes(&request.to_bytes());
        assert_eq!(r.err(), Some(ReaderError::InvalidValue));
    }
}

#[test]
fn chain_request_truncated_fails() {
    let bytes = request_bytes(2, 2, 512);
    for cut in 0..bytes.len() {
        let r: Result<ChainRequest, ReaderError> = from_bytes(&bytes[..cut]);
        assert_eq!(r.err(), Some(ReaderError::Truncated));
    }
}

fn response_bytes(point: Option<(u32, u64)>, blocks: &[[u8; 32]], tops: &[[u8; 32]]) -> Vec<u8> {
    let mut bytes = Vec::new();
    match point {
        Some((n, height)) => {
            bytes.push(1);
            bytes.extend(digest(n));
            bytes.extend(height.to_be_bytes());
        }
        None => bytes.push(0),
    }
    bytes.extend((blocks.len() as u16).to_be_bytes());
    for block in blocks {
        bytes.extend(block);
    }
    bytes.push(tops.len() as u8);
    for top in tops {
        bytes.extend(top);
    }
    bytes
}

fn assert_response_round_trip(point: Option<(u32, u64)>, blocks: usize, tops: usize) {
    let block_set = set(1000, blocks);
    let top_set = set(500_000, tops);
    let common = point.map(|(n, height)| CommonPoint::new(hash::Hash::new(digest(n)), height));
    let response = ChainResponse::new(common, block_set.clone(), top_set.clone());
    assert_eq!(response.size(), blocks);
    let bytes = response.to_bytes();
    assert_eq!(bytes, response_bytes(point, &items(&block_set), &items(&top_set)));
    let mut back: ChainResponse = from_bytes(&bytes).unwrap();
    let got = back.get_common_point();
    assert_eq!(got.as_ref().map(|p| (*p.get_hash(), p.get_topoheight())),
        point.map(|(n, height)| (hash::Hash::new(digest(n)), height)));
    assert!(back.get_common_point().is_none());
    let (got_blocks, got_tops) = back.consume();
    assert_eq!(items(&got_blocks), items(&block_set));
    assert_eq!(items(&got_tops), items(&top_set));
}

#[test]
fn chain_response_round_trip_with_common_point() {
    assert_response_round_trip(Some((3, 20)), 5, 2);
}

#[test]
fn chain_response_round_trip_without_common_point() {
    assert_response_round_trip(None, 0, 3);
}

#[test]
fn chain_response_round_trip_empty_sets() {
    assert_response_round_trip(None, 0, 0);
    assert_response_round_trip(Some((1, 0)), 0, 0);
}

#[test]
fn chain_response_round_trip_maximum_sets() {
    assert_response_round_trip(
        Some((3, u64::MAX)),
        CHAIN_SYNC_RESPONSE_MAX_BLOCKS,
        CHAIN_SYNC_TOP_BLOCKS_MAX,
    );
}

#[test]
fn chain_response_repeated_block_fails() {
    let bytes = response_bytes(None, &[digest(1), digest(2), digest(1)], &[]);
    let r: Result<ChainResponse, ReaderError> = from_bytes(&bytes);
    assert_eq!(r.err(), Some(ReaderError::InvalidValue));
}

#[test]
fn chain_response_top_block_repeating_a_block_fails() {
    let bytes = response_bytes(Some((9, 9)), &[digest(1), digest(2)], &[digest(3), digest(2)]);
    let r: Result<ChainResponse, ReaderError> = from_bytes(&bytes);
    assert_eq!(r.err(), Some(ReaderError::InvalidValue));
}

#[test]
fn chain_response_repeated_top_block_fails() {
    let bytes = response_bytes(None, &[digest(1)], &[digest(3), digest(3)]);
    let r: Result<ChainResponse, ReaderError> = from_bytes(&bytes);
    assert_eq!(r.err(), Some(ReaderError::InvalidValue));
}

#[test]
fn chain_response_too_many_top_blocks_fails() {
    let tops = items(&set(0, CHAIN_SYNC_TOP_BLOCKS_MAX + 1));
    let bytes = response_bytes(None, &[], &tops);
    let r: Result<ChainResponse, ReaderError> = from_bytes(&bytes);
    assert_eq!(r.err(), Some(ReaderError::InvalidValue));
    let response = ChainResponse::new(None, IndexSet::new(), set(0, CHAIN_SYNC_TOP_BLOCKS_MAX + 1));
    let r: Result<ChainResponse, ReaderError> = from_bytes(&response.to_bytes());
    assert_eq!(r.err(), Some(ReaderError::InvalidValue));
}

#[test]
fn chain_response_too_many_blocks_fails() {
    let response =
        ChainResponse::new(None, set(0, CHAIN_SYNC_RESPONSE_MAX_BLOCKS + 1), IndexSet::new());
    let r: Result<ChainResponse, ReaderError> = from_bytes(&response.to_bytes());
    assert_eq!(r.err(), Some(ReaderError::InvalidValue));
}

#[test]
fn chain_response_unknown_presence_byte_fails() {
    let mut bytes = response_bytes(None, &[], &[]);
    bytes[0] = 2;
    let r: Result<ChainResponse, ReaderError> = from_bytes(&bytes);
    assert_eq!(r.err(), Some(ReaderError::InvalidValue));
}

#[test]
fn chain_response_truncated_fails() {
    let bytes = response_bytes(Some((1, 2)), &[digest(1), digest(2)], &[digest(3)]);
    for cut in 0..bytes.len() {
        let r: Result<ChainResponse, ReaderError> = from_bytes(&bytes[..cut]);
        assert_eq!(r.err(), Some(ReaderError::Truncated));
    }
}
