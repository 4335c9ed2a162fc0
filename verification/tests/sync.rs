use indexmap::IndexSet;
use xelis_core::config::CHAIN_SYNC_TOP_BLOCKS_MAX;
use xelis_core::crypto::hash;
use xelis_core::p2p::chain::{BlockId, ChainRequest, ChainResponse};
use xelis_core::p2p::sync::ChainView;
use xelis_core::serializer::codec::{from_bytes, Serializer};

fn digest(n: u64) -> [u8; 32] {
    let mut bytes = [0x11u8; 32];
    bytes[0..8].copy_from_slice(&n.to_be_bytes());
    bytes
}

fn at(height: u64) -> BlockId {
    BlockId::new(hash::Hash::new(digest(height)), height)
}

fn view(heights: &[u64], tips: &[u64]) -> ChainView {
    let ordered = heights.iter().map(|h| at(*h)).collect();
    let tips = tips.iter().map(|t| hash::Hash::new(digest(*t))).collect();
    ChainView::new(ordered, tips).unwrap()
}

fn parts(mut response: ChainResponse) -> (Option<([u8; 32], u64)>, Vec<[u8; 32]>, Vec<[u8; 32]>) {
    let point = response.get_common_point().map(|p| (*p.get_hash().as_bytes(), p.get_topoheight()));
    let (blocks, tops) = response.consume();
    (point, blocks.into_iter().collect(), tops.into_iter().collect())
}

#[test]
fn negotiation_finds_newest_common_checkpoint() {
    let responder = view(&[10, 20, 30], &[30]);
    let absent = BlockId::new(hash::Hash::new([0xeeu8; 32]), 30);
    let request = ChainRequest::new(vec![absent, at(20)], 512);
    let (point, blocks, tops) = parts(responder.respond(request, 4096));
    assert_eq!(point, Some((digest(20), 20)));
    assert_eq!(blocks, vec![digest(30)]);
    assert_eq!(tops, Vec::<[u8; 32]>::new());
}

#[test]
fn negotiation_without_overlap_returns_tips() {
    let responder = view(&[10, 20, 30], &[30, 29]);
    let request = ChainRequest::new(
        vec![
            BlockId::new(hash::Hash::new([0xeeu8; 32]), 30),
            BlockId::new(hash::Hash::new([0xddu8; 32]), 20),
        ],
        512,
    );
    let (point, blocks, tops) = parts(responder.respond(request, 4096));
    assert_eq!(point, None);
    assert_eq!(blocks, Vec::<[u8; 32]>::new());
    assert_eq!(tops, vec![digest(30), digest(29)]);
    assert!(!tops.is_empty());
}

#[test]
fn negotiation_prefers_first_listed_checkpoint() {
    let responder = view(&[10, 20, 30, 40], &[40]);
    let request = ChainRequest::new(vec![at(30), at(20), at(10)], 512);
    let (point, blocks, _) = parts(responder.respond(request, 4096));
    assert_eq!(point, Some((digest(30), 30)));
    assert_eq!(blocks, vec![digest(40)]);
    let request = ChainRequest::new(vec![at(10), at(30)], 512);
    let (point, blocks, _) = parts(responder.respond(request, 4096));
    assert_eq!(point, Some((digest(10), 10)));
    assert_eq!(blocks, vec![digest(20), digest(30), digest(40)]);
}

#[test]
fn negotiation_needs_hash_at_exact_height() {
    let responder = view(&[10, 20, 30], &[30]);
    let wrong_height = BlockId::new(hash::Hash::new(digest(20)), 21);
    let never_reached = BlockId::new(hash::Hash::new(digest(30)), 9000);
    let zero = BlockId::new(hash::Hash::zero(), 10);
    let request = ChainRequest::new(vec![wrong_height, never_reached, zero], 512);
    let (point, blocks, tops) = parts(responder.respond(request, 4096));
    assert_eq!(point, None);
    assert_eq!(blocks, Vec::<[u8; 32]>::new());
    assert_eq!(tops, vec![digest(30)]);
}

#[test]
fn negotiation_with_empty_request_matches_nothing() {
    let responder = view(&[1, 2], &[2]);
    let (point, blocks, tops) = parts(responder.respond(ChainRequest::new(Vec::new(), 512), 10));
    assert_eq!(point, None);
    assert!(blocks.is_empty());
    assert_eq!(tops, vec![digest(2)]);
}

#[test]
fn negotiation_caps_blocks_at_smaller_of_both_limits() {
    let heights: Vec<u64> = (1..=1000).collect();
    let responder = view(&heights, &[1000]);
    let (_, blocks, tops) = parts(responder.respond(ChainRequest::new(vec![at(1)], 600), 4096));
    assert_eq!(blocks.len(), 600);
    assert_eq!(blocks[0], digest(2));
    assert_eq!(blocks[599], digest(601));
    assert_eq!(tops, vec![digest(1000)]);
    let (_, blocks, _) = parts(responder.respond(ChainRequest::new(vec![at(1)], 600), 5));
    assert_eq!(blocks, (2..=6).map(digest).collect::<Vec<_>>());
    let (_, blocks, _) = parts(responder.respond(ChainRequest::new(vec![at(1)], 600), 0));
    assert!(blocks.is_empty());
    let (_, blocks, _) = parts(responder.respond(ChainRequest::new(vec![at(990)], 600), 4096));
    assert_eq!(blocks, (991..=1000).map(digest).collect::<Vec<_>>());
}

#[test]
fn negotiation_leaves_out_tips_that_are_among_blocks() {
    let responder = view(&[10, 20, 30], &[30, 77, 20]);
    let (point, blocks, tops) = parts(responder.respond(ChainRequest::new(vec![at(10)], 512), 64));
    assert_eq!(point, Some((digest(10), 10)));
    assert_eq!(blocks, vec![digest(20), digest(30)]);
    assert_eq!(tops, vec![digest(77)]);
}

#[test]
fn negotiation_caps_top_blocks() {
    let tips: Vec<u64> = (5000..5000 + 2 * CHAIN_SYNC_TOP_BLOCKS_MAX as u64).collect();
    let responder = view(&[10], &tips);
    let (_, _, tops) = parts(responder.respond(ChainRequest::new(vec![at(10)], 512), 64));
    assert_eq!(tops.len(), CHAIN_SYNC_TOP_BLOCKS_MAX);
    assert_eq!(tops, tips[..CHAIN_SYNC_TOP_BLOCKS_MAX].iter().map(|t| digest(*t)).collect::<Vec<_>>());
}

#[test]
fn negotiated_answer_decodes_at_the_requester() {
    let heights: Vec<u64> = (1..=50).collect();
    let responder = view(&heights, &[50, 49, 48]);
    let answer = responder.respond(ChainRequest::new(vec![at(77), at(40)], 512), 4096);
    let bytes = answer.to_bytes();
    let back: ChainResponse = from_bytes(&bytes).unwrap();
    let (point, blocks, tops) = parts(back);
    assert_eq!(point, Some((digest(40), 40)));
    assert_eq!(blocks, (41..=50).map(digest).collect::<Vec<_>>());
    assert_eq!(tops, Vec::<[u8; 32]>::new());
    let set: IndexSet<[u8; 32]> = blocks.into_iter().collect();
    assert_eq!(set.len(), 10);
}

#[test]
fn view_refuses_disorder_and_repeats() {
    let tip = || vec![hash::Hash::new(digest(1))];
    assert!(ChainView::new(vec![at(2), at(1)], tip()).is_none());
    assert!(ChainView::new(vec![at(1), at(1)], tip()).is_none());
    let same_hash = vec![at(1), BlockId::new(hash::Hash::new(digest(1)), 2)];
    assert!(ChainView::new(same_hash, tip()).is_none());
    let twice = vec![hash::Hash::new(digest(1)), hash::Hash::new(digest(1))];
    assert!(ChainView::new(vec![at(1)], twice).is_none());
    assert!(ChainView::new(Vec::new(), Vec::new()).is_some());
    assert!(ChainView::new(vec![at(1), at(5), at(6)], tip()).is_some());
}
