//! Protocol bounds shared by the sending and the receiving side.

use vstd::prelude::*;

verus! {

/// Most checkpoints that one chain request may carry.
pub const CHAIN_SYNC_REQUEST_MAX_BLOCKS: usize = 64;

/// Least response size that a requester may propose.
pub const CHAIN_SYNC_RESPONSE_MIN_BLOCKS: usize = 512;

/// Response size that a responder offers when it has no reason to differ.
pub const CHAIN_SYNC_DEFAULT_RESPONSE_BLOCKS: usize = 4096;

/// Most block hashes that one chain response may carry.
pub const CHAIN_SYNC_RESPONSE_MAX_BLOCKS: usize = 16384;

/// Rounds of tips that a response may report as top blocks.
pub const CHAIN_SYNC_TOP_BLOCKS: usize = 10;

/// Most parents (tips) that a block header may name.
pub const TIPS_LIMIT: usize = 3;

/// Most top blocks in one response: every round may hold a full set of tips.
pub const CHAIN_SYNC_TOP_BLOCKS_MAX: usize = CHAIN_SYNC_TOP_BLOCKS * TIPS_LIMIT;

/// Largest encoded payload that an address may embed.
pub const EXTRA_DATA_LIMIT_SIZE: usize = 1024;

/// The prefix of an address of the main network.
pub const PREFIX_ADDRESS: &'static str = "xel";

/// The prefix of an address of the test network.
pub const TESTNET_PREFIX_ADDRESS: &'static str = "xet";

/// The bytes of `PREFIX_ADDRESS`.
pub const PREFIX_ADDRESS_BYTES: [u8; 3] = [120, 101, 108];

/// The bytes of `TESTNET_PREFIX_ADDRESS`.
pub const TESTNET_PREFIX_ADDRESS_BYTES: [u8; 3] = [120, 101, 116];

/// The bounds fit the width of the count that carries them on the wire.
pub proof fn lemma_bounds_fit_wire()
    ensures
        0 < CHAIN_SYNC_REQUEST_MAX_BLOCKS <= 255,
        CHAIN_SYNC_RESPONSE_MIN_BLOCKS <= CHAIN_SYNC_DEFAULT_RESPONSE_BLOCKS
            <= CHAIN_SYNC_RESPONSE_MAX_BLOCKS <= 65535,
        CHAIN_SYNC_TOP_BLOCKS_MAX == 30,
        CHAIN_SYNC_TOP_BLOCKS_MAX <= 255,
        TIPS_LIMIT <= 255,
{
}

} // verus!
