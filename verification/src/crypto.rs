//! Content hashes, keys, signatures and addresses.

pub mod address;
pub mod bech32;
pub mod hash;
pub mod key;
