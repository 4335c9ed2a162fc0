//! Block-header DAG model and chain-synchronization messages of a ledger whose
//! blocks may name several parents, with their canonical binary encoding.
//!
//! Every executable function carries a contract stated over mathematical
//! models (`Seq<u8>` for bytes, a ghost view for each message type); the
//! contracts are proved by Verus.

pub mod block;
pub mod config;
pub mod crypto;
pub mod immutable;
pub mod json_rpc;
pub mod p2p;
pub mod serializer;
