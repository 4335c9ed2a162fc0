//! The canonical codec: a byte writer, a byte reader, and the trait that ties
//! each message type to its encoding.

pub mod bytes;
pub mod codec;
pub mod error;
pub mod hex;
pub mod reader;
pub mod sequence;
pub mod writer;
