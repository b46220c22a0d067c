//! Binary codec for transfer and block records: varint and zig-zag
//! primitives, length-prefixed text and bytes, a checksummed envelope, a
//! fixed 121-byte frame and a batch envelope; with a small contract-language
//! parser and validator bookkeeping of the node around it.
pub mod arbiter;
pub mod block;
pub mod chain_manager;
pub mod codec;
pub mod endian;
pub mod error;
pub mod fixed_encoding;
pub mod forge;
pub mod frame;
pub mod pocup;
pub mod rsl;
pub mod text;
pub mod transaction;
pub mod ultra;
pub mod varint;
