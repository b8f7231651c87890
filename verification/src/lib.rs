//! Hide messages in PNG files: the container model.
//!
//! A PNG byte stream is an eight-byte signature followed by chunks. Each chunk
//! is a big-endian length, a four-byte type, a payload and a CRC-32 over type
//! and payload. This crate parses such a stream into chunks, lets chunks be
//! appended and removed by type, and writes the stream back byte for byte.
//! Every function carries a contract over a mathematical model of the bytes.

pub mod byte_order;
pub mod checksum;

pub mod chunk;
pub mod chunk_type;
pub mod png;
pub mod text;

pub use chunk::{Chunk, ChunkError};
pub use chunk_type::{ChunkType, ChunkTypeError};
pub use png::{Png, PngError};
