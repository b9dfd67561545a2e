//! Decoder for the binary record of one voxel-world chunk: a 16 x 16 grid of
//! block columns, each a stack of layers, read from big-endian bytes.
//!
//! - [`format`] states the record: what a chunk holds, the bytes it is laid
//!   out as, and what a byte sequence decodes to.
//! - [`tile`] holds the decoded values and the readers that build them from
//!   a [`ByteReader`]; a reader gives the whole value or `UnexpectedEof`.
//! - [`reader`] is the byte source, and [`endian`] the integer fields.
//! - [`laws`] proves what ties layout and decoding together: a record
//!   decodes to what it was laid out from, and a record cut short does not
//!   decode.
//!
//! The bytes are in memory. For a stream, `bytes_needed` says after every
//! fetch how many more bytes to fetch, so that one record is taken from the
//! stream and nothing behind it.

pub mod endian;
pub mod format;
pub mod laws;
pub mod reader;
pub mod tile;

pub use format::{
    BlockInfo, ChunkModel, ChunkPos, ColumnModel, CHUNK_COLUMNS, CHUNK_HEIGHT, CHUNK_WIDTH,
};
pub use reader::{ByteReader, ReadError};
pub use tile::{BlockColumn, ChunkTile};
