//! The chunk record as mathematics: what a decoded chunk holds, the bytes it
//! is laid out as, and what a byte sequence decodes to.
//!
//! A record is, with every integer big-endian and nothing between fields:
//!
//! ```text
//! i32 x, i32 z, u16 version,
//! 256 times: u16 biome, u8 light, u16 layer_count,
//!            layer_count times: i32 y, u32 id
//! ```

use crate::endian::{be_i32, be_u16, be_u32, i32_bytes, u16_bytes, u32_bytes};
use vstd::prelude::*;

verus! {

/// Columns along one side of a chunk.
pub const CHUNK_WIDTH: usize = 16;

/// Rows of columns in a chunk.
pub const CHUNK_HEIGHT: usize = 16;

/// Columns in a chunk, stored row by row.
pub const CHUNK_COLUMNS: usize = CHUNK_WIDTH * CHUNK_HEIGHT;

/// The most layers a column record can declare.
pub const MAX_LAYERS: usize = 0xFFFF;

/// Bytes in a layer record.
pub const LAYER_LEN: usize = 8;

/// Bytes in a column record before its layers.
pub const COLUMN_HEAD_LEN: usize = 5;

/// Bytes in a chunk record before its columns.
pub const CHUNK_HEAD_LEN: usize = 10;

/// Grid coordinates of a chunk: `(x, z)`.
pub type ChunkPos = (i32, i32);

/// One layer of a column: a block at a height.
#[derive(Debug, Clone, Copy, PartialEq, Eq, Structural)]
pub struct BlockInfo {
    /// Vertical coordinate; may be negative.
    pub y: i32,
    /// Block identifier; no value has a special meaning here.
    pub id: u32,
}

/// What a block column holds.
#[verifier::ext_equal]
pub struct ColumnModel {
    pub biome: u16,
    pub light: u8,
    /// Top to bottom.
    pub layers: Seq<BlockInfo>,
}

/// What a chunk holds.
#[verifier::ext_equal]
pub struct ChunkModel {
    pub pos: ChunkPos,
    pub version: u16,
    /// Row by row.
    pub columns: Seq<ColumnModel>,
}

impl ColumnModel {
    /// The layers can be counted in the record's 16-bit count field.
    pub open spec fn wf(self) -> bool {
        self.layers.len() <= MAX_LAYERS
    }
}

impl ChunkModel {
    /// There are exactly 256 columns, each of them well formed.
    pub open spec fn wf(self) -> bool {
        &&& self.columns.len() == CHUNK_COLUMNS
        &&& forall|i: int| 0 <= i < self.columns.len() ==> (#[trigger] self.columns[i]).wf()
    }
}

/// The record of one layer: `y`, then `id`.
pub open spec fn layer_bytes(l: BlockInfo) -> Seq<u8> {
    i32_bytes(l.y) + u32_bytes(l.id)
}

/// The records of `ls`, one after the other.
pub open spec fn layers_bytes(ls: Seq<BlockInfo>) -> Seq<u8> {
    Seq::new(LAYER_LEN as nat * ls.len(), |j: int| layer_bytes(ls[j / 8])[j % 8])
}

/// The record of one column: biome, light, layer count, then the layers.
pub open spec fn column_bytes(c: ColumnModel) -> Seq<u8>
    recommends
        c.wf(),
{
    u16_bytes(c.biome) + seq![c.light] + u16_bytes(c.layers.len() as u16) + layers_bytes(c.layers)
}

/// The records of `cs`, one after the other.
pub open spec fn columns_bytes(cs: Seq<ColumnModel>) -> Seq<u8>
    decreases cs.len(),
{
    if cs.len() == 0 {
        Seq::empty()
    } else {
        column_bytes(cs[0]) + columns_bytes(cs.drop_first())
    }
}

/// The record of a chunk: `x`, `z`, version, then the columns.
pub open spec fn chunk_bytes(t: ChunkModel) -> Seq<u8>
    recommends
        t.wf(),
{
    i32_bytes(t.pos.0) + i32_bytes(t.pos.1) + u16_bytes(t.version) + columns_bytes(t.columns)
}

/// The layer that `s` begins with, if `s` holds a whole layer record.
pub open spec fn decode_layer(s: Seq<u8>) -> Option<BlockInfo> {
    if s.len() < LAYER_LEN {
        None
    } else {
        Some(BlockInfo { y: be_i32(s), id: be_u32(s.skip(4)) })
    }
}

/// The `i`-th of the layer records that `s` begins with.
pub open spec fn layer_at(s: Seq<u8>, i: int) -> BlockInfo {
    BlockInfo { y: be_i32(s.skip(LAYER_LEN * i)), id: be_u32(s.skip(LAYER_LEN * i + 4)) }
}

/// The `n` layers that `s` begins with, in stream order, if `s` holds that
/// many layer records.
pub open spec fn decode_layers(s: Seq<u8>, n: nat) -> Option<Seq<BlockInfo>> {
    if s.len() < LAYER_LEN * n {
        None
    } else {
        Some(Seq::new(n, |i: int| layer_at(s, i)))
    }
}

/// The column that `s` begins with, if `s` holds a whole column record.
pub open spec fn decode_column(s: Seq<u8>) -> Option<ColumnModel> {
    if s.len() < COLUMN_HEAD_LEN {
        None
    } else {
        match decode_layers(s.skip(COLUMN_HEAD_LEN as int), be_u16(s.skip(3)) as nat) {
            None => None,
            Some(layers) => Some(ColumnModel { biome: be_u16(s), light: s[2], layers }),
        }
    }
}

/// The `n` columns that `s` begins with, in stream order, if `s` holds that
/// many column records.
pub open spec fn decode_columns(s: Seq<u8>, n: nat) -> Option<Seq<ColumnModel>>
    decreases n,
{
    if n == 0 {
        Some(Seq::empty())
    } else {
        match decode_column(s) {
            None => None,
            Some(c) => match decode_columns(s.skip(column_bytes(c).len() as int), (n - 1) as nat) {
                None => None,
                Some(cs) => Some(seq![c] + cs),
            },
        }
    }
}

/// The chunk that `s` begins with, if `s` holds a whole chunk record.
pub open spec fn decode_chunk(s: Seq<u8>) -> Option<ChunkModel> {
    if s.len() < CHUNK_HEAD_LEN {
        None
    } else {
        match decode_columns(s.skip(CHUNK_HEAD_LEN as int), CHUNK_COLUMNS as nat) {
            None => None,
            Some(columns) => Some(
                ChunkModel { pos: (be_i32(s), be_i32(s.skip(4))), version: be_u16(s.skip(8)), columns },
            ),
        }
    }
}

/// How many bytes are still missing behind `s` before the layer record that
/// `s` begins can be whole; 0 when `s` holds it.
pub open spec fn layer_need(s: Seq<u8>) -> nat {
    if s.len() < LAYER_LEN {
        (LAYER_LEN - s.len()) as nat
    } else {
        0
    }
}

/// How many bytes are certainly still missing behind `s` before the column
/// record that `s` begins can be whole: what is missing of its head, or, once
/// the head tells the layer count, what is missing of its layers; 0 when `s`
/// holds the whole record.
pub open spec fn column_need(s: Seq<u8>) -> nat {
    if s.len() < COLUMN_HEAD_LEN {
        (COLUMN_HEAD_LEN - s.len()) as nat
    } else if s.len() < COLUMN_HEAD_LEN + LAYER_LEN * be_u16(s.skip(3)) {
        (COLUMN_HEAD_LEN + LAYER_LEN * be_u16(s.skip(3)) - s.len()) as nat
    } else {
        0
    }
}

/// How many bytes are certainly still missing behind `s` before the `n`
/// column records that `s` begins can be whole: what the first column that is
/// not whole is missing; 0 when `s` holds all `n`.
pub open spec fn columns_need(s: Seq<u8>, n: nat) -> nat
    decreases n,
{
    if n == 0 {
        0
    } else if column_need(s) > 0 {
        column_need(s)
    } else {
        columns_need(s.skip(COLUMN_HEAD_LEN + LAYER_LEN * be_u16(s.skip(3))), (n - 1) as nat)
    }
}

/// How many bytes are certainly still missing behind `s` before the chunk
/// record that `s` begins can be whole: what is missing of its head, or of
/// the first column that is not whole; 0 when `s` holds the whole record.
pub open spec fn chunk_need(s: Seq<u8>) -> nat {
    if s.len() < CHUNK_HEAD_LEN {
        (CHUNK_HEAD_LEN - s.len()) as nat
    } else {
        columns_need(s.skip(CHUNK_HEAD_LEN as int), CHUNK_COLUMNS as nat)
    }
}

} // verus!
