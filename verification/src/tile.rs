//! The decoded chunk and its parts, and the readers that build them.

use crate::endian::{be_i32, be_u16, decode_u16};
use crate::format::{
    chunk_bytes, chunk_need, column_bytes, column_need, columns_bytes, columns_need,
    decode_chunk, decode_column, decode_columns, decode_layer, decode_layers, layer_at,
    layer_bytes, layer_need, BlockInfo, ChunkModel, ChunkPos, ColumnModel, CHUNK_COLUMNS,
    CHUNK_HEAD_LEN, COLUMN_HEAD_LEN, LAYER_LEN, MAX_LAYERS,
};
use crate::laws::{
    lemma_chunk_bytes_len, lemma_chunk_consumed, lemma_chunk_need_zero, lemma_column_consumed,
    lemma_column_need_zero, lemma_columns_bytes_push, lemma_layer_consumed,
};
use crate::reader::{ByteReader, ReadError};
use vstd::prelude::*;
use vstd::slice::slice_subrange;

verus! {

impl BlockInfo {
    /// Reads one layer record: `y`, then `id`.
    ///
    /// Succeeds exactly when the source holds a whole layer record, and then
    /// leaves the source just behind it.
    pub fn read(r: &mut ByteReader<'_>) -> (res: Result<BlockInfo, ReadError>)
        ensures
            match res {
                Ok(layer) => {
                    &&& decode_layer(old(r)@) == Some(layer)
                    &&& old(r)@ == layer_bytes(layer) + final(r)@
                },
                Err(e) => {
                    &&& e == ReadError::UnexpectedEof
                    &&& decode_layer(old(r)@) is None
                    &&& final(r)@.is_suffix_of(old(r)@)
                },
            },
    {
        let y = r.read_i32()?;
        let id = r.read_u32()?;
        proof {
            lemma_layer_consumed(old(r)@);
            assert(r@ =~= old(r)@.skip(LAYER_LEN as int));
        }
        Ok(BlockInfo { y, id })
    }

    /// How many more bytes a source that has given `prefix` must give before
    /// a layer record is whole; 0 when `prefix` holds one.
    pub fn bytes_needed(prefix: &[u8]) -> (n: usize)
        ensures
            n == layer_need(prefix@),
            n == 0 <==> decode_layer(prefix@) is Some,
    {
        if prefix.len() < LAYER_LEN {
            LAYER_LEN - prefix.len()
        } else {
            0
        }
    }
}

/// One vertical stack of blocks at a cell of the chunk's grid.
#[derive(Debug, PartialEq, Eq)]
pub struct BlockColumn {
    biome: u16,
    light: u8,
    layers: Vec<BlockInfo>,
}

impl View for BlockColumn {
    type V = ColumnModel;

    closed spec fn view(&self) -> ColumnModel {
        ColumnModel { biome: self.biome, light: self.light, layers: self.layers@ }
    }
}

impl BlockColumn {
    #[verifier::type_invariant]
    spec fn well_formed(&self) -> bool {
        self.layers@.len() <= MAX_LAYERS
    }

    /// The biome identifier.
    pub fn biome(&self) -> (v: u16)
        ensures
            v == self@.biome,
    {
        self.biome
    }

    /// The ambient light level.
    pub fn light(&self) -> (v: u8)
        ensures
            v == self@.light,
    {
        self.light
    }

    /// The layers, top to bottom, in the order of the stream.
    pub fn layers(&self) -> (ls: &[BlockInfo])
        ensures
            ls@ == self@.layers,
            self@.wf(),
    {
        proof {
            use_type_invariant(self);
        }
        self.layers.as_slice()
    }

    /// How many more bytes a source that has given `prefix` must certainly
    /// give before a column record is whole: what is missing of the head, or,
    /// once the head is there, of the layers it declares; 0 when `prefix`
    /// holds a whole record.
    pub fn bytes_needed(prefix: &[u8]) -> (n: usize)
        ensures
            n == column_need(prefix@),
            n == 0 <==> decode_column(prefix@) is Some,
    {
        proof {
            lemma_column_need_zero(prefix@);
            assert(prefix@.skip(0) =~= prefix@);
        }
        column_span(prefix, 0).0
    }

    /// Reads one column record: biome, light, layer count, then that many
    /// layers.
    ///
    /// Succeeds exactly when the source holds a whole column record, and
    /// then leaves the source just behind it.
    pub fn read(r: &mut ByteReader<'_>) -> (res: Result<BlockColumn, ReadError>)
        ensures
            match res {
                Ok(column) => {
                    &&& decode_column(old(r)@) == Some(column@)
                    &&& column@.wf()
                    &&& old(r)@ == column_bytes(column@) + final(r)@
                },
                Err(e) => {
                    &&& e == ReadError::UnexpectedEof
                    &&& decode_column(old(r)@) is None
                    &&& final(r)@.is_suffix_of(old(r)@)
                },
            },
    {
        let biome = r.read_u16()?;
        let light = r.read_u8()?;
        let num_layers = r.read_u16()? as usize;
        let ghost body = r@;
        let mut layers: Vec<BlockInfo> = Vec::with_capacity(num_layers);
        let mut i: usize = 0;
        proof {
            assert(body =~= old(r)@.skip(COLUMN_HEAD_LEN as int));
            assert(r@ =~= body.skip(LAYER_LEN * i));
        }
        while i < num_layers
            invariant
                i <= num_layers <= MAX_LAYERS,
                old(r)@.len() >= COLUMN_HEAD_LEN,
                num_layers == be_u16(old(r)@.skip(3)),
                body == old(r)@.skip(COLUMN_HEAD_LEN as int),
                layers@.len() == i,
                forall|k: int| 0 <= k < i ==> layers@[k] == layer_at(body, k),
                LAYER_LEN * i <= body.len(),
                r@ == body.skip(LAYER_LEN * i),
            decreases num_layers - i,
        {
            match BlockInfo::read(r) {
                Ok(layer) => {
                    proof {
                        lemma_decoded_layer_step(body, i as int, layer, r@);
                    }
                    layers.push(layer);
                },
                Err(e) => {
                    proof {
                        lemma_suffix_of_skip(r@, body, LAYER_LEN * i);
                        lemma_suffix_of_skip(r@, old(r)@, COLUMN_HEAD_LEN as int);
                    }
                    return Err(e);
                },
            }
            i += 1;
        }
        proof {
            lemma_decoded_column(old(r)@, ColumnModel { biome, light, layers: layers@ }, r@);
        }
        Ok(BlockColumn { biome, light, layers })
    }
}

/// What a vector of columns holds, column by column.
pub open spec fn column_models(columns: Seq<BlockColumn>) -> Seq<ColumnModel> {
    Seq::new(columns.len(), |i: int| columns[i]@)
}

/// One chunk: its place in the world's grid, the version tag of its record,
/// and its 256 columns, row by row.
#[derive(Debug, PartialEq, Eq)]
pub struct ChunkTile {
    pos: ChunkPos,
    version: u16,
    columns: Vec<BlockColumn>,
}

impl View for ChunkTile {
    type V = ChunkModel;

    closed spec fn view(&self) -> ChunkModel {
        ChunkModel { pos: self.pos, version: self.version, columns: column_models(self.columns@) }
    }
}

impl ChunkTile {
    #[verifier::type_invariant]
    spec fn well_formed(&self) -> bool {
        self@.wf()
    }

    /// The chunk's grid coordinates, `(x, z)`.
    pub fn pos(&self) -> (p: ChunkPos)
        ensures
            p == self@.pos,
    {
        self.pos
    }

    /// The version tag of the record the chunk was read from.
    pub fn version(&self) -> (v: u16)
        ensures
            v == self@.version,
    {
        self.version
    }

    /// The 256 columns, row by row.
    pub fn columns(&self) -> (cs: &[BlockColumn])
        ensures
            column_models(cs@) == self@.columns,
            cs@.len() == CHUNK_COLUMNS,
            self@.wf(),
    {
        proof {
            use_type_invariant(self);
        }
        self.columns.as_slice()
    }

    /// How many more bytes a source that has given `prefix` must certainly
    /// give before a chunk record is whole: what is missing of the head, or
    /// of the first column that is not whole; 0 when `prefix` holds a whole
    /// record.
    ///
    /// A caller that fetches this many bytes, adds them to `prefix` and asks
    /// again, until the answer is 0, has fetched one record and no byte more.
    pub fn bytes_needed(prefix: &[u8]) -> (n: usize)
        ensures
            n == chunk_need(prefix@),
            n == 0 <==> decode_chunk(prefix@) is Some,
    {
        proof {
            lemma_chunk_need_zero(prefix@);
        }
        if prefix.len() < CHUNK_HEAD_LEN {
            return CHUNK_HEAD_LEN - prefix.len();
        }
        let mut at: usize = CHUNK_HEAD_LEN;
        let mut k: usize = 0;
        while k < CHUNK_COLUMNS
            invariant
                k <= CHUNK_COLUMNS,
                CHUNK_HEAD_LEN <= at <= prefix@.len() <= usize::MAX,
                chunk_need(prefix@) == 0 <==> decode_chunk(prefix@) is Some,
                chunk_need(prefix@) == columns_need(
                    prefix@.skip(at as int),
                    (CHUNK_COLUMNS - k) as nat,
                ),
            decreases CHUNK_COLUMNS - k,
        {
            let span = column_span(prefix, at);
            if span.0 > 0 {
                return span.0;
            }
            assert(prefix@.skip(at as int).skip(span.1 as int) =~= prefix@.skip(at + span.1));
            at += span.1;
            k += 1;
        }
        0
    }

    /// Reads one chunk record: `x`, `z`, version, then 256 columns.
    ///
    /// Succeeds exactly when the source holds a whole chunk record, and then
    /// leaves the source just behind it. A source that ends anywhere inside
    /// the record gives `UnexpectedEof`, and no part of a chunk.
    pub fn read(r: &mut ByteReader<'_>) -> (res: Result<ChunkTile, ReadError>)
        ensures
            match res {
                Ok(tile) => {
                    &&& decode_chunk(old(r)@) == Some(tile@)
                    &&& tile@.wf()
                    &&& old(r)@ == chunk_bytes(tile@) + final(r)@
                },
                Err(e) => {
                    &&& e == ReadError::UnexpectedEof
                    &&& decode_chunk(old(r)@) is None
                    &&& final(r)@.is_suffix_of(old(r)@)
                },
            },
    {
        let x = r.read_i32()?;
        let z = r.read_i32()?;
        let version = r.read_u16()?;
        let ghost body = r@;
        let mut columns: Vec<BlockColumn> = Vec::with_capacity(CHUNK_COLUMNS);
        let mut k: usize = 0;
        proof {
            assert(body =~= old(r)@.skip(CHUNK_HEAD_LEN as int));
            assert(column_models(columns@) =~= Seq::empty());
            lemma_decoded_after_none(decode_columns(body, CHUNK_COLUMNS as nat));
            assert(body =~= columns_bytes(column_models(columns@)) + r@);
        }
        while k < CHUNK_COLUMNS
            invariant
                k <= CHUNK_COLUMNS,
                old(r)@.len() >= CHUNK_HEAD_LEN,
                body == old(r)@.skip(CHUNK_HEAD_LEN as int),
                columns@.len() == k,
                forall|i: int| 0 <= i < k ==> (#[trigger] columns@[i])@.wf(),
                body == columns_bytes(column_models(columns@)) + r@,
                decode_columns(body, CHUNK_COLUMNS as nat) == decoded_after(
                    column_models(columns@),
                    decode_columns(r@, (CHUNK_COLUMNS - k) as nat),
                ),
            decreases CHUNK_COLUMNS - k,
        {
            let ghost before = r@;
            let ghost done = column_models(columns@);
            match BlockColumn::read(r) {
                Ok(column) => {
                    proof {
                        lemma_decoded_after_step(
                            body,
                            done,
                            before,
                            column@,
                            r@,
                            (CHUNK_COLUMNS - k) as nat,
                        );
                        assert(column_models(columns@.push(column)) =~= done.push(column@));
                    }
                    columns.push(column);
                },
                Err(e) => {
                    proof {
                        lemma_suffix_of_tail(r@, before, columns_bytes(done));
                        lemma_suffix_of_skip(r@, old(r)@, CHUNK_HEAD_LEN as int);
                    }
                    return Err(e);
                },
            }
            k += 1;
        }
        proof {
            lemma_decoded_chunk(
                old(r)@,
                ChunkModel { pos: (x, z), version, columns: column_models(columns@) },
                r@,
            );
        }
        Ok(ChunkTile { pos: (x, z), version, columns })
    }
}

/// What is missing of the column record that starts at byte `at` of
/// `prefix`, and, when nothing is, the length of that record.
fn column_span(prefix: &[u8], at: usize) -> (span: (usize, usize))
    requires
        at <= prefix@.len(),
    ensures
        span.0 == column_need(prefix@.skip(at as int)),
        span.0 == 0 ==> span.1 == COLUMN_HEAD_LEN + LAYER_LEN * be_u16(
            prefix@.skip(at as int).skip(3),
        ),
        span.0 == 0 ==> at + span.1 <= prefix@.len(),
{
    let left = prefix.len() - at;
    if left < COLUMN_HEAD_LEN {
        return (COLUMN_HEAD_LEN - left, 0);
    }
    let count = decode_u16(slice_subrange(prefix, at + 3, prefix.len())) as usize;
    assert(prefix@.subrange(at + 3, prefix@.len() as int) =~= prefix@.skip(at as int).skip(3));
    let whole = COLUMN_HEAD_LEN + LAYER_LEN * count;
    if left < whole {
        (whole - left, 0)
    } else {
        (0, whole)
    }
}

/// A suffix of what follows the first `n` elements of `s` is a suffix of `s`.
proof fn lemma_suffix_of_skip(t: Seq<u8>, s: Seq<u8>, n: int)
    requires
        0 <= n <= s.len(),
        t.is_suffix_of(s.skip(n)),
    ensures
        t.is_suffix_of(s),
{
    assert(t =~= s.subrange(s.len() - t.len(), s.len() as int));
}

/// A suffix of `tail` is a suffix of anything that ends in `tail`.
proof fn lemma_suffix_of_tail(t: Seq<u8>, tail: Seq<u8>, head: Seq<u8>)
    requires
        t.is_suffix_of(tail),
    ensures
        t.is_suffix_of(head + tail),
{
    let s = head + tail;
    assert(t =~= s.subrange(s.len() - t.len(), s.len() as int));
}

/// One more layer decoded: `layer` from the record at byte `8 * i` of
/// `body`, leaving `after`.
proof fn lemma_decoded_layer_step(body: Seq<u8>, i: int, layer: BlockInfo, after: Seq<u8>)
    requires
        0 <= i,
        LAYER_LEN * i <= body.len(),
        decode_layer(body.skip(LAYER_LEN * i)) == Some(layer),
        body.skip(LAYER_LEN * i) == layer_bytes(layer) + after,
    ensures
        layer == layer_at(body, i),
        LAYER_LEN * (i + 1) <= body.len(),
        after == body.skip(LAYER_LEN * (i + 1)),
{
    let before = body.skip(LAYER_LEN * i);
    lemma_layer_consumed(before);
    assert(before.skip(4) =~= body.skip(LAYER_LEN * i + 4));
    assert(after =~= before.skip(LAYER_LEN as int));
    assert(after =~= body.skip(LAYER_LEN * (i + 1)));
}

/// All layers decoded: the column that the head and the layers make is what
/// the whole decodes to, and its record is what was taken.
proof fn lemma_decoded_column(start: Seq<u8>, c: ColumnModel, rest: Seq<u8>)
    requires
        start.len() >= COLUMN_HEAD_LEN,
        c.biome == be_u16(start),
        c.light == start[2],
        c.layers.len() == be_u16(start.skip(3)),
        forall|k: int| 0 <= k < c.layers.len() ==> c.layers[k] == layer_at(
            start.skip(COLUMN_HEAD_LEN as int),
            k,
        ),
        LAYER_LEN * c.layers.len() <= start.skip(COLUMN_HEAD_LEN as int).len(),
        rest == start.skip(COLUMN_HEAD_LEN as int).skip(LAYER_LEN * c.layers.len()),
    ensures
        decode_column(start) == Some(c),
        c.wf(),
        start == column_bytes(c) + rest,
{
    let body = start.skip(COLUMN_HEAD_LEN as int);
    let n = c.layers.len();
    assert(c.layers =~= decode_layers(body, n)->0);
    assert(decode_column(start)->0 =~= c);
    lemma_column_consumed(start);
    assert(rest =~= start.skip(COLUMN_HEAD_LEN + LAYER_LEN * n));
}

/// What is decoded in all once `done` is decoded and `rest` is what the
/// bytes behind it decode to.
spec fn decoded_after(done: Seq<ColumnModel>, rest: Option<Seq<ColumnModel>>) -> Option<
    Seq<ColumnModel>,
> {
    match rest {
        None => None,
        Some(more) => Some(done + more),
    }
}

/// Nothing decoded yet: what is decoded in all is what the bytes decode to.
proof fn lemma_decoded_after_none(rest: Option<Seq<ColumnModel>>)
    ensures
        decoded_after(Seq::empty(), rest) == rest,
        columns_bytes(Seq::<ColumnModel>::empty()) == Seq::<u8>::empty(),
{
    if rest is Some {
        assert(Seq::<ColumnModel>::empty() + rest->0 =~= rest->0);
    }
}

/// One more column decoded: `c` from the front of `before`, leaving `after`.
proof fn lemma_decoded_after_step(
    body: Seq<u8>,
    done: Seq<ColumnModel>,
    before: Seq<u8>,
    c: ColumnModel,
    after: Seq<u8>,
    left: nat,
)
    requires
        left > 0,
        body == columns_bytes(done) + before,
        decode_column(before) == Some(c),
        before == column_bytes(c) + after,
    ensures
        body == columns_bytes(done.push(c)) + after,
        decoded_after(done, decode_columns(before, left)) == decoded_after(
            done.push(c),
            decode_columns(after, (left - 1) as nat),
        ),
{
    let rest = decode_columns(after, (left - 1) as nat);
    assert(after =~= before.skip(column_bytes(c).len() as int));
    assert(decode_columns(before, left) == decoded_after(seq![c], rest));
    if rest is Some {
        assert(done + (seq![c] + rest->0) =~= done.push(c) + rest->0);
    }
    lemma_columns_bytes_push(done, c);
    assert(body =~= columns_bytes(done.push(c)) + after);
}

/// All columns decoded: the chunk that the head and the columns make is
/// what the whole decodes to, and its record is what was taken.
proof fn lemma_decoded_chunk(start: Seq<u8>, t: ChunkModel, rest: Seq<u8>)
    requires
        start.len() >= CHUNK_HEAD_LEN,
        t.pos == (be_i32(start), be_i32(start.skip(4))),
        t.version == be_u16(start.skip(8)),
        t.columns.len() == CHUNK_COLUMNS,
        decode_columns(start.skip(CHUNK_HEAD_LEN as int), CHUNK_COLUMNS as nat) == decoded_after(
            t.columns,
            decode_columns(rest, 0),
        ),
        start.skip(CHUNK_HEAD_LEN as int) == columns_bytes(t.columns) + rest,
    ensures
        decode_chunk(start) == Some(t),
        t.wf(),
        start == chunk_bytes(t) + rest,
{
    let body = start.skip(CHUNK_HEAD_LEN as int);
    assert(t.columns + Seq::<ColumnModel>::empty() =~= t.columns);
    assert(decode_chunk(start)->0 =~= t);
    lemma_chunk_consumed(start);
    lemma_chunk_bytes_len(t);
    assert(rest =~= body.skip(columns_bytes(t.columns).len() as int));
    assert(rest =~= start.skip(chunk_bytes(t).len() as int));
}

} // verus!
