//! What holds between the layout of a record and what it decodes to.

use crate::endian::{
    be_i32, be_u16, i32_bytes, lemma_bytes_read_i32, lemma_bytes_read_u16, lemma_bytes_read_u32,
    lemma_read_i32_bytes, lemma_read_u16_bytes, lemma_read_u32_bytes, u16_bytes, u32_bytes,
};
use crate::format::{
    chunk_bytes, chunk_need, column_bytes, column_need, columns_bytes, columns_need, decode_chunk,
    decode_column, decode_columns, decode_layer, decode_layers, layer_bytes, layers_bytes,
    BlockInfo, ChunkModel, ColumnModel, CHUNK_COLUMNS, CHUNK_HEAD_LEN, COLUMN_HEAD_LEN, LAYER_LEN,
};
use vstd::prelude::*;

verus! {

/// A layer record is eight bytes, and decodes to the layer it was laid out
/// from, whatever bytes follow it.
pub proof fn lemma_layer_round_trip(l: BlockInfo, rest: Seq<u8>)
    ensures
        layer_bytes(l).len() == LAYER_LEN,
        decode_layer(layer_bytes(l) + rest) == Some(l),
{
    let s = layer_bytes(l) + rest;
    lemma_read_i32_bytes(l.y, u32_bytes(l.id) + rest);
    lemma_read_u32_bytes(l.id, rest);
    assert(s =~= i32_bytes(l.y) + (u32_bytes(l.id) + rest));
    assert(s.skip(4) =~= u32_bytes(l.id) + rest);
}

/// The bytes that a layer was decoded from are its record: `s` is that
/// record followed by the rest of `s`.
pub proof fn lemma_layer_consumed(s: Seq<u8>)
    requires
        decode_layer(s) is Some,
    ensures
        s == layer_bytes(decode_layer(s)->0) + s.skip(LAYER_LEN as int),
{
    let l = decode_layer(s)->0;
    lemma_bytes_read_i32(s);
    lemma_bytes_read_u32(s.skip(4));
    assert(s.skip(4).take(4) =~= s.subrange(4, 8));
    assert(s =~= s.take(4) + s.subrange(4, 8) + s.skip(8));
}

/// Every byte of a run of layer records belongs to the layer it falls in:
/// byte `k` of the record of layer `i` is byte `8 * i + k` of the run.
pub proof fn lemma_layers_bytes_index(ls: Seq<BlockInfo>, i: int, k: int)
    requires
        0 <= i < ls.len(),
        0 <= k < LAYER_LEN,
    ensures
        layers_bytes(ls).len() == LAYER_LEN * ls.len(),
        layers_bytes(ls)[LAYER_LEN * i + k] == layer_bytes(ls[i])[k],
{
    let j = 8 * i + k;
    assert(j / 8 == i && j % 8 == k) by (nonlinear_arith)
        requires
            j == 8 * i + k,
            0 <= k < 8,
    ;
}

/// In a run of layer records, with anything behind it, the record of layer
/// `i` starts at byte `8 * i`.
pub proof fn lemma_layer_record_at(ls: Seq<BlockInfo>, rest: Seq<u8>, i: int)
    requires
        0 <= i < ls.len(),
    ensures
        layers_bytes(ls).len() == LAYER_LEN * ls.len(),
        (layers_bytes(ls) + rest).skip(LAYER_LEN * i) == layer_bytes(ls[i]) + (layers_bytes(ls)
            + rest).skip(LAYER_LEN * i + LAYER_LEN),
{
    let s = layers_bytes(ls) + rest;
    let at = s.skip(LAYER_LEN * i);
    let joined = layer_bytes(ls[i]) + s.skip(LAYER_LEN * i + LAYER_LEN);
    lemma_layer_round_trip(ls[i], rest);
    assert(at.len() == joined.len());
    assert forall|k: int| 0 <= k < at.len() implies at[k] == joined[k] by {
        if k < LAYER_LEN {
            lemma_layers_bytes_index(ls, i, k);
            assert(at[k] == layers_bytes(ls)[LAYER_LEN * i + k]);
        }
    }
    assert(at =~= joined);
}

/// Layers keep the order of the stream: the `i`-th decoded layer is the one
/// whose record starts at byte `8 * i`.
pub proof fn lemma_layer_order(s: Seq<u8>, n: nat, i: int)
    requires
        decode_layers(s, n) is Some,
        0 <= i < n,
    ensures
        decode_layers(s, n)->0.len() == n,
        decode_layer(s.skip(LAYER_LEN * i)) == Some(decode_layers(s, n)->0[i]),
{
    assert(s.skip(LAYER_LEN * i).skip(4) =~= s.skip(LAYER_LEN * i + 4));
}

/// A run of layer records decodes to the layers it was laid out from,
/// whatever bytes follow it.
pub proof fn lemma_layers_round_trip(ls: Seq<BlockInfo>, rest: Seq<u8>)
    ensures
        layers_bytes(ls).len() == LAYER_LEN * ls.len(),
        decode_layers(layers_bytes(ls) + rest, ls.len()) == Some(ls),
{
    let s = layers_bytes(ls) + rest;
    let got = decode_layers(s, ls.len())->0;
    assert forall|i: int| 0 <= i < ls.len() implies got[i] == ls[i] by {
        lemma_layer_record_at(ls, rest, i);
        lemma_layer_round_trip(ls[i], s.skip(LAYER_LEN * i + LAYER_LEN));
        lemma_layer_order(s, ls.len(), i);
    }
    assert(got =~= ls);
}

/// The bytes that `n` layers were decoded from are their records: `s` is
/// those records followed by the rest of `s`.
pub proof fn lemma_layers_consumed(s: Seq<u8>, n: nat)
    requires
        decode_layers(s, n) is Some,
    ensures
        decode_layers(s, n)->0.len() == n,
        s == layers_bytes(decode_layers(s, n)->0) + s.skip(LAYER_LEN * n),
{
    let ls = decode_layers(s, n)->0;
    let joined = layers_bytes(ls) + s.skip(LAYER_LEN * n);
    assert(joined.len() == s.len());
    assert forall|j: int| 0 <= j < s.len() implies joined[j] == s[j] by {
        if j < LAYER_LEN * n {
            let i = j / 8;
            let k = j % 8;
            assert(j == 8 * i + k && 0 <= i < n && 0 <= k < 8) by (nonlinear_arith)
                requires
                    0 <= j < 8 * n,
                    i == j / 8,
                    k == j % 8,
            ;
            let at = s.skip(LAYER_LEN * i);
            lemma_layers_bytes_index(ls, i, k);
            lemma_layer_order(s, n, i);
            lemma_layer_consumed(at);
            assert(at[k] == s[j]);
            assert((layer_bytes(ls[i]) + at.skip(LAYER_LEN as int))[k] == layer_bytes(ls[i])[k]);
        }
    }
    assert(s =~= joined);
}

/// A column record is five bytes and its layers, and decodes to the column
/// it was laid out from, whatever bytes follow it.
pub proof fn lemma_column_round_trip(c: ColumnModel, rest: Seq<u8>)
    requires
        c.wf(),
    ensures
        column_bytes(c).len() == COLUMN_HEAD_LEN + LAYER_LEN * c.layers.len(),
        decode_column(column_bytes(c) + rest) == Some(c),
{
    let s = column_bytes(c) + rest;
    let count = c.layers.len() as u16;
    let body = layers_bytes(c.layers) + rest;
    lemma_layers_round_trip(c.layers, rest);
    lemma_read_u16_bytes(c.biome, seq![c.light] + u16_bytes(count) + body);
    lemma_read_u16_bytes(count, body);
    assert(s =~= u16_bytes(c.biome) + (seq![c.light] + u16_bytes(count) + body));
    assert(s.skip(3) =~= u16_bytes(count) + body);
    assert(s.skip(COLUMN_HEAD_LEN as int) =~= body);
    assert(decode_column(s)->0 =~= c);
}

/// The five bytes a column's biome, light and layer count are read from are
/// the layout of what was read.
proof fn lemma_column_head_consumed(s: Seq<u8>)
    requires
        s.len() >= COLUMN_HEAD_LEN,
    ensures
        u16_bytes(be_u16(s)) + seq![s[2]] + u16_bytes(be_u16(s.skip(3))) == s.take(
            COLUMN_HEAD_LEN as int,
        ),
{
    lemma_bytes_read_u16(s);
    lemma_bytes_read_u16(s.skip(3));
    assert(s.skip(3).take(2) =~= s.subrange(3, 5));
    assert(s.take(2) + seq![s[2]] + s.subrange(3, 5) =~= s.take(COLUMN_HEAD_LEN as int));
}

/// The record of a decoded column is the five bytes its head was decoded
/// from, then the records of its layers.
proof fn lemma_column_split(s: Seq<u8>)
    requires
        decode_column(s) is Some,
    ensures
        decode_column(s)->0.layers.len() == be_u16(s.skip(3)),
        column_bytes(decode_column(s)->0) == s.take(COLUMN_HEAD_LEN as int) + layers_bytes(
            decode_column(s)->0.layers,
        ),
{
    lemma_column_head_consumed(s);
}

/// If what follows the first `n` bytes of `s` begins with `b`, then `s`
/// begins with its first `n` bytes followed by `b`.
proof fn lemma_head_and_body(s: Seq<u8>, n: int, b: Seq<u8>)
    requires
        0 <= n <= s.len(),
        b.len() <= s.len() - n,
        s.skip(n) == b + s.skip(n).skip(b.len() as int),
    ensures
        s == (s.take(n) + b) + s.skip((s.take(n) + b).len() as int),
{
    let joined = (s.take(n) + b) + s.skip(n + b.len());
    assert(joined.len() == s.len());
    assert forall|i: int| 0 <= i < s.len() implies s[i] == joined[i] by {
        if n <= i < n + b.len() {
            assert(s.skip(n)[i - n] == s[i]);
            assert((b + s.skip(n).skip(b.len() as int))[i - n] == b[i - n]);
        }
    }
    assert(s =~= joined);
}

/// A decoded column is well formed, and the bytes it was decoded from are
/// its record: `s` is that record followed by the rest of `s`.
pub proof fn lemma_column_consumed(s: Seq<u8>)
    requires
        decode_column(s) is Some,
    ensures
        decode_column(s)->0.wf(),
        column_bytes(decode_column(s)->0).len() == COLUMN_HEAD_LEN + LAYER_LEN * decode_column(
            s,
        )->0.layers.len(),
        s == column_bytes(decode_column(s)->0) + s.skip(
            column_bytes(decode_column(s)->0).len() as int,
        ),
{
    let c = decode_column(s)->0;
    let body = s.skip(COLUMN_HEAD_LEN as int);
    lemma_column_split(s);
    lemma_layers_consumed(body, be_u16(s.skip(3)) as nat);
    lemma_head_and_body(s, COLUMN_HEAD_LEN as int, layers_bytes(c.layers));
}

/// The records of a run of columns with one more column behind it are the
/// records of the run, then the record of that column.
pub proof fn lemma_columns_bytes_push(cs: Seq<ColumnModel>, c: ColumnModel)
    ensures
        columns_bytes(cs.push(c)) == columns_bytes(cs) + column_bytes(c),
    decreases cs.len(),
{
    if cs.len() == 0 {
        assert(cs.push(c).drop_first() =~= cs);
        assert(columns_bytes(cs.push(c)) =~= columns_bytes(cs) + column_bytes(c));
    } else {
        lemma_columns_bytes_push(cs.drop_first(), c);
        assert(cs.push(c).drop_first() =~= cs.drop_first().push(c));
        assert(columns_bytes(cs.push(c)) =~= columns_bytes(cs) + column_bytes(c));
    }
}

/// A run of column records decodes to the columns it was laid out from,
/// whatever bytes follow it.
pub proof fn lemma_columns_round_trip(cs: Seq<ColumnModel>, rest: Seq<u8>)
    requires
        forall|i: int| 0 <= i < cs.len() ==> (#[trigger] cs[i]).wf(),
    ensures
        decode_columns(columns_bytes(cs) + rest, cs.len()) == Some(cs),
    decreases cs.len(),
{
    if cs.len() > 0 {
        let s = columns_bytes(cs) + rest;
        let tail = columns_bytes(cs.drop_first()) + rest;
        lemma_column_round_trip(cs[0], tail);
        assert forall|i: int| 0 <= i < cs.drop_first().len() implies (#[trigger] cs.drop_first()[i]).wf() by {
            assert(cs.drop_first()[i] == cs[i + 1]);
        }
        lemma_columns_round_trip(cs.drop_first(), rest);
        assert(s =~= column_bytes(cs[0]) + tail);
        assert(s.skip(column_bytes(cs[0]).len() as int) =~= tail);
        assert(seq![cs[0]] + cs.drop_first() =~= cs);
    } else {
        assert(cs =~= Seq::empty());
    }
}

/// Decoded columns are as many as were asked for and well formed, and the
/// bytes they were decoded from are their records: `s` is those records
/// followed by the rest of `s`.
pub proof fn lemma_columns_consumed(s: Seq<u8>, n: nat)
    requires
        decode_columns(s, n) is Some,
    ensures
        decode_columns(s, n)->0.len() == n,
        forall|i: int| 0 <= i < n ==> (#[trigger] decode_columns(s, n)->0[i]).wf(),
        columns_bytes(decode_columns(s, n)->0).len() <= s.len(),
        s == columns_bytes(decode_columns(s, n)->0) + s.skip(
            columns_bytes(decode_columns(s, n)->0).len() as int,
        ),
    decreases n,
{
    let cs = decode_columns(s, n)->0;
    if n == 0 {
        assert(s =~= columns_bytes(cs) + s.skip(0));
    } else {
        let c = decode_column(s)->0;
        let tail = s.skip(column_bytes(c).len() as int);
        let more = decode_columns(tail, (n - 1) as nat)->0;
        lemma_column_consumed(s);
        lemma_columns_consumed(tail, (n - 1) as nat);
        assert(cs.drop_first() =~= more);
        assert(tail.skip(columns_bytes(more).len() as int) =~= s.skip(
            columns_bytes(cs).len() as int,
        ));
        assert(s =~= columns_bytes(cs) + s.skip(columns_bytes(cs).len() as int));
    }
}

/// A chunk record decodes to the chunk it was laid out from, whatever bytes
/// follow it: laying a chunk out and decoding the bytes gives the chunk
/// back, with its position, its version and every column and layer in place.
pub proof fn lemma_chunk_round_trip(t: ChunkModel, rest: Seq<u8>)
    requires
        t.wf(),
    ensures
        decode_chunk(chunk_bytes(t) + rest) == Some(t),
{
    let s = chunk_bytes(t) + rest;
    let body = columns_bytes(t.columns) + rest;
    lemma_read_i32_bytes(t.pos.0, i32_bytes(t.pos.1) + u16_bytes(t.version) + body);
    lemma_read_i32_bytes(t.pos.1, u16_bytes(t.version) + body);
    lemma_read_u16_bytes(t.version, body);
    lemma_columns_round_trip(t.columns, rest);
    assert(s =~= i32_bytes(t.pos.0) + (i32_bytes(t.pos.1) + u16_bytes(t.version) + body));
    assert(s.skip(4) =~= i32_bytes(t.pos.1) + (u16_bytes(t.version) + body));
    assert(s.skip(8) =~= u16_bytes(t.version) + body);
    assert(s.skip(CHUNK_HEAD_LEN as int) =~= body);
    assert(decode_chunk(s)->0 =~= t);
}

/// The ten bytes a chunk's position and version are read from are the
/// layout of what was read.
proof fn lemma_chunk_head_consumed(s: Seq<u8>)
    requires
        s.len() >= CHUNK_HEAD_LEN,
    ensures
        i32_bytes(be_i32(s)) + i32_bytes(be_i32(s.skip(4))) + u16_bytes(be_u16(s.skip(8)))
            == s.take(CHUNK_HEAD_LEN as int),
{
    lemma_bytes_read_i32(s);
    lemma_bytes_read_i32(s.skip(4));
    lemma_bytes_read_u16(s.skip(8));
    assert(s.skip(4).take(4) =~= s.subrange(4, 8));
    assert(s.skip(8).take(2) =~= s.subrange(8, 10));
    assert(s.take(4) + s.subrange(4, 8) + s.subrange(8, 10) =~= s.take(CHUNK_HEAD_LEN as int));
}

/// A decoded chunk has 256 columns, each of them well formed.
proof fn lemma_chunk_wf(s: Seq<u8>)
    requires
        decode_chunk(s) is Some,
    ensures
        decode_chunk(s)->0.wf(),
{
    let t = decode_chunk(s)->0;
    let body = s.skip(CHUNK_HEAD_LEN as int);
    lemma_columns_consumed(body, CHUNK_COLUMNS as nat);
    assert(t.columns == decode_columns(body, CHUNK_COLUMNS as nat)->0);
}

/// The record of a decoded chunk is the ten bytes it was decoded from,
/// then the records of its columns.
proof fn lemma_chunk_split(s: Seq<u8>)
    requires
        decode_chunk(s) is Some,
    ensures
        chunk_bytes(decode_chunk(s)->0) == s.take(CHUNK_HEAD_LEN as int) + columns_bytes(decode_chunk(s)->0.columns),
{
    lemma_chunk_head_consumed(s);
}

/// A decoded chunk is well formed, so it has exactly 256 columns, and the
/// bytes it was decoded from are its record: `s` is that record followed by
/// the rest of `s`.
pub proof fn lemma_chunk_consumed(s: Seq<u8>)
    requires
        decode_chunk(s) is Some,
    ensures
        decode_chunk(s)->0.wf(),
        chunk_bytes(decode_chunk(s)->0).len() <= s.len(),
        s == chunk_bytes(decode_chunk(s)->0) + s.skip(chunk_bytes(decode_chunk(s)->0).len() as int),
{
    let t = decode_chunk(s)->0;
    let body = s.skip(CHUNK_HEAD_LEN as int);
    lemma_chunk_wf(s);
    lemma_chunk_split(s);
    lemma_columns_consumed(body, CHUNK_COLUMNS as nat);
    lemma_head_and_body(s, CHUNK_HEAD_LEN as int, columns_bytes(t.columns));
}

/// A column whose record declares no layers decodes to a column without
/// layers, and its record is the five bytes of its head: no layer bytes are
/// taken from what follows.
pub proof fn lemma_empty_column(s: Seq<u8>)
    requires
        s.len() >= COLUMN_HEAD_LEN,
        be_u16(s.skip(3)) == 0,
    ensures
        decode_column(s) == Some(
            ColumnModel { biome: be_u16(s), light: s[2], layers: Seq::empty() },
        ),
        column_bytes(decode_column(s)->0).len() == COLUMN_HEAD_LEN,
{
    let c = ColumnModel { biome: be_u16(s), light: s[2], layers: Seq::empty() };
    assert(decode_column(s)->0 =~= c);
}

/// A run of column records holds at least the five bytes of each column's
/// head.
pub proof fn lemma_columns_bytes_len(cs: Seq<ColumnModel>)
    ensures
        columns_bytes(cs).len() >= 5 * cs.len(),
    decreases cs.len(),
{
    if cs.len() > 0 {
        lemma_columns_bytes_len(cs.drop_first());
    }
}

/// A chunk record is the ten bytes of its head and the records of its
/// columns.
pub proof fn lemma_chunk_bytes_len(t: ChunkModel)
    ensures
        chunk_bytes(t).len() == 10 + columns_bytes(t.columns).len(),
        chunk_bytes(t).len() >= 10 + 5 * t.columns.len(),
{
    lemma_columns_bytes_len(t.columns);
}

/// No chunk record is shorter than its head and 256 column heads: a stream
/// that ends sooner, such as one that ends right behind the chunk's head,
/// does not decode.
pub proof fn lemma_short_stream_fails(s: Seq<u8>)
    requires
        s.len() < 10 + 5 * 256,
    ensures
        decode_chunk(s) is None,
{
    if decode_chunk(s) is Some {
        lemma_chunk_consumed(s);
        lemma_chunk_bytes_len(decode_chunk(s)->0);
    }
}

/// Two well-formed chunks whose records begin the same bytes are the same
/// chunk: no record is the beginning of another chunk's record.
pub proof fn lemma_record_unique(a: ChunkModel, rest_a: Seq<u8>, b: ChunkModel, rest_b: Seq<u8>)
    requires
        a.wf(),
        b.wf(),
        chunk_bytes(a) + rest_a == chunk_bytes(b) + rest_b,
    ensures
        a == b,
{
    lemma_chunk_round_trip(a, rest_a);
    lemma_chunk_round_trip(b, rest_b);
}

/// If the first `n` bytes of `whole` begin with `rec`, so does `whole`.
proof fn lemma_begins_with(whole: Seq<u8>, n: int, rec: Seq<u8>)
    requires
        0 <= n <= whole.len(),
        rec.len() <= n,
        whole.take(n) == rec + whole.take(n).skip(rec.len() as int),
    ensures
        whole == rec + whole.skip(rec.len() as int),
{
    let cut = whole.take(n);
    let joined = rec + whole.skip(rec.len() as int);
    assert forall|i: int| 0 <= i < whole.len() implies whole[i] == joined[i] by {
        if i < rec.len() {
            assert(cut[i] == whole[i]);
            assert((rec + cut.skip(rec.len() as int))[i] == rec[i]);
        }
    }
    assert(whole =~= joined);
}

/// A record cut short anywhere does not decode: with its last byte missing,
/// or any more of its end, a chunk record gives no chunk, never one of
/// fewer columns.
pub proof fn lemma_truncated_record_fails(t: ChunkModel, n: int)
    requires
        t.wf(),
        0 <= n < chunk_bytes(t).len(),
    ensures
        decode_chunk(chunk_bytes(t).take(n)) is None,
{
    let whole = chunk_bytes(t);
    let cut = whole.take(n);
    if decode_chunk(cut) is Some {
        let got = decode_chunk(cut)->0;
        let rec = chunk_bytes(got);
        lemma_chunk_consumed(cut);
        lemma_begins_with(whole, n, rec);
        assert(whole + Seq::<u8>::empty() == whole) by {
            assert(whole + Seq::<u8>::empty() =~= whole);
        }
        lemma_record_unique(t, Seq::empty(), got, whole.skip(rec.len() as int));
        assert(rec.len() == whole.len());
    }
}

/// Nothing is missing of a column record exactly when it decodes.
pub proof fn lemma_column_need_zero(s: Seq<u8>)
    ensures
        column_need(s) == 0 <==> decode_column(s) is Some,
        decode_column(s) is Some ==> column_bytes(decode_column(s)->0).len() == COLUMN_HEAD_LEN
            + LAYER_LEN * be_u16(s.skip(3)),
{
    if decode_column(s) is Some {
        lemma_column_consumed(s);
    }
}

/// Nothing is missing of a run of column records exactly when it decodes.
pub proof fn lemma_columns_need_zero(s: Seq<u8>, n: nat)
    ensures
        columns_need(s, n) == 0 <==> decode_columns(s, n) is Some,
    decreases n,
{
    if n > 0 {
        lemma_column_need_zero(s);
        if decode_column(s) is Some {
            lemma_columns_need_zero(
                s.skip(COLUMN_HEAD_LEN + LAYER_LEN * be_u16(s.skip(3))),
                (n - 1) as nat,
            );
        }
    }
}

/// Nothing is missing of a chunk record exactly when it decodes.
pub proof fn lemma_chunk_need_zero(s: Seq<u8>)
    ensures
        chunk_need(s) == 0 <==> decode_chunk(s) is Some,
{
    if s.len() >= CHUNK_HEAD_LEN {
        lemma_columns_need_zero(s.skip(CHUNK_HEAD_LEN as int), CHUNK_COLUMNS as nat);
    }
}

/// Whatever completes a column record is at least as long as what is said
/// to be missing: no shorter continuation of `s` decodes.
pub proof fn lemma_column_need_is_owed(s: Seq<u8>, more: Seq<u8>)
    requires
        decode_column(s + more) is Some,
    ensures
        column_need(s) <= more.len(),
{
    let whole = s + more;
    lemma_column_need_zero(whole);
    if s.len() >= COLUMN_HEAD_LEN {
        assert(whole.skip(3)[0] == s.skip(3)[0]);
        assert(whole.skip(3)[1] == s.skip(3)[1]);
    }
}

/// Whatever completes a run of column records is at least as long as what
/// is said to be missing.
pub proof fn lemma_columns_need_is_owed(s: Seq<u8>, more: Seq<u8>, n: nat)
    requires
        decode_columns(s + more, n) is Some,
    ensures
        columns_need(s, n) <= more.len(),
    decreases n,
{
    if n > 0 {
        let whole = s + more;
        lemma_column_need_zero(whole);
        if s.len() >= COLUMN_HEAD_LEN {
            let taken = COLUMN_HEAD_LEN + LAYER_LEN * be_u16(s.skip(3));
            assert(whole.skip(3)[0] == s.skip(3)[0]);
            assert(whole.skip(3)[1] == s.skip(3)[1]);
            if s.len() >= taken {
                assert(whole.skip(taken) =~= s.skip(taken) + more);
                lemma_columns_need_is_owed(s.skip(taken), more, (n - 1) as nat);
            }
        }
    }
}

/// Whatever completes a chunk record is at least as long as what is said to
/// be missing: no shorter continuation of `s` decodes.
pub proof fn lemma_chunk_need_is_owed(s: Seq<u8>, more: Seq<u8>)
    requires
        decode_chunk(s + more) is Some,
    ensures
        chunk_need(s) <= more.len(),
{
    if s.len() >= CHUNK_HEAD_LEN {
        assert((s + more).skip(CHUNK_HEAD_LEN as int) =~= s.skip(CHUNK_HEAD_LEN as int) + more);
        lemma_columns_need_is_owed(s.skip(CHUNK_HEAD_LEN as int), more, CHUNK_COLUMNS as nat);
    }
}

/// If `whole` begins with `rec`, then `rec` is the first `n` bytes of
/// `whole` and the bytes from there to the end of `rec`.
proof fn lemma_split_record(whole: Seq<u8>, n: int, rec: Seq<u8>)
    requires
        0 <= n <= rec.len() <= whole.len(),
        whole == rec + whole.skip(rec.len() as int),
    ensures
        whole.take(n) + whole.subrange(n, rec.len() as int) == rec,
{
    let joined = whole.take(n) + whole.subrange(n, rec.len() as int);
    assert forall|i: int| 0 <= i < rec.len() implies rec[i] == joined[i] by {
        assert((rec + whole.skip(rec.len() as int))[i] == rec[i]);
    }
    assert(joined =~= rec);
}

/// If `whole` begins with `rec`, so do its first `n` bytes, when they are
/// at least as many as `rec` has.
proof fn lemma_head_begins_with(whole: Seq<u8>, n: int, rec: Seq<u8>)
    requires
        rec.len() <= n <= whole.len(),
        whole == rec + whole.skip(rec.len() as int),
    ensures
        whole.take(n) == rec + whole.take(n).skip(rec.len() as int),
{
    let cut = whole.take(n);
    let joined = rec + cut.skip(rec.len() as int);
    assert forall|i: int| 0 <= i < cut.len() implies cut[i] == joined[i] by {
        if i < rec.len() {
            assert((rec + whole.skip(rec.len() as int))[i] == rec[i]);
        }
    }
    assert(cut =~= joined);
}

/// Fetching what is said to be missing never fetches too much: when a
/// beginning `s` of a record, with exactly the missing bytes behind it,
/// decodes, then that is the whole record and not a byte more.
pub proof fn lemma_chunk_need_is_exact(s: Seq<u8>, fetched: Seq<u8>)
    requires
        chunk_need(s) > 0,
        fetched.len() == chunk_need(s),
        decode_chunk(s + fetched) is Some,
    ensures
        s + fetched == chunk_bytes(decode_chunk(s + fetched)->0),
{
    let whole = s + fetched;
    let t = decode_chunk(whole)->0;
    let record = chunk_bytes(t);
    lemma_chunk_consumed(whole);
    lemma_chunk_need_zero(s);
    if record.len() < whole.len() {
        if record.len() <= s.len() {
            assert(whole.take(s.len() as int) == s) by {
                assert(whole.take(s.len() as int) =~= s);
            }
            lemma_head_begins_with(whole, s.len() as int, record);
            lemma_chunk_round_trip(t, s.skip(record.len() as int));
        } else {
            let more = whole.subrange(s.len() as int, record.len() as int);
            assert(s + more == record) by {
                lemma_split_record(whole, s.len() as int, record);
                assert(whole.take(s.len() as int) =~= s);
            }
            assert(record + Seq::<u8>::empty() == record) by {
                assert(record + Seq::<u8>::empty() =~= record);
            }
            lemma_chunk_round_trip(t, Seq::empty());
            lemma_chunk_need_is_owed(s, more);
        }
    } else {
        assert(whole.skip(record.len() as int) == Seq::<u8>::empty()) by {
            assert(whole.skip(record.len() as int) =~= Seq::<u8>::empty());
        }
        assert(record + Seq::<u8>::empty() == record) by {
            assert(record + Seq::<u8>::empty() =~= record);
        }
    }
}

} // verus!
