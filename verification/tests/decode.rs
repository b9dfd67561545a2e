use chunk_tile::{BlockColumn, BlockInfo, ByteReader, ChunkTile, ReadError};

/// A column as a test writes it down: biome, light, and layers as `(y, id)`.
type PlainColumn = (u16, u8, Vec<(i32, u32)>);

fn column_record(column: &PlainColumn) -> Vec<u8> {
    let mut out = Vec::new();
    out.extend_from_slice(&column.0.to_be_bytes());
    out.push(column.1);
    out.extend_from_slice(&(column.2.len() as u16).to_be_bytes());
    for (y, id) in &column.2 {
        out.extend_from_slice(&y.to_be_bytes());
        out.extend_from_slice(&id.to_be_bytes());
    }
    out
}

fn chunk_record(x: i32, z: i32, version: u16, columns: &[PlainColumn]) -> Vec<u8> {
    let mut out = Vec::new();
    out.extend_from_slice(&x.to_be_bytes());
    out.extend_from_slice(&z.to_be_bytes());
    out.extend_from_slice(&version.to_be_bytes());
    for column in columns {
        out.extend_from_slice(&column_record(column));
    }
    out
}

fn empty_columns() -> Vec<PlainColumn> {
    vec![(0, 0, Vec::new()); 256]
}

fn plain(column: &BlockColumn) -> PlainColumn {
    (
        column.biome(),
        column.light(),
        column.layers().iter().map(|l| (l.y, l.id)).collect(),
    )
}

#[test]
fn reads_single_byte() {
    let bytes = [2u8, 5];
    let mut r = ByteReader::new(&bytes);
    assert_eq!(r.read_u8(), Ok(2));
    assert_eq!(r.read_u8(), Ok(5));
    assert_eq!(r.read_u8(), Err(ReadError::UnexpectedEof));
}

#[test]
fn reads_u16_most_significant_byte_first() {
    let bytes = [2u8, 5, 3, 0];
    let mut r = ByteReader::new(&bytes);
    assert_eq!(r.read_u16(), Ok(517));
    assert_eq!(r.read_u16(), Ok(768));
    assert_eq!(r.remaining(), 0);
}

#[test]
fn reads_u32_most_significant_byte_first() {
    let bytes = [0x00u8, 0x00, 0x01, 0x0b, 0xff, 0xff, 0xff, 0xff];
    let mut r = ByteReader::new(&bytes);
    assert_eq!(r.read_u32(), Ok(267));
    assert_eq!(r.read_u32(), Ok(u32::MAX));
}

#[test]
fn reads_i32_in_twos_complement() {
    let bytes = [0xffu8, 0xff, 0x7a, 0x33, 0x80, 0, 0, 0, 0x7f, 0xff, 0xff, 0xff];
    let mut r = ByteReader::new(&bytes);
    assert_eq!(r.read_i32(), Ok(-34253));
    assert_eq!(r.read_i32(), Ok(i32::MIN));
    assert_eq!(r.read_i32(), Ok(i32::MAX));
}

#[test]
fn short_field_is_unexpected_eof_and_reads_nothing() {
    let bytes = [1u8, 2, 3];
    let mut r = ByteReader::new(&bytes);
    assert_eq!(r.read_u32(), Err(ReadError::UnexpectedEof));
    assert_eq!(r.read_i32(), Err(ReadError::UnexpectedEof));
    assert_eq!(r.remaining(), 3);
    assert_eq!(r.read_u16(), Ok(0x0102));
    assert_eq!(r.read_u16(), Err(ReadError::UnexpectedEof));
    assert_eq!(r.remaining(), 1);
}

#[test]
fn reads_block_info() {
    let bytes = [0u8, 0, 0, 10, 0, 0, 0, 5, 0xAA];
    let mut r = ByteReader::new(&bytes);
    assert_eq!(BlockInfo::read(&mut r), Ok(BlockInfo { y: 10, id: 5 }));
    assert_eq!(r.remaining(), 1);
}

#[test]
fn reads_block_info_below_origin() {
    let bytes = [0xffu8, 0xff, 0xff, 0xc0, 0xff, 0xff, 0xff, 0xff];
    let mut r = ByteReader::new(&bytes);
    assert_eq!(BlockInfo::read(&mut r), Ok(BlockInfo { y: -64, id: u32::MAX }));
}

#[test]
fn block_info_cut_short_fails() {
    for len in 0..8 {
        let bytes = vec![0u8; len];
        let mut r = ByteReader::new(&bytes);
        assert_eq!(BlockInfo::read(&mut r), Err(ReadError::UnexpectedEof));
    }
}

#[test]
fn layer_order_is_preserved() {
    let bytes = column_record(&(7, 3, vec![(10, 5), (9, 2)]));
    assert_eq!(
        bytes,
        vec![0, 7, 3, 0, 2, 0, 0, 0, 10, 0, 0, 0, 5, 0, 0, 0, 9, 0, 0, 0, 2]
    );
    let mut r = ByteReader::new(&bytes);
    let column = BlockColumn::read(&mut r).unwrap();
    assert_eq!(column.biome(), 7);
    assert_eq!(column.light(), 3);
    assert_eq!(
        column.layers(),
        &[BlockInfo { y: 10, id: 5 }, BlockInfo { y: 9, id: 2 }]
    );
    assert_eq!(column.layers()[0].y, 10);
    assert_eq!(r.remaining(), 0);
}

#[test]
fn zero_layer_column_takes_five_bytes() {
    let bytes = [0x12u8, 0x34, 200, 0, 0, 0, 0, 0, 1, 0, 0, 0, 2];
    let mut r = ByteReader::new(&bytes);
    let column = BlockColumn::read(&mut r).unwrap();
    assert_eq!(column.biome(), 0x1234);
    assert_eq!(column.light(), 200);
    assert!(column.layers().is_empty());
    assert_eq!(r.remaining(), 8);
}

#[test]
fn column_cut_short_fails() {
    let whole = column_record(&(1, 2, vec![(3, 4), (-5, 6)]));
    for len in 0..whole.len() {
        let mut r = ByteReader::new(&whole[..len]);
        assert_eq!(BlockColumn::read(&mut r), Err(ReadError::UnexpectedEof));
    }
    let mut r = ByteReader::new(&whole);
    assert!(BlockColumn::read(&mut r).is_ok());
}

#[test]
fn column_with_most_layers() {
    let layers: Vec<(i32, u32)> = (0..65535).map(|i| (-(i as i32), i as u32)).collect();
    let bytes = column_record(&(9, 9, layers.clone()));
    assert_eq!(bytes.len(), 5 + 8 * 65535);
    let mut r = ByteReader::new(&bytes);
    let column = BlockColumn::read(&mut r).unwrap();
    assert_eq!(plain(&column).2, layers);
    assert_eq!(r.remaining(), 0);
}

#[test]
fn concrete_scenario() {
    let mut bytes = vec![0x00u8, 0x00, 0x00, 0x01, 0xFF, 0xFF, 0xFF, 0xFF, 0x00, 0x01];
    for _ in 0..256 {
        bytes.extend_from_slice(&[0x00, 0x00, 0x00, 0x00, 0x00]);
    }
    let mut r = ByteReader::new(&bytes);
    let tile = ChunkTile::read(&mut r).unwrap();
    assert_eq!(tile.pos(), (1, -1));
    assert_eq!(tile.version(), 1);
    assert_eq!(tile.columns().len(), 256);
    for column in tile.columns() {
        assert_eq!(column.biome(), 0);
        assert_eq!(column.light(), 0);
        assert!(column.layers().is_empty());
    }
    assert_eq!(r.remaining(), 0);
}

#[test]
fn negative_coordinates() {
    let bytes = chunk_record(-1, -100000, 0, &empty_columns());
    assert_eq!(&bytes[..8], &[0xFF, 0xFF, 0xFF, 0xFF, 0xFF, 0xFE, 0x79, 0x60]);
    let mut r = ByteReader::new(&bytes);
    let tile = ChunkTile::read(&mut r).unwrap();
    assert_eq!(tile.pos(), (-1, -100000));
}

#[test]
fn exactly_256_columns() {
    let mut columns = empty_columns();
    columns.push((1, 1, vec![(1, 1)]));
    let bytes = chunk_record(0, 0, 2, &columns);
    let mut r = ByteReader::new(&bytes);
    let tile = ChunkTile::read(&mut r).unwrap();
    assert_eq!(tile.columns().len(), 256);
    assert_eq!(r.remaining(), 13);
}

#[test]
fn truncated_last_column_fails() {
    let mut columns = empty_columns();
    columns[255] = (4, 4, vec![(1, 2), (3, 4)]);
    let whole = chunk_record(5, 6, 7, &columns);
    for missing in 1..=21 {
        let mut r = ByteReader::new(&whole[..whole.len() - missing]);
        assert_eq!(ChunkTile::read(&mut r), Err(ReadError::UnexpectedEof));
    }
    let mut r = ByteReader::new(&whole);
    assert!(ChunkTile::read(&mut r).is_ok());
}

#[test]
fn stream_ending_after_header_fails() {
    let bytes = [0u8, 0, 0, 1, 0, 0, 0, 2, 0, 3];
    let mut r = ByteReader::new(&bytes);
    assert_eq!(ChunkTile::read(&mut r), Err(ReadError::UnexpectedEof));
}

#[test]
fn stream_ending_inside_header_fails() {
    for len in 0..10 {
        let bytes = vec![0u8; len];
        let mut r = ByteReader::new(&bytes);
        assert_eq!(ChunkTile::read(&mut r), Err(ReadError::UnexpectedEof));
    }
}

#[test]
fn round_trip() {
    let columns: Vec<PlainColumn> = (0..256u32)
        .map(|i| {
            let layers = (0..(i % 7)).map(|j| (64 - (i * 3 + j) as i32, i * 1000 + j)).collect();
            ((i * 257) as u16, (255 - i) as u8, layers)
        })
        .collect();
    let bytes = chunk_record(i32::MIN, i32::MAX, 0xBEEF, &columns);
    let mut r = ByteReader::new(&bytes);
    let tile = ChunkTile::read(&mut r).unwrap();
    assert_eq!(tile.pos(), (i32::MIN, i32::MAX));
    assert_eq!(tile.version(), 0xBEEF);
    let got: Vec<PlainColumn> = tile.columns().iter().map(plain).collect();
    assert_eq!(got, columns);
    assert_eq!(chunk_record(tile.pos().0, tile.pos().1, tile.version(), &got), bytes);
    assert_eq!(r.remaining(), 0);
}

#[test]
fn columns_are_in_stream_order() {
    let columns: Vec<PlainColumn> = (0..256u32).map(|i| (i as u16, 0, Vec::new())).collect();
    let bytes = chunk_record(0, 0, 0, &columns);
    let mut r = ByteReader::new(&bytes);
    let tile = ChunkTile::read(&mut r).unwrap();
    for (i, column) in tile.columns().iter().enumerate() {
        assert_eq!(column.biome(), i as u16);
    }
    assert_eq!(tile.columns()[3 * 16 + 5].biome(), 53);
}

#[test]
fn reads_records_back_to_back() {
    let mut bytes = chunk_record(1, 2, 3, &empty_columns());
    bytes.extend_from_slice(&chunk_record(-4, -5, 6, &empty_columns()));
    let mut r = ByteReader::new(&bytes);
    let first = ChunkTile::read(&mut r).unwrap();
    assert_eq!(r.remaining(), 1290);
    let second = ChunkTile::read(&mut r).unwrap();
    assert_eq!(first.pos(), (1, 2));
    assert_eq!(second.pos(), (-4, -5));
    assert_eq!(second.version(), 6);
    assert_eq!(ChunkTile::read(&mut r), Err(ReadError::UnexpectedEof));
}
