use chunk_tile::{BlockColumn, BlockInfo, ByteReader, ChunkTile};

fn small_chunk() -> Vec<u8> {
    let mut bytes = vec![0u8, 0, 0, 7, 0xFF, 0xFF, 0xFF, 0xF9, 0, 2];
    for i in 0..256u32 {
        let layers = i % 3;
        bytes.extend_from_slice(&[0, i as u8, 15, 0, layers as u8]);
        for j in 0..layers {
            bytes.extend_from_slice(&(j as i32 - 1).to_be_bytes());
            bytes.extend_from_slice(&(i * 10 + j).to_be_bytes());
        }
    }
    bytes
}

#[test]
fn layer_needs_eight_bytes() {
    assert_eq!(BlockInfo::bytes_needed(&[]), 8);
    assert_eq!(BlockInfo::bytes_needed(&[1, 2, 3]), 5);
    assert_eq!(BlockInfo::bytes_needed(&[0; 8]), 0);
    assert_eq!(BlockInfo::bytes_needed(&[0; 11]), 0);
}

#[test]
fn column_needs_head_then_layers() {
    assert_eq!(BlockColumn::bytes_needed(&[]), 5);
    assert_eq!(BlockColumn::bytes_needed(&[0, 1, 2, 0]), 1);
    assert_eq!(BlockColumn::bytes_needed(&[0, 1, 2, 0, 0]), 0);
    assert_eq!(BlockColumn::bytes_needed(&[0, 1, 2, 0, 2]), 16);
    assert_eq!(BlockColumn::bytes_needed(&[0, 1, 2, 1, 0]), 8 * 256);
    assert_eq!(BlockColumn::bytes_needed(&[0, 1, 2, 0xFF, 0xFF]), 8 * 65535);
    assert_eq!(BlockColumn::bytes_needed(&[0, 1, 2, 0, 2, 9, 9, 9]), 13);
    let mut whole = vec![0u8, 1, 2, 0, 2];
    whole.extend_from_slice(&[0; 16]);
    assert_eq!(BlockColumn::bytes_needed(&whole), 0);
    whole.push(1);
    assert_eq!(BlockColumn::bytes_needed(&whole), 0);
}

#[test]
fn chunk_needs_head_then_column_by_column() {
    assert_eq!(ChunkTile::bytes_needed(&[]), 10);
    assert_eq!(ChunkTile::bytes_needed(&[0; 3]), 7);
    assert_eq!(ChunkTile::bytes_needed(&[0; 10]), 5);
    assert_eq!(ChunkTile::bytes_needed(&[0; 14]), 1);
    assert_eq!(ChunkTile::bytes_needed(&[0; 15]), 5);
    let mut bytes = vec![0u8; 10];
    bytes.extend_from_slice(&[0, 0, 0, 0, 3]);
    assert_eq!(ChunkTile::bytes_needed(&bytes), 24);
    bytes.extend_from_slice(&[0; 20]);
    assert_eq!(ChunkTile::bytes_needed(&bytes), 4);
    bytes.extend_from_slice(&[0; 4]);
    assert_eq!(ChunkTile::bytes_needed(&bytes), 5);
}

#[test]
fn nothing_needed_exactly_when_the_record_decodes() {
    let whole = small_chunk();
    for len in [0, 9, 10, 14, 15, 16, 700, whole.len() - 1] {
        let prefix = &whole[..len];
        assert!(ChunkTile::bytes_needed(prefix) > 0);
        assert!(ChunkTile::read(&mut ByteReader::new(prefix)).is_err());
    }
    assert_eq!(ChunkTile::bytes_needed(&whole), 0);
    assert!(ChunkTile::read(&mut ByteReader::new(&whole)).is_ok());
}

#[test]
fn fetching_what_is_needed_takes_one_record_and_no_more() {
    let mut stream = small_chunk();
    let record_len = stream.len();
    stream.extend_from_slice(&[0xEE; 40]);
    let mut fetched: Vec<u8> = Vec::new();
    let mut rounds = 0;
    loop {
        let need = ChunkTile::bytes_needed(&fetched);
        if need == 0 {
            break;
        }
        let have = fetched.len();
        assert!(have + need <= record_len);
        fetched.extend_from_slice(&stream[have..have + need]);
        rounds += 1;
    }
    assert_eq!(fetched.len(), record_len);
    assert!(rounds <= 1 + 2 * 256);
    let mut r = ByteReader::new(&fetched);
    let tile = ChunkTile::read(&mut r).unwrap();
    assert_eq!(tile.pos(), (7, -7));
    assert_eq!(tile.version(), 2);
    assert_eq!(tile.columns()[5].layers().len(), 2);
    assert_eq!(tile.columns()[5].layers()[1], BlockInfo { y: 0, id: 51 });
    assert_eq!(r.remaining(), 0);
}
