use binary_greedy_mesher_demo_rs::data::level_file::ChunkTableEntry;
use binary_greedy_mesher_demo_rs::data::level_file::LevelError;
use binary_greedy_mesher_demo_rs::data::level_file::LevelFile;
use binary_greedy_mesher_demo_rs::get_xyz_key;
use binary_greedy_mesher_demo_rs::levelgen::build_level_bytes;

#[test]
fn build_and_load_round_trip() {
    let rles: Vec<Vec<u8>> = vec![
        vec![1, 3, 0, 2],
        vec![2, 255],
        Vec::new(),
        vec![9, 1, 9, 1, 9, 1],
    ];
    let bytes = build_level_bytes(&rles, 2);
    assert_eq!(bytes[0], 2);
    assert_eq!(bytes.len(), 1 + 4 * 12 + 4 + 2 + 0 + 6);

    let mut level = LevelFile::default();
    level.load_from_bytes(bytes).unwrap();
    assert_eq!(level.size(), 2);
    assert_eq!(level.chunk_table.len(), 4);

    let mut expected_begin = (1 + 4 * 12) as u32;
    for i in 0..4 {
        let entry: ChunkTableEntry = level.chunk_table[i];
        let (cx, cz) = ((i % 2) as u8, (i / 2) as u8);
        assert_eq!(entry.key, get_xyz_key(cx, 0, cz), "chunk {i}");
        assert_eq!(entry.rle_data_begin, expected_begin, "chunk {i}");
        assert_eq!(entry.rle_data_size, rles[i].len() as u32, "chunk {i}");
        assert_eq!(level.chunk_rle_bytes(i), rles[i], "chunk {i}");
        expected_begin += rles[i].len() as u32;
    }
}

#[test]
fn load_rejects_empty_buffer() {
    let mut level = LevelFile::default();
    assert_eq!(level.load_from_bytes(Vec::new()), Err(LevelError::EmptyFile));
    assert_eq!(level.size(), 0);
    assert!(level.chunk_table.is_empty());
}

#[test]
fn load_rejects_truncated_table() {
    // Announces 1 chunk (12 table bytes) but holds only 5 more bytes.
    let bytes = vec![1u8, 0, 0, 0, 0, 0];
    let mut level = LevelFile::default();
    assert_eq!(level.load_from_bytes(bytes), Err(LevelError::TruncatedTable));
}

#[test]
fn load_rejects_out_of_bounds_payload() {
    // One chunk whose entry points past the end of the buffer.
    let mut bytes = vec![1u8];
    bytes.extend_from_slice(&0u32.to_le_bytes()); // key
    bytes.extend_from_slice(&13u32.to_le_bytes()); // begin: end of table
    bytes.extend_from_slice(&100u32.to_le_bytes()); // size: way past the end
    bytes.push(0); // one lone data byte
    let mut level = LevelFile::default();
    assert_eq!(
        level.load_from_bytes(bytes),
        Err(LevelError::ChunkDataOutOfBounds)
    );
}

#[test]
fn load_accepts_exactly_fitting_payload() {
    let mut bytes = vec![1u8];
    bytes.extend_from_slice(&get_xyz_key(0, 0, 0).to_le_bytes());
    bytes.extend_from_slice(&13u32.to_le_bytes());
    bytes.extend_from_slice(&2u32.to_le_bytes());
    bytes.push(7);
    bytes.push(1);
    let mut level = LevelFile::default();
    level.load_from_bytes(bytes).unwrap();
    assert_eq!(level.chunk_rle_bytes(0), vec![7u8, 1]);
}
