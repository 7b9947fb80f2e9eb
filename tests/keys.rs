use mcpe_world::{
    chunk_positions, scan_subchunk_keys, try_decode_pos, ChunkPos, Dimension, Encode, SubchunkPos, WorldError,
};

#[test]
fn overworld_key_bytes() {
    let p = SubchunkPos { x: -21, z: 3, subchunk: 5, dimension: Dimension::Overworld };
    assert_eq!(p.key(), vec![0xEB, 0xFF, 0xFF, 0xFF, 0x03, 0x00, 0x00, 0x00, 0x2F, 0x05]);
    let mut buf = vec![0xAA];
    p.encode(&mut buf);
    assert_eq!(buf.len(), 11);
    assert_eq!(buf[0], 0xAA);
}

#[test]
fn other_dimension_key_bytes() {
    let p = SubchunkPos { x: 1, z: -2, subchunk: 15, dimension: Dimension::Nether };
    assert_eq!(
        p.key(),
        vec![1, 0, 0, 0, 0xFE, 0xFF, 0xFF, 0xFF, 1, 0, 0, 0, 0x2F, 15]
    );
    let e = SubchunkPos { x: 0, z: 0, subchunk: 0, dimension: Dimension::End };
    assert_eq!(e.key().len(), 14);
    assert_eq!(e.key()[8], 2);
}

#[test]
fn key_round_trip_all_dimensions() {
    for dim in [Dimension::Overworld, Dimension::Nether, Dimension::End] {
        for sy in 0..16u8 {
            for (x, z) in [(0, 0), (-1, 1), (i32::MIN, i32::MAX), (123456, -654321)] {
                let p = SubchunkPos { x, z, subchunk: sy, dimension: dim };
                let k = p.key();
                assert_eq!(k.len(), if dim == Dimension::Overworld { 10 } else { 14 });
                assert_eq!(try_decode_pos(&k), Some(Ok(p)));
            }
        }
    }
}

#[test]
fn keys_that_are_not_block_records() {
    assert_eq!(try_decode_pos(&[]), None);
    assert_eq!(try_decode_pos(&[0x2F]), None);
    assert_eq!(try_decode_pos(b"~local_player"), None);
    // right length, wrong prefix
    assert_eq!(try_decode_pos(&[0, 0, 0, 0, 0, 0, 0, 0, 0x2D, 0]), None);
    // block-record shape with a length of neither 10 nor 14
    assert_eq!(try_decode_pos(&[0, 0, 0, 0, 0, 0, 0, 0, 0, 0, 0x2F, 0]), None);
}

#[test]
fn unknown_dimension_is_an_error() {
    let k = [0, 0, 0, 0, 0, 0, 0, 0, 7, 0, 0, 0, 0x2F, 3];
    assert_eq!(try_decode_pos(&k), Some(Err(WorldError::UnknownDimension)));
}

#[test]
fn scan_skips_other_keys_and_stops_at_an_error() {
    let a = SubchunkPos { x: 1, z: 1, subchunk: 0, dimension: Dimension::Overworld };
    let b = SubchunkPos { x: 1, z: 1, subchunk: 4, dimension: Dimension::Overworld };
    let c = SubchunkPos { x: -3, z: 8, subchunk: 0, dimension: Dimension::End };
    let bad = vec![0, 0, 0, 0, 0, 0, 0, 0, 9, 0, 0, 0, 0x2F, 0];
    let keys = vec![b"VERSION".to_vec(), a.key(), b.key(), c.key(), bad, a.key()];
    let scanned = scan_subchunk_keys(&keys);
    assert_eq!(scanned, vec![Ok(a), Ok(b), Ok(c), Err(WorldError::UnknownDimension)]);
    let chunks = chunk_positions(&scanned);
    assert_eq!(
        chunks,
        vec![
            Ok(ChunkPos { x: 1, z: 1, dimension: Dimension::Overworld }),
            Ok(ChunkPos { x: -3, z: 8, dimension: Dimension::End }),
            Err(WorldError::UnknownDimension),
        ]
    );
}

#[test]
fn iteration_yields_each_present_chunk_once() {
    let mut keys = Vec::new();
    for x in 0..3 {
        for sy in 0..16u8 {
            if x == 1 && sy == 0 {
                continue;
            }
            keys.push(SubchunkPos { x, z: 0, subchunk: sy, dimension: Dimension::Overworld }.key());
        }
    }
    let chunks = chunk_positions(&scan_subchunk_keys(&keys));
    assert_eq!(
        chunks,
        vec![
            Ok(ChunkPos { x: 0, z: 0, dimension: Dimension::Overworld }),
            Ok(ChunkPos { x: 2, z: 0, dimension: Dimension::Overworld }),
        ]
    );
}
