use mcpe_world::{flooring_divide, ChunkPos, Dimension, SubchunkPos, WorldPos};

#[test]
fn flooring_divide_rounds_toward_negative_infinity() {
    assert_eq!(flooring_divide(-1, 16), -1);
    assert_eq!(flooring_divide(-16, 16), -1);
    assert_eq!(flooring_divide(-17, 16), -2);
    assert_eq!(flooring_divide(0, 16), 0);
    assert_eq!(flooring_divide(15, 16), 0);
    assert_eq!(flooring_divide(16, 16), 1);
    assert_eq!(flooring_divide(i32::MIN, 16), -134217728);
    assert_eq!(flooring_divide(i32::MAX, 16), 134217727);
    assert_eq!(flooring_divide(-7, 3), -3);
}

#[test]
fn chunk_pos_brackets_coordinates() {
    let mut x: i32 = -(1 << 20);
    while x <= (1 << 20) {
        let w = WorldPos { x, y: 7, z: -x, dimension: Dimension::End };
        let c = w.chunk_pos();
        assert!(16 * (c.x as i64) <= x as i64 && (x as i64) < 16 * (c.x as i64 + 1));
        assert!(16 * (c.z as i64) <= -x as i64 && (-x as i64) < 16 * (c.z as i64 + 1));
        assert_eq!(c.dimension, Dimension::End);
        x += 4099;
    }
}

#[test]
fn subchunk_offset_and_height() {
    let w = WorldPos { x: -1, y: 17, z: -1, dimension: Dimension::Overworld };
    assert_eq!(w.chunk_pos(), ChunkPos { x: -1, z: -1, dimension: Dimension::Overworld });
    assert_eq!(w.subchunk_y(), 1);
    assert_eq!(w.subchunk_offset(), 256 * 15 + 16 * 15 + 1);
    let top = WorldPos { x: 33, y: 255, z: 18, dimension: Dimension::Nether };
    assert_eq!(top.subchunk_y(), 15);
    assert_eq!(top.subchunk_offset(), 256 * 1 + 16 * 2 + 15);
    let origin = WorldPos { x: 0, y: 0, z: 0, dimension: Dimension::Overworld };
    assert_eq!(origin.subchunk_offset(), 0);
}

#[test]
fn subchunk_pos_of_chunk() {
    let c = ChunkPos { x: 4, z: -9, dimension: Dimension::Nether };
    let s = c.subchunk_pos(11);
    assert_eq!(s, SubchunkPos { x: 4, z: -9, subchunk: 11, dimension: Dimension::Nether });
    assert_eq!(s.chunk_pos(), c);
}
