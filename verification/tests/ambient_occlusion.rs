use client::block::BlockInstance;
use client::meshing::{ChunkMesh, Corner, Direction};
use client::padded_chunk::PaddedChunk;

#[test]
fn direction_and_corner_slots() {
    assert_eq!(Direction::Left.to_usize(), 0);
    assert_eq!(Direction::Bottom.to_usize(), 1);
    assert_eq!(Direction::Back.to_usize(), 2);
    assert_eq!(Direction::Right.to_usize(), 3);
    assert_eq!(Direction::Top.to_usize(), 4);
    assert_eq!(Direction::Front.to_usize(), 5);
    assert!(Direction::Left.is_negative() && !Direction::Left.is_positive());
    assert!(Direction::Front.is_positive() && !Direction::Front.is_negative());
    assert_eq!(Corner::TopLeft.to_usize(), 0);
    assert_eq!(Corner::TopRight.to_usize(), 1);
    assert_eq!(Corner::BottomLeft.to_usize(), 2);
    assert_eq!(Corner::BottomRight.to_usize(), 3);
}

#[test]
fn ao_neighbours_of_a_left_face_corner() {
    let n = ChunkMesh::get_ao_neighbors(Direction::Left, Corner::TopLeft);
    assert_eq!(n, [(-1, 1, -1), (-1, 0, -1), (-1, 1, 0)]);
    assert_eq!(ChunkMesh::get_ao_offsets(Direction::Left, Corner::TopLeft), n);
}

#[test]
fn ao_neighbours_and_offsets_differ_on_top_faces() {
    assert_eq!(ChunkMesh::get_ao_neighbors(Direction::Top, Corner::BottomRight), [(-1, 1, 1), (0, 1, 1), (-1, 1, 0)]);
    assert_eq!(ChunkMesh::get_ao_offsets(Direction::Top, Corner::BottomRight), [(1, 1, -1), (1, 1, 0), (0, 1, -1)]);
    assert_eq!(ChunkMesh::get_ao_neighbors(Direction::Front, Corner::BottomLeft), [(-1, -1, 1), (-1, 0, 1), (0, -1, 1)]);
}

fn padded_with(solid: &[(i32, i32, i32)]) -> PaddedChunk {
    let mut p = PaddedChunk::empty();
    for &(x, y, z) in solid {
        p.set_block_from_xyz_unsafe(x, y, z, BlockInstance::new(1));
    }
    p
}

#[test]
fn ao_levels_from_the_table_and_by_counting_agree() {
    let n = ChunkMesh::get_ao_neighbors(Direction::Left, Corner::TopLeft);
    let pos = [5, 5, 5];
    let chunk_pos = [4, 4, 4];
    let cases: [(&[(i32, i32, i32)], u8); 5] = [
        (&[], 3),
        (&[(4, 6, 4)], 2),
        (&[(4, 5, 4)], 2),
        (&[(4, 5, 4), (4, 6, 4)], 1),
        (&[(4, 5, 4), (4, 6, 5)], 0),
    ];
    for (solid, expected) in cases.iter() {
        let p = padded_with(solid);
        assert_eq!(ChunkMesh::get_face_ao(&p, pos, n), *expected);
        assert_eq!(ChunkMesh::get_v_ao(&p, chunk_pos, n), *expected);
    }
}

#[test]
fn both_sides_solid_close_the_corner_whatever_the_corner_block() {
    let n = ChunkMesh::get_ao_neighbors(Direction::Left, Corner::TopLeft);
    let p = padded_with(&[(4, 5, 4), (4, 6, 5), (4, 6, 4)]);
    assert_eq!(ChunkMesh::get_face_ao(&p, [5, 5, 5], n), 0);
    assert_eq!(ChunkMesh::get_v_ao(&p, [4, 4, 4], n), 0);
}

#[test]
fn new_chunk_mesh_is_dirty_and_unstored() {
    let mut m = ChunkMesh::new();
    assert!(m.is_dirty());
    assert_eq!(m.id, None);
    m.dirty = false;
    m.set_dirty();
    assert!(m.is_dirty());
}
