use client::block::BlockInstance;
use client::chunk::Chunk;
use client::padded_chunk::{MeshSnapshot, PaddedChunk};

fn stone() -> BlockInstance {
    BlockInstance::new(1)
}

#[test]
fn empty_padded_chunk_is_air() {
    let p = PaddedChunk::empty();
    assert_eq!(p.blocks.len(), 5832);
    assert!(p.blocks.iter().all(|b| *b == BlockInstance::air()));
}

#[test]
fn padded_coordinates_are_shifted_by_one() {
    let mut p = PaddedChunk::empty();
    p.set_block_from_xyz_unsafe(1, 2, 3, stone());
    assert_eq!(p.get_block_from_xyz_unsafe(1, 2, 3), stone());
    assert_eq!(p.get_block_from_chunk_xyz(0, 1, 2), stone());
    assert_eq!(p.get_block_from_i(1 + 2 * 18 + 3 * 324), stone());
    p.set_block_from_i(0, stone());
    assert_eq!(p.get_block_from_chunk_xyz(-1, -1, -1), stone());
}

#[test]
fn snapshot_centre_is_the_chunk() {
    let mut main = Chunk::filled(0, 0, 0, BlockInstance::air());
    main.set_block_from_xyz(0, 0, 0, stone());
    main.set_block_from_xyz(15, 7, 3, BlockInstance::new(2));
    let snapshot = MeshSnapshot { main: &main, neg_x: None, pos_x: None, neg_y: None, pos_y: None, neg_z: None, pos_z: None };
    let p = PaddedChunk::from_snapshot(&main, &snapshot);
    assert_eq!(p.get_block_from_chunk_xyz(0, 0, 0), stone());
    assert_eq!(p.get_block_from_chunk_xyz(15, 7, 3), BlockInstance::new(2));
    assert_eq!(p.get_block_from_chunk_xyz(1, 0, 0), BlockInstance::air());
    assert_eq!(p.get_block_from_chunk_xyz(-1, 0, 0), BlockInstance::air());
}

#[test]
fn snapshot_faces_mirror_the_touching_layer_of_each_neighbour() {
    let main = Chunk::filled(0, 0, 0, BlockInstance::air());
    let mut neg_x = Chunk::filled(-1, 0, 0, BlockInstance::air());
    neg_x.set_block_from_xyz(15, 4, 5, stone());
    neg_x.set_block_from_xyz(14, 4, 5, BlockInstance::new(9));
    let mut pos_y = Chunk::filled(0, 1, 0, BlockInstance::air());
    pos_y.set_block_from_xyz(2, 0, 3, BlockInstance::new(4));
    let pos_z = Chunk::filled(0, 0, 1, BlockInstance::new(6));
    let snapshot = MeshSnapshot {
        main: &main,
        neg_x: Some(&neg_x),
        pos_x: None,
        neg_y: None,
        pos_y: Some(&pos_y),
        neg_z: None,
        pos_z: Some(&pos_z),
    };
    let p = PaddedChunk::from_snapshot(&main, &snapshot);
    assert_eq!(p.get_block_from_chunk_xyz(-1, 4, 5), stone());
    assert_eq!(p.get_block_from_chunk_xyz(-1, 4, 6), BlockInstance::air());
    assert_eq!(p.get_block_from_chunk_xyz(2, 16, 3), BlockInstance::new(4));
    assert_eq!(p.get_block_from_chunk_xyz(0, 0, 16), BlockInstance::new(6));
    assert_eq!(p.get_block_from_chunk_xyz(15, 15, 16), BlockInstance::new(6));
    // Missing neighbours read as air, and so do the edges and corners of the border.
    assert_eq!(p.get_block_from_chunk_xyz(16, 3, 3), BlockInstance::air());
    assert_eq!(p.get_block_from_chunk_xyz(-1, -1, 3), BlockInstance::air());
    assert_eq!(p.get_block_from_chunk_xyz(16, 16, 16), BlockInstance::air());
    assert_eq!(p.get_block_from_chunk_xyz(-1, 16, 16), BlockInstance::air());
}

#[test]
fn fill_and_clear_single_faces() {
    let mut p = PaddedChunk::empty();
    let full = Chunk::filled(0, 0, 0, stone());
    p.fill_neg_x(&full);
    p.fill_pos_x(&full);
    p.fill_neg_y(&full);
    p.fill_pos_y(&full);
    p.fill_neg_z(&full);
    p.fill_pos_z(&full);
    assert_eq!(p.get_block_from_xyz_unsafe(0, 1, 1), stone());
    assert_eq!(p.get_block_from_xyz_unsafe(17, 16, 16), stone());
    assert_eq!(p.get_block_from_xyz_unsafe(1, 0, 1), stone());
    assert_eq!(p.get_block_from_xyz_unsafe(1, 17, 1), stone());
    assert_eq!(p.get_block_from_xyz_unsafe(1, 1, 0), stone());
    assert_eq!(p.get_block_from_xyz_unsafe(1, 1, 17), stone());
    assert_eq!(p.get_block_from_xyz_unsafe(0, 0, 0), BlockInstance::air());
    assert_eq!(p.get_block_from_xyz_unsafe(1, 1, 1), BlockInstance::air());
    p.fill_neg_x_as_air();
    p.fill_pos_y_as_air();
    p.fill_pos_x_as_air();
    p.fill_neg_y_as_air();
    p.fill_neg_z_as_air();
    p.fill_pos_z_as_air();
    assert_eq!(p.get_block_from_xyz_unsafe(0, 1, 1), BlockInstance::air());
    assert_eq!(p.get_block_from_xyz_unsafe(1, 17, 1), BlockInstance::air());
    assert_eq!(p.get_block_from_xyz_unsafe(1, 1, 17), BlockInstance::air());
}

#[test]
fn fill_edges_fills_present_faces_and_clears_missing_ones() {
    let mut p = PaddedChunk::empty();
    let full = Chunk::filled(0, 0, 0, stone());
    p.fill_edges(Some(&full), Some(&full), Some(&full), Some(&full), Some(&full), Some(&full));
    assert_eq!(p.get_block_from_xyz_unsafe(17, 5, 5), stone());
    p.fill_edges(None, None, None, None, None, Some(&full));
    assert_eq!(p.get_block_from_xyz_unsafe(17, 5, 5), BlockInstance::air());
    assert_eq!(p.get_block_from_xyz_unsafe(5, 5, 17), stone());
}
