use client::block::BlockInstance;
use client::chunk::Chunk;
use client::greedy::{greedy_merge, FaceMask, GreedyQuad};
use client::greedy_mesh::{GreedyMeshingProcessor, GridVertex};
use client::meshing::{ChunkMesh, Direction};
use client::padded_chunk::{MeshSnapshot, PaddedChunk};

fn face(block_id: u32) -> FaceMask {
    FaceMask::from(false, block_id, Direction::Top, 255)
}

fn empty_mask() -> Vec<FaceMask> {
    vec![FaceMask::empty(); 256]
}

#[test]
fn empty_mask_gives_no_quad() {
    let mut mask = empty_mask();
    let mut quads = Vec::new();
    greedy_merge(&mut mask, &mut quads);
    assert!(quads.is_empty());
}

#[test]
fn a_rectangle_of_equal_faces_becomes_one_quad() {
    let mut mask = empty_mask();
    for u in 2..4 {
        for v in 5..8 {
            mask[u * 16 + v] = face(3);
        }
    }
    let mut quads = Vec::new();
    greedy_merge(&mut mask, &mut quads);
    assert_eq!(quads, vec![GreedyQuad { u: 2, v: 5, width: 2, height: 3, face: face(3) }]);
    assert!(mask.iter().all(|m| m.get_visited()));
}

#[test]
fn quads_grow_along_u_first_then_v() {
    let mut mask = empty_mask();
    mask[0] = face(1);
    mask[16] = face(1);
    mask[1] = face(1);
    let mut quads = Vec::new();
    greedy_merge(&mut mask, &mut quads);
    assert_eq!(
        quads,
        vec![
            GreedyQuad { u: 0, v: 0, width: 2, height: 1, face: face(1) },
            GreedyQuad { u: 0, v: 1, width: 1, height: 1, face: face(1) },
        ]
    );
}

#[test]
fn different_faces_are_not_merged_and_each_cell_is_covered_once() {
    let mut mask = empty_mask();
    for c in 0..256 {
        mask[c] = face(if (c / 16 + c % 16) % 2 == 0 { 1 } else { 2 });
    }
    let before = mask.clone();
    let mut quads = Vec::new();
    greedy_merge(&mut mask, &mut quads);
    assert_eq!(quads.len(), 256);
    for u in 0..16 {
        for v in 0..16 {
            let holding: Vec<&GreedyQuad> =
                quads.iter().filter(|q| q.u <= u && u < q.u + q.width && q.v <= v && v < q.v + q.height).collect();
            assert_eq!(holding.len(), 1);
            assert_eq!(holding[0].face, before[u * 16 + v]);
        }
    }
}

#[test]
fn a_full_mask_becomes_one_quad_and_quads_are_appended() {
    let mut mask = vec![face(4); 256];
    let mut quads = vec![GreedyQuad { u: 9, v: 9, width: 1, height: 1, face: face(0) }];
    greedy_merge(&mut mask, &mut quads);
    assert_eq!(quads.len(), 2);
    assert_eq!(quads[1], GreedyQuad { u: 0, v: 0, width: 16, height: 16, face: face(4) });
}

fn one_block_padded() -> PaddedChunk {
    let mut p = PaddedChunk::empty();
    p.set_block_from_xyz_unsafe(1, 1, 1, BlockInstance::new(1));
    p
}

fn v(x: i64, y: i64, z: i64, u: u8, w: u8) -> GridVertex {
    GridVertex { x, y, z, tex_layer: 1, ao: 3, u, v: w }
}

#[test]
fn one_block_meshed_along_x() {
    let p = one_block_padded();
    let mut vertices = Vec::new();
    ChunkMesh::make_greedy_x(&p, &mut vertices, 0, 0, 0);
    assert_eq!(vertices.len(), 12);
    // Left face at x = 0, listed in reverse order.
    let (c0, c1, c2, c3) = (v(0, 0, 0, 0, 0), v(0, 0, 1, 0, 1), v(0, 1, 0, 1, 0), v(0, 1, 1, 1, 1));
    assert_eq!(vertices[0..6], [c0, c1, c2, c2, c1, c3]);
    // Right face at x = 1.
    let (c0, c1, c2, c3) = (v(1, 0, 0, 0, 0), v(1, 0, 1, 0, 1), v(1, 1, 0, 1, 0), v(1, 1, 1, 1, 1));
    assert_eq!(vertices[6..12], [c1, c0, c3, c3, c0, c2]);
}

#[test]
fn one_block_meshed_along_y_in_another_chunk() {
    let p = one_block_padded();
    let mut vertices = Vec::new();
    ChunkMesh::make_greedy_y(&p, &mut vertices, 1, -1, 2);
    assert_eq!(vertices.len(), 12);
    let (ox, oy, oz) = (16, -16, 32);
    // Bottom face at y = 0: corner 1 along z, corner 2 along x.
    let (c0, c1, c2, c3) =
        (v(ox, oy, oz, 0, 0), v(ox, oy, oz + 1, 0, 1), v(ox + 1, oy, oz, 1, 0), v(ox + 1, oy, oz + 1, 1, 1));
    assert_eq!(vertices[0..6], [c1, c0, c3, c3, c0, c2]);
    // Top face at y = 1, listed in reverse order.
    let (c0, c1, c2, c3) = (
        v(ox, oy + 1, oz, 0, 0),
        v(ox, oy + 1, oz + 1, 0, 1),
        v(ox + 1, oy + 1, oz, 1, 0),
        v(ox + 1, oy + 1, oz + 1, 1, 1),
    );
    assert_eq!(vertices[6..12], [c0, c1, c2, c2, c1, c3]);
}

#[test]
fn one_block_meshed_along_z_and_by_axis() {
    let p = one_block_padded();
    let mut z = Vec::new();
    ChunkMesh::make_greedy_z(&p, &mut z, 0, 0, 0);
    assert_eq!(z.len(), 12);
    assert_eq!(z[1], v(0, 0, 0, 0, 0));
    let mut by_axis = Vec::new();
    ChunkMesh::make_greedy_axis(&p, &mut by_axis, 0, 0, 0, 0);
    let mut x = Vec::new();
    ChunkMesh::make_greedy_x(&p, &mut x, 0, 0, 0);
    assert_eq!(by_axis, x);
}

#[test]
fn light_levels_darken_next_to_a_wall() {
    // A block with a neighbour above it: the top of the lower block is hidden,
    // and the side faces get darker corners along the shared edge.
    let mut p = PaddedChunk::empty();
    p.set_block_from_xyz_unsafe(2, 2, 2, BlockInstance::new(1));
    p.set_block_from_xyz_unsafe(1, 2, 3, BlockInstance::new(1));
    let mut vertices = Vec::new();
    ChunkMesh::make_greedy_x(&p, &mut vertices, 0, 0, 0);
    assert!(vertices.iter().any(|vx| vx.ao < 3));
    assert!(vertices.iter().all(|vx| vx.ao <= 3));
}

#[test]
fn a_full_chunk_alone_has_one_quad_per_side() {
    let main = Chunk::filled(0, 0, 0, BlockInstance::new(2));
    let snapshot = MeshSnapshot { main: &main, neg_x: None, pos_x: None, neg_y: None, pos_y: None, neg_z: None, pos_z: None };
    let vertices = GreedyMeshingProcessor::process(&main, &snapshot, 0, 0, 0).unwrap();
    assert_eq!(vertices.len(), 6 * 6);
}

#[test]
fn a_single_block_chunk_has_six_faces() {
    let mut main = Chunk::filled(0, 0, 0, BlockInstance::air());
    main.set_block_from_xyz(3, 4, 5, BlockInstance::new(7));
    let snapshot = MeshSnapshot { main: &main, neg_x: None, pos_x: None, neg_y: None, pos_y: None, neg_z: None, pos_z: None };
    let vertices = GreedyMeshingProcessor::process(&main, &snapshot, 0, 0, 0).unwrap();
    assert_eq!(vertices.len(), 36);
    assert!(vertices.iter().all(|vx| vx.tex_layer == 7 && vx.ao == 3));
}

#[test]
fn faces_against_a_full_neighbour_are_hidden() {
    let main = Chunk::filled(0, 0, 0, BlockInstance::new(2));
    let full = Chunk::filled(1, 0, 0, BlockInstance::new(2));
    let snapshot =
        MeshSnapshot { main: &main, neg_x: None, pos_x: Some(&full), neg_y: None, pos_y: None, neg_z: None, pos_z: None };
    let vertices = GreedyMeshingProcessor::process(&main, &snapshot, 0, 0, 0).unwrap();
    assert_eq!(vertices.len(), 5 * 6);
}

#[test]
fn merging_the_same_mask_twice_gives_the_same_quads() {
    let mut mask = empty_mask();
    for c in 0..256 {
        if (c * 7) % 5 != 0 {
            mask[c] = face(1 + ((c / 16) % 3) as u32);
        }
    }
    let mut again = mask.clone();
    let mut first = Vec::new();
    let mut second = Vec::new();
    greedy_merge(&mut mask, &mut first);
    greedy_merge(&mut again, &mut second);
    assert!(!first.is_empty());
    assert_eq!(first, second);
}
