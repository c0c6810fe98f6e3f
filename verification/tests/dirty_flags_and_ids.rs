use client::block::BlockInstance;
use client::chunk::{Chunk, ChunkState};
use client::mesh_manager::{MeshManager, MAX_GROWABLE_BYTES};
use client::meshing::can_store;
use client::player::player_id_from_name;
use client::meshing::ChunkMesh;
use client::world::{ChunkSlot, World};
use client::world_mesh::WorldMesh;

fn loaded_world(keys: &[(i32, i32, i32)]) -> World {
    let mut w = World::new(0);
    for &(x, y, z) in keys {
        w.set_chunk(x, y, z, Chunk::filled(x, y, z, BlockInstance::air()));
    }
    w
}

#[test]
fn only_ready_chunks_become_dirty() {
    let mut w = loaded_world(&[(0, 0, 0), (1, 0, 0)]);
    w.mark_chunk_clean(0, 0, 0);
    w.mark_chunk_clean(1, 0, 0);
    w.set_chunk_state(1, 0, 0, ChunkState::Pending);
    w.set_chunk_dirty(&(0, 0, 0));
    w.set_chunk_dirty(&(1, 0, 0));
    w.set_chunk_dirty(&(7, 7, 7));
    assert_eq!(w.chunk_infos_at(&(0, 0, 0)), Some((ChunkState::Ready, true)));
    assert_eq!(w.chunk_infos_at(&(1, 0, 0)), Some((ChunkState::Pending, false)));
    assert_eq!(w.chunk_infos_at(&(7, 7, 7)), None);
    assert_eq!(w.get_dirty_chunks(), vec![(0, 0, 0)]);
}

#[test]
fn meshes_are_built_for_loaded_chunks_with_ready_neighbours() {
    let around = [(0, 0, 0), (-1, 0, 0), (1, 0, 0), (0, -1, 0), (0, 1, 0), (0, 0, -1), (0, 0, 1)];
    let w = loaded_world(&around);
    let mut m = WorldMesh::new();
    assert_eq!(m.meshes_to_build(&w, [-1, 1, -1, 1, -1, 1]), vec![(0, 0, 0)]);
    assert!(m.meshes_to_build(&World::new(0), [-1, 1, -1, 1, -1, 1]).is_empty());
    m.meshes.push(ChunkSlot { key: (0, 0, 0), data: ChunkMesh { id: Some(0), dirty: false } });
    assert!(m.meshes_to_build(&w, [-1, 1, -1, 1, -1, 1]).is_empty());
    m.meshes[0].data.dirty = true;
    assert_eq!(m.meshes_to_build(&w, [-1, 1, -1, 1, -1, 1]), vec![(0, 0, 0)]);
    m.pending_keys = vec![(0, 0, 0)];
    assert!(m.meshes_to_build(&w, [-1, 1, -1, 1, -1, 1]).is_empty());
}

#[test]
fn the_player_id_folds_the_name_bytes_by_xor() {
    assert_eq!(player_id_from_name(b""), 0);
    assert_eq!(player_id_from_name(b"a"), 0x61);
    assert_eq!(player_id_from_name(b"ab"), 0x61 ^ 0x62);
    assert_eq!(player_id_from_name(b"abab"), 0);
}

#[test]
fn room_in_the_mesh_buffer_is_bounded() {
    let mut m = MeshManager::new();
    assert!(can_store(&m, None, 32));
    assert!(can_store(&m, None, MAX_GROWABLE_BYTES));
    assert!(!can_store(&m, None, MAX_GROWABLE_BYTES + 1));
    assert!(can_store(&m, None, 0));
    let id = m.add_data(&[1u8; 1000]).unwrap();
    // An update replaces the mesh's bytes: only the other meshes count.
    assert!(can_store(&m, Some(id), MAX_GROWABLE_BYTES));
    assert!(!can_store(&m, None, MAX_GROWABLE_BYTES - 999));
    // An id no entry holds is refused by the update itself.
    assert!(can_store(&m, Some(77), MAX_GROWABLE_BYTES + 1));
}

#[test]
fn the_world_is_refreshed_when_the_player_changes_chunk_or_nothing_is_loaded() {
    let w = loaded_world(&[(0, 0, 0)]);
    assert!(!w.needs_refresh(Some((1, 2, 3)), (1, 2, 3)));
    assert!(w.needs_refresh(Some((1, 2, 3)), (1, 2, 4)));
    assert!(w.needs_refresh(None, (1, 2, 3)));
    assert!(World::new(0).needs_refresh(Some((1, 2, 3)), (1, 2, 3)));
}

#[test]
fn only_stored_meshes_of_rendered_chunks_are_drawn() {
    let mut m = WorldMesh::new();
    m.meshes.push(ChunkSlot { key: (0, 0, 0), data: ChunkMesh { id: Some(4), dirty: false } });
    m.meshes.push(ChunkSlot { key: (1, 0, 0), data: ChunkMesh { id: None, dirty: true } });
    m.meshes.push(ChunkSlot { key: (2, 0, 0), data: ChunkMesh { id: Some(9), dirty: true } });
    m.meshes.push(ChunkSlot { key: (3, 0, 0), data: ChunkMesh { id: Some(1), dirty: false } });
    let rendered = vec![(3, 0, 0), (1, 0, 0), (0, 0, 0), (2, 0, 0)];
    assert_eq!(m.render_candidates(&rendered), vec![((0, 0, 0), 4), ((2, 0, 0), 9), ((3, 0, 0), 1)]);
    assert_eq!(m.render_candidates(&vec![(2, 0, 0)]), vec![((2, 0, 0), 9)]);
    assert!(m.render_candidates(&Vec::new()).is_empty());
}

#[test]
fn the_dirty_flag_is_read_per_loaded_chunk() {
    let mut w = loaded_world(&[(0, 0, 0)]);
    assert!(w.is_dirty_at(0, 0, 0));
    assert!(!w.is_dirty_at(1, 0, 0));
    w.mark_chunk_clean(0, 0, 0);
    assert!(!w.is_dirty_at(0, 0, 0));
}

#[test]
fn the_ready_queue_can_be_replaced() {
    let mut w = loaded_world(&[(0, 0, 0)]);
    w.set_ready_to_mesh(vec![(3, 0, 0), (1, 2, 3)]);
    assert_eq!(w.ready_to_mesh(), &vec![(3, 0, 0), (1, 2, 3)]);
    w.set_ready_to_mesh(Vec::new());
    assert!(w.ready_to_mesh().is_empty());
}
