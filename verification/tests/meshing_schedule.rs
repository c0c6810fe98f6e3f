use client::block::BlockInstance;
use client::chunk::{Chunk, ChunkState};
use client::mesh_manager::MeshManager;
use client::world::{ChunkSlot, World};
use client::world_mesh::WorldMesh;
use client::meshing::ChunkMesh;

fn loaded_world(keys: &[(i32, i32, i32)]) -> World {
    let mut w = World::new(0);
    for &(x, y, z) in keys {
        w.set_chunk(x, y, z, Chunk::filled(x, y, z, BlockInstance::air()));
    }
    w
}

const AROUND_ORIGIN: [(i32, i32, i32); 7] = [(0, 0, 0), (-1, 0, 0), (1, 0, 0), (0, -1, 0), (0, 1, 0), (0, 0, -1), (0, 0, 1)];

#[test]
fn only_meshable_ready_chunks_are_queued_and_the_rest_is_dropped() {
    let mut w = loaded_world(&AROUND_ORIGIN);
    w.ready_to_mesh = vec![(0, 0, 0), (1, 0, 0), (9, 9, 9)];
    let mut m = WorldMesh::new();
    m.enqueue_missing_meshes(&mut w);
    assert_eq!(m.queued, vec![(0, 0, 0)]);
    assert!(w.ready_to_mesh.is_empty());
}

#[test]
fn submissions_skip_busy_chunks_and_drop_unloaded_ones() {
    let w = loaded_world(&AROUND_ORIGIN);
    let mut m = WorldMesh::new();
    m.queued = vec![(0, 0, 0), (7, 7, 7), (1, 0, 0), (0, 1, 0)];
    m.pending_keys = vec![(1, 0, 0)];
    let candidates = m.submission_candidates(&w);
    assert_eq!(candidates, vec![(0, 0, 0), (0, 1, 0)]);
    assert_eq!(m.queued, vec![(0, 0, 0), (1, 0, 0), (0, 1, 0)]);
    m.mark_submitted((0, 0, 0), 12);
    assert_eq!(m.queued, vec![(1, 0, 0), (0, 1, 0)]);
    assert_eq!(m.pending.get(&12), Some(&(0, 0, 0)));
    assert_eq!(m.pending_keys, vec![(1, 0, 0), (0, 0, 0)]);
}

#[test]
fn a_finished_job_stores_the_mesh_and_marks_the_chunk_ready() {
    let mut w = loaded_world(&AROUND_ORIGIN);
    w.set_chunk_state(0, 0, 0, ChunkState::Pending);
    let mut m = WorldMesh::new();
    let mut manager = MeshManager::new();
    m.mark_submitted((0, 0, 0), 3);
    m.apply_mesh_result(3, Some(&[7u8; 32]), &mut manager, &mut w);
    assert!(m.pending.is_empty());
    assert!(m.pending_keys.is_empty());
    let mesh = m.mesh_at(&(0, 0, 0)).unwrap();
    assert!(!mesh.is_dirty());
    assert_eq!(mesh.id, Some(0));
    assert_eq!(manager.data.len(), 1);
    assert_eq!(w.chunk_infos_at(&(0, 0, 0)), Some((ChunkState::Ready, false)));
    assert_eq!(m.mesh_infos_at(&(0, 0, 0)), Some((Some(0), false)));
    // Unknown jobs change nothing.
    m.apply_mesh_result(99, Some(&[1u8; 32]), &mut manager, &mut w);
    assert_eq!(manager.data.len(), 1);
}

#[test]
fn an_empty_result_frees_the_stored_mesh() {
    let mut w = loaded_world(&AROUND_ORIGIN);
    let mut m = WorldMesh::new();
    let mut manager = MeshManager::new();
    m.mark_submitted((0, 0, 0), 1);
    m.apply_mesh_result(1, Some(&[7u8; 32]), &mut manager, &mut w);
    m.set_dirty(&(0, 0, 0));
    assert!(m.mesh_at(&(0, 0, 0)).unwrap().is_dirty());
    assert_eq!(m.queued, vec![(0, 0, 0)]);
    m.mark_submitted((0, 0, 0), 2);
    let empty: [u8; 0] = [];
    m.apply_mesh_result(2, Some(&empty), &mut manager, &mut w);
    assert_eq!(m.mesh_at(&(0, 0, 0)).unwrap().id, None);
    assert!(manager.data.is_empty());
}

#[test]
fn a_job_for_an_unloaded_chunk_drops_its_mesh() {
    let mut w = loaded_world(&AROUND_ORIGIN);
    let mut m = WorldMesh::new();
    let mut manager = MeshManager::new();
    m.meshes.push(ChunkSlot { key: (4, 4, 4), data: ChunkMesh::new() });
    m.mark_submitted((4, 4, 4), 5);
    m.apply_mesh_result(5, Some(&[1u8; 32]), &mut manager, &mut w);
    assert!(m.mesh_at(&(4, 4, 4)).is_none());
    assert!(manager.data.is_empty());
    m.dispose();
    assert!(m.meshes.is_empty() && m.queued.is_empty() && m.pending.is_empty());
}
