use client::block::BlockInstance;
use client::chunk::{Chunk, ChunkData, ChunkState};
use client::mesh_manager::MeshManager;
use client::meshing::ChunkMesh;
use client::world::{
    chunk_coords_from_block, decode_chunk_blocks, is_chunk_in_range, is_chunk_in_range_radii, local_block_coords,
    neighbors_from_block_pos, World,
};
use client::world_mesh::WorldMesh;

fn air_chunk(x: i32, y: i32, z: i32) -> Chunk {
    Chunk::filled(x, y, z, BlockInstance::air())
}

fn stone() -> BlockInstance {
    BlockInstance::new(1)
}

#[test]
fn block_coordinates_split_into_chunk_and_local_parts() {
    assert_eq!(chunk_coords_from_block(0, 15, 16), (0, 0, 1));
    assert_eq!(chunk_coords_from_block(-1, -16, -17), (-1, -1, -2));
    assert_eq!(local_block_coords(-1, -16, -17), (15, 0, 15));
    assert_eq!(chunk_coords_from_block(i32::MIN, i32::MAX, 0), (-134217728, 134217727, 0));
    assert_eq!(local_block_coords(i32::MIN, i32::MAX, 0), (0, 15, 0));
}

#[test]
fn blocks_on_chunk_borders_touch_neighbour_chunks() {
    assert_eq!(neighbors_from_block_pos(0, 15, 5), vec![(-1, 0, 0), (0, 1, 0)]);
    assert_eq!(neighbors_from_block_pos(17, 18, 31), vec![(1, 1, 2)]);
    assert!(neighbors_from_block_pos(5, 5, 5).is_empty());
}

#[test]
fn unloaded_blocks_read_as_air_and_block_bodies() {
    let w = World::new(42);
    assert_eq!(w.seed, 42);
    assert!(w.is_empty());
    assert_eq!(w.get_block_from_xyz(3, 4, 5), BlockInstance::air());
    assert!(w.is_block_solid(3, 4, 5));
    assert!(w.get_chunk_data(0, 0, 0).is_none());
}

#[test]
fn set_block_reads_back_and_queues_the_chunk_and_touched_neighbours() {
    let mut w = World::new(0);
    w.set_chunk(0, 0, 0, air_chunk(0, 0, 0));
    w.set_chunk(-1, 0, 0, air_chunk(-1, 0, 0));
    assert!(w.set_block(0, 3, 4, stone()));
    assert_eq!(w.get_block_from_xyz(0, 3, 4), stone());
    assert!(w.is_block_solid(0, 3, 4));
    assert_eq!(w.get_block_from_xyz(1, 3, 4), BlockInstance::air());
    assert_eq!(w.ready_to_mesh().clone(), vec![(0, 0, 0), (-1, 0, 0)]);
    // Writing the same block again changes nothing.
    assert!(!w.set_block(0, 3, 4, stone()));
    assert_eq!(w.ready_to_mesh().len(), 2);
    // No chunk, no write.
    assert!(!w.set_block(100, 0, 0, stone()));
    assert_eq!(w.get_block_from_xyz(100, 0, 0), BlockInstance::air());
}

#[test]
fn negative_block_coordinates_reach_the_right_chunk() {
    let mut w = World::new(0);
    w.set_chunk(-1, -1, -1, air_chunk(-1, -1, -1));
    assert!(w.set_block(-1, -1, -1, stone()));
    assert_eq!(w.get_chunk(-1, -1, -1).unwrap().get_block_from_xyz(15, 15, 15), stone());
    assert_eq!(w.get_local_block_from_xyz(15, 15, 15, -1, -1, -1), stone());
    assert_eq!(w.get_local_block_from_xyz(-1, -1, -1, 0, 0, 0), stone());
    assert_eq!(w.get_local_block_from_xyz(0, 0, 0, 0, 0, 0), BlockInstance::air());
}

#[test]
fn neighbours_must_all_be_loaded_and_ready() {
    let mut w = World::new(0);
    for (x, y, z) in [(-1, 0, 0), (1, 0, 0), (0, -1, 0), (0, 1, 0), (0, 0, -1)] {
        w.set_chunk(x, y, z, air_chunk(x, y, z));
    }
    assert!(!w.are_all_neighbors_ready(0, 0, 0));
    w.set_chunk(0, 0, 1, air_chunk(0, 0, 1));
    assert!(w.are_all_neighbors_ready(0, 0, 0));
    w.set_chunk_state(0, 1, 0, ChunkState::Pending);
    assert!(!w.are_all_neighbors_ready(0, 0, 0));
    assert_eq!(w.chunk_infos_at(&(0, 1, 0)), Some((ChunkState::Pending, true)));
    assert_eq!(w.chunk_infos_at(&(9, 9, 9)), None);
}

#[test]
fn generated_chunks_wait_for_their_neighbours() {
    let mut w = World::new(0);
    let mut data = ChunkData::new(air_chunk(0, 0, 0));
    data.state = ChunkState::Ready;
    w.add_generated_chunk(0, 0, 0, data);
    assert!(!w.get_chunk_data(0, 0, 0).unwrap().is_dirty);
    assert_eq!(w.waiting_to_mesh, vec![(0, 0, 0)]);
    // A chunk already loaded is kept.
    w.add_generated_chunk(0, 0, 0, ChunkData::new(Chunk::filled(0, 0, 0, stone())));
    assert_eq!(w.get_block_from_xyz(0, 0, 0), BlockInstance::air());
    w.submit_to_mesh();
    assert_eq!(w.waiting_to_mesh, vec![(0, 0, 0)]);
    assert!(w.ready_to_mesh().is_empty());
    for (x, y, z) in [(-1, 0, 0), (1, 0, 0), (0, -1, 0), (0, 1, 0), (0, 0, -1), (0, 0, 1)] {
        w.set_chunk(x, y, z, air_chunk(x, y, z));
    }
    w.submit_to_mesh();
    assert!(w.waiting_to_mesh.is_empty());
    assert_eq!(w.take_ready_to_mesh(), vec![(0, 0, 0)]);
    assert!(w.ready_to_mesh().is_empty());
}

fn encoded_blocks(ids: &[u16]) -> Vec<u8> {
    bincode::serialize(&ids.to_vec()).unwrap()
}

#[test]
fn decoding_reads_a_count_then_little_endian_ids() {
    let blocks = decode_chunk_blocks(&[2, 0, 0, 0, 0, 0, 0, 0, 5, 0, 7, 1, 99]).unwrap();
    assert_eq!(blocks, vec![BlockInstance::new(5), BlockInstance::new(263)]);
    assert_eq!(decode_chunk_blocks(&[2, 0, 0, 0, 0, 0, 0, 0, 5, 0, 7]), None);
    assert_eq!(decode_chunk_blocks(&[1, 0, 0]), None);
    assert_eq!(decode_chunk_blocks(&encoded_blocks(&[3, 4])).unwrap(), vec![BlockInstance::new(3), BlockInstance::new(4)]);
}

#[test]
fn remote_chunks_replace_local_ones_and_queue_their_neighbours() {
    let mut w = World::new(0);
    w.set_chunk(1, 0, 0, air_chunk(1, 0, 0));
    w.set_chunk(0, 0, 0, Chunk::filled(0, 0, 0, stone()));
    let mut ids = vec![0u16; 4096];
    ids[1 + 2 * 16 + 3 * 256] = 5;
    w.apply_remote_chunk(0, 0, 0, &encoded_blocks(&ids));
    assert_eq!(w.get_block_from_xyz(1, 2, 3), BlockInstance::new(5));
    assert_eq!(w.get_block_from_xyz(0, 0, 0), BlockInstance::air());
    let data = w.get_chunk_data(0, 0, 0).unwrap();
    assert!(data.is_dirty);
    assert_eq!(data.state, ChunkState::Ready);
    assert_eq!(w.ready_to_mesh().clone(), vec![(0, 0, 0), (1, 0, 0)]);
}

#[test]
fn snapshots_hold_the_loaded_neighbours() {
    let mut w = World::new(0);
    w.set_chunk(0, 0, 0, air_chunk(0, 0, 0));
    w.set_chunk(0, 0, -1, Chunk::filled(0, 0, -1, stone()));
    let s = w.get_mesh_snapshot(0, 0, 0);
    assert_eq!((s.main.x, s.main.y, s.main.z), (0, 0, 0));
    assert!(s.neg_x.is_none() && s.pos_x.is_none() && s.neg_y.is_none() && s.pos_y.is_none() && s.pos_z.is_none());
    assert_eq!(s.neg_z.unwrap().get_block_from_xyz(0, 0, 15), stone());
}

#[test]
fn dirty_chunks_are_listed_until_marked_clean() {
    let mut w = World::new(0);
    w.set_chunk(0, 0, 0, air_chunk(0, 0, 0));
    w.set_chunk(1, 0, 0, air_chunk(1, 0, 0));
    w.mark_chunk_clean(1, 0, 0);
    assert_eq!(w.get_dirty_chunks(), vec![(0, 0, 0)]);
    w.mark_chunk_clean(0, 0, 0);
    assert!(w.get_dirty_chunks().is_empty());
    w.dispose();
    assert!(w.is_empty());
}

#[test]
fn range_test_divides_each_squared_distance_by_its_radius() {
    assert!(is_chunk_in_range(&(0, 0, 0), &(0, 0, 0), 1, 1));
    assert!(is_chunk_in_range(&(3, 0, 0), &(0, 0, 0), 9, 4));
    assert!(!is_chunk_in_range(&(3, 2, 0), &(0, 0, 0), 9, 4));
    assert!(is_chunk_in_range(&(2, 1, 2), &(0, 0, 0), 9, 4));
    assert!(!is_chunk_in_range(&(0, 3, 0), &(0, 0, 0), 9, 4));
    assert_eq!(is_chunk_in_range_radii(&(5, 5, 5), &(4, 4, 4), 2, 2), is_chunk_in_range(&(4, 4, 4), &(5, 5, 5), 2, 2));
}

#[test]
fn missing_chunks_come_nearest_first_in_stable_order() {
    let mut w = World::new(0);
    w.set_chunk(0, 0, 0, air_chunk(0, 0, 0));
    let needed = vec![(2, 0, 0), (0, 0, 0), (0, 0, 1), (1, 0, 0), (0, 1, 0), (-1, 0, 0)];
    let order = w.missing_chunks_by_distance(&needed, (0, 0, 0));
    assert_eq!(order, vec![(0, 0, 1), (1, 0, 0), (0, 1, 0), (-1, 0, 0), (2, 0, 0)]);
    let from_corner = w.missing_chunks_by_distance(&needed, (16, 0, 0));
    assert_eq!(from_corner, vec![(1, 0, 0), (2, 0, 0), (0, 0, 1), (0, 1, 0), (-1, 0, 0)]);
}

#[test]
fn cleaning_unloads_far_chunks_and_frees_their_meshes() {
    let mut w = World::new(0);
    let mut world_mesh = WorldMesh::new();
    let mut manager = MeshManager::new();
    w.set_chunk(0, 0, 0, air_chunk(0, 0, 0));
    w.set_chunk(5, 0, 0, air_chunk(5, 0, 0));
    w.set_chunk(6, 0, 0, air_chunk(6, 0, 0));
    let mut stored = ChunkMesh::new();
    stored.update(&[1, 2, 3, 4], &mut manager);
    let id = stored.id.unwrap();
    world_mesh.meshes.push(client::world::ChunkSlot { key: (5, 0, 0), data: stored });
    world_mesh.meshes.push(client::world::ChunkSlot { key: (6, 0, 0), data: ChunkMesh::new() });
    w.clean_chunks(&mut manager, &mut world_mesh, (0, 0, 0), 4, 4);
    assert!(w.contains_chunk((0, 0, 0)));
    assert!(!w.contains_chunk((5, 0, 0)) && !w.contains_chunk((6, 0, 0)));
    assert!(world_mesh.meshes.is_empty());
    assert!(manager.data.is_empty());
    assert_eq!(manager.free_ids, vec![id]);
}

#[test]
fn a_remote_chunk_is_loaded_only_when_its_bytes_hold_a_whole_chunk() {
    let mut w = World::new(0);
    assert!(!w.try_apply_remote_chunk(0, 0, 0, &encoded_blocks(&[1, 2, 3])));
    assert!(!w.try_apply_remote_chunk(0, 0, 0, &[9, 9]));
    assert!(w.is_empty());
    assert!(w.try_apply_remote_chunk(0, 0, 0, &encoded_blocks(&[5u16; 4096])));
    assert_eq!(w.get_block_from_xyz(3, 3, 3), BlockInstance::new(5));
    assert_eq!(w.ready_to_mesh(), &vec![(0, 0, 0)]);
}
