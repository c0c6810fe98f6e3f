use client::block::{BlockInstance, AIR_BLOCK_ID};
use client::chunk::{Chunk, ChunkData, ChunkState};

#[test]
fn air_is_the_only_non_solid_block() {
    let air = BlockInstance::air();
    assert_eq!(air.id, AIR_BLOCK_ID);
    assert!(!air.is_solid());
    assert!(BlockInstance::new(1).is_solid());
    assert!(BlockInstance::new(u16::MAX).is_solid());
}

#[test]
fn texture_index_is_the_block_id() {
    assert_eq!(BlockInstance::new(7).texture_index(), 7);
    assert_eq!(BlockInstance::air().texture_index(), 0);
}

#[test]
fn chunk_reads_back_what_was_set() {
    let mut c = Chunk::filled(1, 2, 3, BlockInstance::air());
    assert_eq!(c.blocks.len(), 4096);
    c.set_block_from_xyz(1, 2, 3, BlockInstance::new(5));
    assert_eq!(c.get_block_from_xyz(1, 2, 3), BlockInstance::new(5));
    assert_eq!(c.get_block_from_i(1 + 2 * 16 + 3 * 256), BlockInstance::new(5));
    assert_eq!(c.get_block_from_xyz(0, 0, 0), BlockInstance::air());
    assert_eq!(c.get_block_from_xyz(15, 15, 15), BlockInstance::air());
    c.set_block_from_i(4095, BlockInstance::new(2));
    assert_eq!(c.get_block_from_xyz(15, 15, 15), BlockInstance::new(2));
    assert_eq!((c.x, c.y, c.z), (1, 2, 3));
}

#[test]
fn duplicate_copies_every_block() {
    let mut c = Chunk::filled(0, 0, 0, BlockInstance::new(3));
    c.set_block_from_xyz(4, 5, 6, BlockInstance::air());
    let d = c.duplicate();
    assert_eq!(d.blocks, c.blocks);
    assert_eq!((d.x, d.y, d.z), (0, 0, 0));
}

#[test]
fn new_chunk_data_is_ready_and_dirty() {
    let d = ChunkData::new(Chunk::filled(0, 0, 0, BlockInstance::air()));
    assert_eq!(d.state, ChunkState::Ready);
    assert!(d.is_dirty);
}

#[test]
fn set_dirty_leaves_pending_chunks_alone() {
    let mut d = ChunkData::new(Chunk::filled(0, 0, 0, BlockInstance::air()));
    d.is_dirty = false;
    d.state = ChunkState::Pending;
    d.set_dirty();
    assert!(!d.is_dirty);
    d.state = ChunkState::Ready;
    d.set_dirty();
    assert!(d.is_dirty);
}
