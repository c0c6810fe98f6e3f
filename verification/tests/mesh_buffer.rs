use client::capacity::single_grown_capacity_exec;
use client::mesh_manager::{bytes_conversion, AllocError, DataEntry, Gap, GpuCommand, MeshEntry, MeshManager};

#[test]
fn bytes_conversion_counts_whole_units() {
    assert_eq!(bytes_conversion(5 * 1024 * 1024 + 3), (5, 5 * 1024, 5 * 1024 * 1024 + 3));
    assert_eq!(bytes_conversion(1023), (0, 0, 1023));
    assert_eq!(bytes_conversion(0), (0, 0, 0));
}

#[test]
fn alloc_errors_as_numbers() {
    assert_eq!(AllocError::InvalidId.to_u8(), 0);
    assert_eq!(AllocError::NotEnoughSpace.to_u8(), 1);
}

#[test]
fn data_entries_and_gaps_keep_their_fields() {
    let bytes = [1u8, 2, 3];
    let e = DataEntry::new(4, &bytes);
    assert_eq!(e.id, 4);
    assert_eq!(e.data, &bytes[..]);
    assert_eq!(Gap::new(8, 16), Gap { position: 8, length: 16 });
}

#[test]
fn first_mesh_grows_the_buffer_to_its_minimum() {
    let mut m = MeshManager::new();
    assert_eq!(m.capacity, 0);
    let id = m.add_data(&[1, 2, 3, 4]).unwrap();
    assert_eq!(id, 0);
    assert_eq!(m.capacity, 4096);
    assert_eq!(m.data, vec![MeshEntry { id: 0, position: 0, length: 4 }]);
    assert_eq!(m.gaps, vec![Gap { position: 4, length: 4092 }]);
    let cmds = m.take_commands();
    assert!(matches!(cmds[0], GpuCommand::Reallocate { capacity: 4096 }));
    assert!(m.commands.is_empty());
}

#[test]
fn meshes_are_placed_one_after_the_other_and_written_in_one_batch() {
    let mut m = MeshManager::new();
    assert_eq!(m.add_data(&[1, 2, 3, 4]), Ok(0));
    assert_eq!(m.add_data(&[5, 6, 7, 8]), Ok(1));
    assert_eq!(m.data[1], MeshEntry { id: 1, position: 4, length: 4 });
    assert_eq!(m.total_data_length(), 8);
    let _ = m.take_commands();
    m.flush();
    let cmds = m.take_commands();
    assert_eq!(cmds.len(), 1);
    match &cmds[0] {
        GpuCommand::WriteBuffer { offset, data } => {
            assert_eq!(*offset, 0);
            assert_eq!(data, &vec![1, 2, 3, 4, 5, 6, 7, 8]);
        },
        other => panic!("unexpected command {:?}", other),
    }
    assert!(m.write_operations.is_empty());
    assert!(m.arena.is_empty());
}

#[test]
fn freed_regions_become_gaps_and_ids_are_reused() {
    let mut m = MeshManager::new();
    m.add_data(&[1; 4]).unwrap();
    m.add_data(&[2; 4]).unwrap();
    assert_eq!(m.free_data(0), Ok(()));
    assert_eq!(m.data, vec![MeshEntry { id: 1, position: 4, length: 4 }]);
    assert_eq!(m.gaps, vec![Gap { position: 0, length: 4 }, Gap { position: 8, length: 4088 }]);
    assert_eq!(m.free_ids, vec![0]);
    // The freed id and the first gap that fits are used again.
    assert_eq!(m.add_data(&[3; 2]), Ok(0));
    assert_eq!(m.data[0], MeshEntry { id: 0, position: 0, length: 2 });
    assert_eq!(m.gaps[0], Gap { position: 2, length: 2 });
}

#[test]
fn freeing_next_to_gaps_merges_them() {
    let mut m = MeshManager::new();
    m.add_data(&[1; 4]).unwrap();
    m.add_data(&[2; 4]).unwrap();
    m.free_data(1).unwrap();
    assert_eq!(m.gaps, vec![Gap { position: 4, length: 4092 }]);
    m.free_data(0).unwrap();
    assert_eq!(m.gaps, vec![Gap { position: 0, length: 4096 }]);
    assert!(m.data.is_empty());
}

#[test]
fn unknown_ids_are_refused() {
    let mut m = MeshManager::new();
    assert_eq!(m.free_data(7), Err(AllocError::InvalidId));
    assert_eq!(m.update_data(DataEntry::new(7, &[1, 2])), Err(AllocError::InvalidId));
    m.add_data(&[1; 4]).unwrap();
    assert_eq!(m.free_data(3), Err(AllocError::InvalidId));
}

#[test]
fn updates_shrink_in_place_and_return_the_rest_as_a_gap() {
    let mut m = MeshManager::new();
    m.add_data(&[1; 8]).unwrap();
    m.add_data(&[2; 8]).unwrap();
    assert_eq!(m.update_data(DataEntry::new(0, &[9; 4])), Ok(()));
    assert_eq!(m.data[0], MeshEntry { id: 0, position: 0, length: 4 });
    assert_eq!(m.gaps[0], Gap { position: 4, length: 4 });
    // Growing back into the gap that follows stays in place.
    assert_eq!(m.update_data(DataEntry::new(0, &[8; 8])), Ok(()));
    assert_eq!(m.data[0], MeshEntry { id: 0, position: 0, length: 8 });
    assert_eq!(m.gaps[0].position, 16);
}

#[test]
fn memory_usage_reports_length_and_capacity() {
    let mut m = MeshManager::new();
    m.add_data(&[0; 2048]).unwrap();
    assert_eq!(m.buffer_memory_usage(), ((0, 2, 2048), (0, 4, 4096)));
}

#[test]
fn a_large_mesh_grows_the_buffer_by_a_quarter() {
    let mut m = MeshManager::new();
    m.add_data(&[0; 4000]).unwrap();
    assert_eq!(m.capacity, 4000 + 1000);
    m.add_data(&[0; 1001]).unwrap();
    assert_eq!(m.capacity, 5001 + 1251);
    assert_eq!(m.data.len(), 2);
    assert_eq!(m.data[1], MeshEntry { id: 1, position: 4000, length: 1001 });
    let cmds = m.take_commands();
    assert!(cmds.iter().any(|c| matches!(c, GpuCommand::Reallocate { capacity: 6252 })));
    assert!(cmds.iter().any(|c| matches!(c, GpuCommand::CopyFromPrevious { from: 0, to: 0, length: 4000 })));
}

/// Plays buffer commands on a byte buffer, as the GPU would.
fn play(buffer: &mut Vec<u8>, cmds: &[GpuCommand]) {
    let mut previous: Vec<u8> = Vec::new();
    for c in cmds {
        match c {
            GpuCommand::Reallocate { capacity } => {
                previous = std::mem::replace(buffer, vec![0u8; *capacity as usize]);
            },
            GpuCommand::CopyFromPrevious { from, to, length } => {
                buffer[*to..*to + *length].copy_from_slice(&previous[*from..*from + *length]);
            },
            GpuCommand::WriteBuffer { offset, data } => {
                buffer[*offset..*offset + data.len()].copy_from_slice(data);
            },
        }
    }
}

fn entry_bytes(m: &MeshManager, buffer: &[u8], id: u32) -> Vec<u8> {
    let e = m.data.iter().find(|e| e.id == id).unwrap();
    buffer[e.position..e.position + e.length].to_vec()
}

#[test]
fn stored_meshes_are_read_back_as_written() {
    let mut m = MeshManager::new();
    let mut gpu: Vec<u8> = Vec::new();
    let a = m.add_data(&[1u8; 3000]).unwrap();
    let b = m.add_data(&[2u8; 2000]).unwrap();
    m.flush();
    play(&mut gpu, &m.take_commands());
    assert_eq!(entry_bytes(&m, &gpu, a), vec![1u8; 3000]);
    assert_eq!(entry_bytes(&m, &gpu, b), vec![2u8; 2000]);
    m.free_data(a).unwrap();
    let c = m.add_data(&[3u8; 5000]).unwrap();
    m.update_data(DataEntry::new(b, &[4u8; 100])).unwrap();
    m.flush();
    play(&mut gpu, &m.take_commands());
    assert_eq!(entry_bytes(&m, &gpu, b), vec![4u8; 100]);
    assert_eq!(entry_bytes(&m, &gpu, c), vec![3u8; 5000]);
}

#[test]
fn a_freed_id_is_handed_out_again_first() {
    let mut m = MeshManager::new();
    let a = m.add_data(&[1u8; 8]).unwrap();
    let b = m.add_data(&[2u8; 8]).unwrap();
    m.free_data(a).unwrap();
    m.free_data(b).unwrap();
    assert_eq!(m.add_data(&[3u8; 4]), Ok(b));
    assert_eq!(m.add_data(&[4u8; 4]), Ok(a));
    assert_eq!(m.add_data(&[5u8; 4]), Ok(2));
}

#[test]
fn updating_an_unknown_mesh_is_refused_whatever_its_size() {
    let mut m = MeshManager::new();
    let big = vec![0u8; 1 << 20];
    assert_eq!(m.update_data(DataEntry::new(7, &big)), Err(AllocError::InvalidId));
    assert!(m.data.is_empty());
}

#[test]
fn grown_buffers_are_sized_in_single_precision() {
    assert_eq!(single_grown_capacity_exec(0), 4096);
    assert_eq!(single_grown_capacity_exec(3276), 4096);
    assert_eq!(single_grown_capacity_exec(5000), 6250);
    assert_eq!(single_grown_capacity_exec(5001), 6252);
    // Above 2^22 the product loses quarters, ties going to even.
    assert_eq!(single_grown_capacity_exec(4194301), 5242876);
    assert_eq!(single_grown_capacity_exec(16777215), 20971518);
    assert_eq!(single_grown_capacity_exec(u32::MAX), u32::MAX);
    assert_eq!(single_grown_capacity_exec(3435973837), u32::MAX);
    for n in [0u32, 1, 4096, 70000, 16777217, 123456789, 3435973836, u32::MAX] {
        let c = single_grown_capacity_exec(n);
        assert_eq!(c, (((n as f32) * 1.25f32).ceil() as u32).max(4096));
        assert!(c >= n);
    }
}
