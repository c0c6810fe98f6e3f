use client::mesh_manager::{MeshEntry, MeshManager};
use client::render_manager::{DrawIndirectArgs, RenderManager};
use client::texture::{PipelineType, Texture2DArray, TextureArrayIndex, TextureError, TextureID, TextureManager};

#[test]
fn slots_of_pipelines_and_arrays() {
    assert_eq!(PipelineType::Opaque.to_usize(), 0);
    assert_eq!(PipelineType::AlphaCutout.to_usize(), 1);
    assert_eq!(PipelineType::Translucent.to_usize(), 2);
    assert_eq!(PipelineType::Billboard.to_usize(), 3);
    assert_eq!(PipelineType::UI.to_usize(), 4);
    assert_eq!(TextureArrayIndex::BLOCKS.to_usize(), 0);
    assert_eq!(TextureArrayIndex::ITEMS.to_usize(), 1);
    assert_eq!(TextureArrayIndex::BILLBOARDS.to_usize(), 2);
    assert_eq!(TextureID::new(2, 7), TextureID { array: 2, depth: 7 });
    assert_eq!(TextureID::new(2, 7).depth(), 7);
}

#[test]
fn a_manager_starts_with_three_arrays_of_at_most_32_texels() {
    let m = TextureManager::new(16, 4);
    assert_eq!(m.arrays.len(), 3);
    assert_eq!(*m.get_array(TextureArrayIndex::ITEMS), Texture2DArray { width: 16, height: 16, depth: 4, next_depth: 0 });
    let big = TextureManager::new(8192, 256);
    assert_eq!(big.arrays[0].width(), 32);
    assert_eq!(big.arrays[0].height(), 32);
    assert_eq!(big.arrays[0].depth(), 256);
    assert_eq!(big.arrays[0].layer_len(), 32 * 32 * 4);
}

#[test]
fn layers_are_handed_out_in_turn_until_past_the_limit() {
    let mut m = TextureManager::new(16, 1);
    assert_eq!(m.find_place(TextureArrayIndex::BLOCKS), Ok(TextureID { array: 0, depth: 0 }));
    assert_eq!(m.find_place(TextureArrayIndex::BLOCKS), Ok(TextureID { array: 0, depth: 1 }));
    assert_eq!(m.find_place(TextureArrayIndex::BLOCKS), Err(TextureError::ArrayFull));
    assert_eq!(m.arrays[0].next_depth, 3);
    assert_eq!(m.find_place(TextureArrayIndex::ITEMS), Ok(TextureID { array: 1, depth: 0 }));
}

#[test]
fn a_missing_array_is_an_error() {
    let mut m = TextureManager { arrays: Vec::new(), max_texture_size: 16, max_array_depth: 4, writes: Vec::new() };
    assert_eq!(m.find_place(TextureArrayIndex::BILLBOARDS), Err(TextureError::NoSuchArray));
    assert_eq!(m.make_new_array(8, 8), 0);
    assert_eq!(m.arrays[0], Texture2DArray { width: 8, height: 8, depth: 4, next_depth: 0 });
}

#[test]
fn registering_reserves_the_next_layer() {
    let mut m = TextureManager::new(2, 4);
    let texels = [0u8; 2 * 2 * 4];
    assert_eq!(m.register(TextureArrayIndex::BILLBOARDS, &texels, 2, 2), TextureID { array: 2, depth: 0 });
    assert_eq!(m.register(TextureArrayIndex::BILLBOARDS, &texels, 2, 2), TextureID { array: 2, depth: 1 });
}

#[test]
fn registering_queues_the_upload_of_the_texels() {
    let mut m = TextureManager::new(2, 4);
    let texels: Vec<u8> = (0..16).collect();
    let id = m.register(TextureArrayIndex::ITEMS, &texels, 2, 2);
    m.write(&[9u8; 16], &TextureID { array: 7, depth: 0 });
    m.write(&[5u8; 16], &TextureID { array: 0, depth: 3 });
    let writes = m.take_writes();
    assert!(m.writes.is_empty());
    assert_eq!(writes.len(), 2);
    assert_eq!((writes[0].array, writes[0].depth, writes[0].width, writes[0].height), (1, id.depth, 2, 2));
    assert_eq!(writes[0].data, texels);
    assert_eq!((writes[1].array, writes[1].depth), (0, 3));
    assert_eq!(writes[1].data, vec![5u8; 16]);
    let w = m.arrays[2].write_at(2, 1, &texels);
    assert_eq!((w.array, w.depth, w.width, w.height), (2, 1, 2, 2));
    assert_eq!(w.data, texels);
}

#[test]
fn texture_arrays_keep_sizes_in_16_bits() {
    let mut a = Texture2DArray::new(70000, 16, 3);
    assert_eq!(a.width, 70000u32 as u16);
    assert_eq!(a.next_id(), 0);
    assert_eq!(a.next_id(), 1);
}

#[test]
fn indirect_draws_cover_the_meshes_to_render_in_whole_vertices() {
    let mut r = RenderManager::new();
    r.mesh_manager = MeshManager::new();
    let a = r.mesh_manager.add_data(&[0u8; 96]).unwrap();
    let b = r.mesh_manager.add_data(&[0u8; 64]).unwrap();
    let c = r.mesh_manager.add_data(&[0u8; 32]).unwrap();
    assert!(!r.update_indirect_commands());
    assert!(r.indirect_commands.is_empty());
    r.mark_mesh_for_rendering(a);
    r.mark_mesh_for_rendering(c);
    assert!(r.update_indirect_commands());
    assert_eq!(
        r.indirect_commands,
        vec![
            DrawIndirectArgs { vertex_count: 3, instance_count: 1, first_vertex: 0, first_instance: 0 },
            DrawIndirectArgs { vertex_count: 1, instance_count: 1, first_vertex: 5, first_instance: 0 },
        ]
    );
    assert_eq!(
        r.get_meshes_to_render(),
        vec![MeshEntry { id: a, position: 0, length: 96 }, MeshEntry { id: c, position: 160, length: 32 }]
    );
    let _ = b;
    r.clear_render_queue();
    assert!(r.get_meshes_to_render().is_empty());
    let mut only_b = std::collections::HashSet::new();
    only_b.insert(b);
    r.replace_rendering_queue(only_b);
    assert_eq!(r.get_meshes_to_render(), vec![MeshEntry { id: b, position: 96, length: 64 }]);
}

#[test]
fn marking_a_set_of_meshes_adds_them_all() {
    let mut r = RenderManager::new();
    r.mark_mesh_for_rendering(1);
    let ids: std::collections::HashSet<u32> = [2u32, 3, 1].into_iter().collect();
    r.mark_meshes_for_rendering(&ids);
    let expected: std::collections::HashSet<u32> = [1u32, 2, 3].into_iter().collect();
    assert_eq!(r.ids_to_render, expected);
}
