# client

The core of a voxel game client, verified with Verus: how chunks of blocks
are stored and looked up, how their faces are lit and merged into greedy
quads, how the resulting vertex bytes are packed into one GPU buffer, and
how the world decides which chunks to load, mesh, draw and drop.

## Layout

- `src/` — the verified library.
  - `block.rs`, `chunk.rs`: blocks and 16x16x16 chunks.
  - `padded_chunk.rs`: a chunk with a one-block border from its neighbours.
  - `meshing.rs`: faces, corners and ambient occlusion; a chunk's mesh.
  - `greedy.rs`, `greedy_mesh.rs`: greedy merging of face masks and the
    vertices it produces along each axis.
  - `mesh_manager.rs`: the sub-allocator of the shared vertex buffer and the
    GPU commands it queues; `capacity.rs`: the size of a grown buffer, with
    single-precision rounding stated in integers; `buffer_contents.rs`: what
    that buffer ends up holding, and why every operation keeps each mesh
    readable.
  - `world.rs`, `world_mesh.rs`: loaded chunks, their meshing queues, range
    checks and unloading.
  - `texture.rs`, `render_manager.rs`: texture array layers and indirect draws.
  - `player.rs`: chunk boxes around the player, collisions, game modes and
    the protocol's player id; `input.rs`: the keys held.
- `tests/` — tests of the library on concrete values.
- `app/` — the unverified shell: the GPU vertex layout, worker threads,
  floating-point physics and camera ranges, image loading, and the per-frame
  schedule that drives the library.
