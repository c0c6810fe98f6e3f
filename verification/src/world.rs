use vstd::prelude::*;
use crate::block::{BlockInstance, AIR_BLOCK_ID};
use crate::chunk::{Chunk, ChunkData, ChunkState, chunk_index, in_chunk};
use crate::padded_chunk::MeshSnapshot;
use crate::mesh_manager::{AllocError, MeshId, MeshManager, freed};
use crate::meshing::ChunkMesh;
use crate::world_mesh::WorldMesh;

verus! {

/// Chunk coordinates `(cx, cy, cz)`: the chunk holding the blocks
/// `16 * cx .. 16 * cx + 16` along x, and so on.
pub type ChunkPos = (i32, i32, i32);

/// A value stored under chunk coordinates.
pub struct ChunkSlot<V> {
    pub key: ChunkPos,
    pub data: V,
}

/// No two slots hold the same coordinates.
pub open spec fn keys_unique<V>(slots: Seq<ChunkSlot<V>>) -> bool {
    forall|i: int, j: int| 0 <= i < j < slots.len() ==> (#[trigger] slots[i]).key != (#[trigger] slots[j]).key
}

/// No key appears twice in the queue.
pub open spec fn no_duplicates(q: Seq<ChunkPos>) -> bool {
    forall|i: int, j: int| 0 <= i < j < q.len() ==> #[trigger] q[i] != #[trigger] q[j]
}

/// Some slot holds `key`.
pub open spec fn slots_have<V>(slots: Seq<ChunkSlot<V>>, key: ChunkPos) -> bool {
    exists|i: int| 0 <= i < slots.len() && (#[trigger] slots[i]).key == key
}

/// The chunks of `slots` by their coordinates.
pub open spec fn slots_map<V>(slots: Seq<ChunkSlot<V>>) -> Map<ChunkPos, V> {
    Map::new(
        |k: ChunkPos| slots_have(slots, k),
        |k: ChunkPos| slots[choose|i: int| 0 <= i < slots.len() && (#[trigger] slots[i]).key == k].data,
    )
}

/// The world as the client knows it: the loaded chunks, the generated
/// chunks waiting for their neighbours before they can be meshed, and the
/// chunks ready to be meshed, in the order they became ready.
pub struct World {
    pub seed: u32,
    pub chunks: Vec<ChunkSlot<ChunkData>>,
    pub waiting_to_mesh: Vec<ChunkPos>,
    pub ready_to_mesh: Vec<ChunkPos>,
}

/// The six unit steps to the direct neighbours of a chunk.
pub open spec fn direct_normals() -> Seq<ChunkPos> {
    seq![(-1i32, 0i32, 0i32), (1i32, 0i32, 0i32), (0i32, -1i32, 0i32), (0i32, 1i32, 0i32), (0i32, 0i32, -1i32), (0i32, 0i32, 1i32)]
}

/// `key` shifted by `d`.
pub open spec fn shifted_key(key: ChunkPos, d: ChunkPos) -> (int, int, int) {
    (key.0 + d.0, key.1 + d.1, key.2 + d.2)
}

/// The neighbours of `key` stay within `i32` coordinates.
pub open spec fn neighbours_in_range(key: ChunkPos) -> bool {
    i32::MIN < key.0 < i32::MAX && i32::MIN < key.1 < i32::MAX && i32::MIN < key.2 < i32::MAX
}

/// The chunk holding the block at world coordinates `(x, y, z)`.
pub open spec fn chunk_of_block(x: int, y: int, z: int) -> (int, int, int) {
    (x / 16, y / 16, z / 16)
}

/// The coordinates of the block at world coordinates `(x, y, z)` inside its chunk.
pub open spec fn local_of_block(x: int, y: int, z: int) -> (int, int, int) {
    (x % 16, y % 16, z % 16)
}

/// `(a, b, c)` as a chunk key, when every coordinate fits in `i32`.
pub open spec fn as_key(p: (int, int, int)) -> ChunkPos {
    (p.0 as i32, p.1 as i32, p.2 as i32)
}

/// The block at world coordinates `(x, y, z)`: that of its chunk when the
/// chunk is loaded, else air.
pub open spec fn block_in(table: Map<ChunkPos, ChunkData>, x: int, y: int, z: int) -> BlockInstance {
    let c = as_key(chunk_of_block(x, y, z));
    let l = local_of_block(x, y, z);
    if table.dom().contains(c) {
        table[c].chunk.block_at(l.0, l.1, l.2)
    } else {
        BlockInstance { id: AIR_BLOCK_ID }
    }
}

/// The chunk at `key` is loaded and ready.
pub open spec fn ready_at(table: Map<ChunkPos, ChunkData>, key: (int, int, int)) -> bool {
    table.dom().contains(as_key(key)) && table[as_key(key)].state == ChunkState::Ready
}

/// All six direct neighbours of chunk `key` are loaded and ready.
pub open spec fn neighbours_ready(table: Map<ChunkPos, ChunkData>, key: ChunkPos) -> bool {
    forall|j: int| 0 <= j < 6 ==> #[trigger] ready_at(table, shifted_key(key, direct_normals()[j]))
}

/// `q` with `k` appended, unless it holds `k` already.
pub open spec fn push_unique(q: Seq<ChunkPos>, k: ChunkPos) -> Seq<ChunkPos> {
    if q.contains(k) {
        q
    } else {
        q.push(k)
    }
}

/// `q` with each key of `keys` that is loaded in `table` pushed, in order, by `push_unique`.
pub open spec fn push_loaded(q: Seq<ChunkPos>, keys: Seq<ChunkPos>, table: Map<ChunkPos, ChunkData>) -> Seq<ChunkPos>
    decreases keys.len(),
{
    if keys.len() == 0 {
        q
    } else {
        let rest = push_loaded(q, keys.drop_last(), table);
        if table.dom().contains(keys.last()) {
            push_unique(rest, keys.last())
        } else {
            rest
        }
    }
}

/// The chunks, besides its own, whose meshes read the block at world
/// coordinates `(x, y, z)`: the chunk next to each side of its chunk that
/// the block touches, along x, then y, then z.
pub open spec fn block_neighbour_chunks(x: int, y: int, z: int) -> Seq<ChunkPos> {
    let c = chunk_of_block(x, y, z);
    let l = local_of_block(x, y, z);
    let along_x = if l.0 == 0 {
        seq![as_key((c.0 - 1, c.1, c.2))]
    } else if l.0 == 15 {
        seq![as_key((c.0 + 1, c.1, c.2))]
    } else {
        Seq::empty()
    };
    let along_y = if l.1 == 0 {
        seq![as_key((c.0, c.1 - 1, c.2))]
    } else if l.1 == 15 {
        seq![as_key((c.0, c.1 + 1, c.2))]
    } else {
        Seq::empty()
    };
    let along_z = if l.2 == 0 {
        seq![as_key((c.0, c.1, c.2 - 1))]
    } else if l.2 == 15 {
        seq![as_key((c.0, c.1, c.2 + 1))]
    } else {
        Seq::empty()
    };
    along_x + along_y + along_z
}

/// The keys of the six direct neighbours of `key`, in the order of `direct_normals`.
pub open spec fn neighbour_keys(key: ChunkPos) -> Seq<ChunkPos> {
    Seq::new(6, |j: int| as_key(shifted_key(key, direct_normals()[j])))
}

/// `q` with the keys of `keys` pushed, in order, by `push_unique`.
pub open spec fn push_all(q: Seq<ChunkPos>, keys: Seq<ChunkPos>) -> Seq<ChunkPos>
    decreases keys.len(),
{
    if keys.len() == 0 {
        q
    } else {
        push_unique(push_all(q, keys.drop_last()), keys.last())
    }
}

/// The keys of `keys` whose six neighbours are ready in `table`, in order.
pub open spec fn ready_keys(keys: Seq<ChunkPos>, table: Map<ChunkPos, ChunkData>) -> Seq<ChunkPos>
    decreases keys.len(),
{
    if keys.len() == 0 {
        Seq::empty()
    } else if neighbours_ready(table, keys.last()) {
        ready_keys(keys.drop_last(), table).push(keys.last())
    } else {
        ready_keys(keys.drop_last(), table)
    }
}

/// The keys of `keys` that still wait for a neighbour in `table`, in order.
pub open spec fn still_waiting(keys: Seq<ChunkPos>, table: Map<ChunkPos, ChunkData>) -> Seq<ChunkPos>
    decreases keys.len(),
{
    if keys.len() == 0 {
        Seq::empty()
    } else if neighbours_ready(table, keys.last()) {
        still_waiting(keys.drop_last(), table)
    } else {
        still_waiting(keys.drop_last(), table).push(keys.last())
    }
}

/// The little-endian number in `bytes[at .. at + width]`.
pub open spec fn le_value(bytes: Seq<u8>, at: int, width: nat) -> int
    decreases width,
{
    if width == 0 {
        0
    } else {
        bytes[at] + 256 * le_value(bytes, at + 1, (width - 1) as nat)
    }
}

/// What the default bincode decoding of a `Vec<u16>` reads from `bytes`:
/// a little-endian `u64` count, then that many little-endian `u16`s; bytes
/// after them are left unread. Too few bytes fail.
pub open spec fn decoded_u16s(bytes: Seq<u8>) -> Option<Seq<u16>> {
    let count = le_value(bytes, 0, 8);
    if bytes.len() >= 8 && 8 + 2 * count <= bytes.len() {
        Some(Seq::new(count as nat, |i: int| le_value(bytes, 8 + 2 * i, 2) as u16))
    } else {
        None
    }
}

/// What loading the chunk `blocks` sent by the server at `(cx, cy, cz)`
/// does to the world `pre`, leaving `post`: the chunk replaces the one
/// there, ready and to be meshed, and it is queued, then each of its direct
/// neighbours that is loaded.
pub open spec fn remote_loaded(pre: World, post: World, cx: i32, cy: i32, cz: i32, blocks: Seq<BlockInstance>) -> bool {
    let key = (cx, cy, cz);
    &&& post.wf()
    &&& post.seed == pre.seed
    &&& post.waiting_to_mesh@ == pre.waiting_to_mesh@
    &&& post.table().dom() == pre.table().dom().insert(key)
    &&& forall|k: ChunkPos| #[trigger] pre.table().dom().contains(k) && k != key ==> post.table()[k] == pre.table()[k]
    &&& post.table()[key].chunk@ == blocks
    &&& post.table()[key].chunk.x == cx && post.table()[key].chunk.y == cy && post.table()[key].chunk.z == cz
    &&& post.table()[key].state == ChunkState::Ready
    &&& post.table()[key].is_dirty
    &&& post.ready_to_mesh@ == push_loaded(push_unique(pre.ready_to_mesh@, key), neighbour_keys(key), pre.table())
}

/// The blocks of a chunk sent by the server: its block ids, in order.
pub open spec fn decoded_blocks(bytes: Seq<u8>) -> Option<Seq<BlockInstance>> {
    match decoded_u16s(bytes) {
        Some(ids) => Some(Seq::new(ids.len(), |i: int| BlockInstance { id: ids[i] })),
        None => None,
    }
}

/// `side` is the chunk `(cx, cy, cz)` of `table` when loaded, else `None`.
pub open spec fn snapshot_side(table: Map<ChunkPos, ChunkData>, side: Option<&Chunk>, cx: i32, cy: i32, cz: i32) -> bool {
    match side {
        Some(c) => table.dom().contains((cx, cy, cz)) && *c == table[(cx, cy, cz)].chunk && c.wf(),
        None => !table.dom().contains((cx, cy, cz)),
    }
}

/// Computing `is_chunk_in_range` of `c` around `center` stays within `i32`:
/// the radii are positive and the differences, their squares and the sum of
/// the scaled squares fit.
pub open spec fn range_test_fits(c: ChunkPos, center: ChunkPos, radius_h_squared: i32, radius_v_squared: i32) -> bool {
    let dx = c.0 - center.0;
    let dy = c.1 - center.1;
    let dz = c.2 - center.2;
    &&& radius_h_squared > 0 && radius_v_squared > 0
    &&& i32::MIN <= dx <= i32::MAX && i32::MIN <= dy <= i32::MAX && i32::MIN <= dz <= i32::MAX
    &&& dx * dx <= i32::MAX && dy * dy <= i32::MAX && dz * dz <= i32::MAX
    &&& (dx * dx) / (radius_h_squared as int) + (dy * dy) / (radius_v_squared as int) <= i32::MAX
    &&& (dx * dx) / (radius_h_squared as int) + (dy * dy) / (radius_v_squared as int) + (dz * dz) / (radius_h_squared as int) <= i32::MAX
}

/// Chunk `c` lies within the ellipsoid of squared radii `radius_h_squared`
/// (along x and z) and `radius_v_squared` (along y) around `center`, each
/// squared distance divided by its squared radius with the remainder
/// dropped.
pub open spec fn chunk_in_range(c: ChunkPos, center: ChunkPos, radius_h_squared: i32, radius_v_squared: i32) -> bool {
    let dx = c.0 - center.0;
    let dy = c.1 - center.1;
    let dz = c.2 - center.2;
    (dx * dx) / (radius_h_squared as int) + (dy * dy) / (radius_v_squared as int) + (dz * dz) / (radius_h_squared as int) <= 1
}

/// The slots of `slots` whose chunk is in range of `center`, in order.
pub open spec fn slots_in_range(slots: Seq<ChunkSlot<ChunkData>>, center: ChunkPos, rh: i32, rv: i32) -> Seq<ChunkSlot<ChunkData>>
    decreases slots.len(),
{
    if slots.len() == 0 {
        Seq::empty()
    } else if chunk_in_range(slots.last().key, center, rh, rv) {
        slots_in_range(slots.drop_last(), center, rh, rv).push(slots.last())
    } else {
        slots_in_range(slots.drop_last(), center, rh, rv)
    }
}

/// The keys of the slots of `slots` out of range of `center`, in order.
pub open spec fn keys_out_of_range(slots: Seq<ChunkSlot<ChunkData>>, center: ChunkPos, rh: i32, rv: i32) -> Seq<ChunkPos>
    decreases slots.len(),
{
    if slots.len() == 0 {
        Seq::empty()
    } else if chunk_in_range(slots.last().key, center, rh, rv) {
        keys_out_of_range(slots.drop_last(), center, rh, rv)
    } else {
        keys_out_of_range(slots.drop_last(), center, rh, rv).push(slots.last().key)
    }
}

/// The buffer ids of the stored meshes of `keys` in `meshes`, in order.
pub open spec fn stored_mesh_ids(keys: Seq<ChunkPos>, meshes: Map<ChunkPos, ChunkMesh>) -> Seq<MeshId>
    decreases keys.len(),
{
    if keys.len() == 0 {
        Seq::empty()
    } else if meshes.dom().contains(keys.last()) && meshes[keys.last()].id is Some {
        stored_mesh_ids(keys.drop_last(), meshes).push(meshes[keys.last()].id->0)
    } else {
        stored_mesh_ids(keys.drop_last(), meshes)
    }
}

/// `post` is `pre` after freeing mesh `id`, whatever the manager answered.
pub open spec fn freed_some(pre: MeshManager, post: MeshManager, id: MeshId) -> bool {
    exists|r: Result<(), AllocError>| #[trigger] freed(pre, post, id, r)
}

/// Step `i` of `ms` frees mesh `ids[i]`.
pub open spec fn step_freed(ms: Seq<MeshManager>, ids: Seq<MeshId>, i: int) -> bool {
    freed_some(ms[i], ms[i + 1], ids[i])
}

/// `post` is `pre` after freeing the meshes `ids`, one after the other.
pub open spec fn freed_in_order(pre: MeshManager, post: MeshManager, ids: Seq<MeshId>) -> bool {
    exists|ms: Seq<MeshManager>|
        #![trigger ms.len()]
        ms.len() == ids.len() + 1 && ms[0] == pre && ms[ids.len() as int] == post && forall|i: int|
            0 <= i < ids.len() ==> #[trigger] step_freed(ms, ids, i)
}

/// Squared distance, in blocks, from the block `p` to the corner of chunk `k`
/// with the lowest coordinates.
pub open spec fn block_distance_sq(k: ChunkPos, p: (i32, i32, i32)) -> int {
    let x = k.0 * 16 - p.0;
    let y = k.1 * 16 - p.1;
    let z = k.2 * 16 - p.2;
    x * x + y * y + z * z
}

/// Computing `block_distance_sq` of `k` from `p` stays within `i32`.
pub open spec fn distance_fits(k: ChunkPos, p: (i32, i32, i32)) -> bool {
    let x = k.0 * 16 - p.0;
    let y = k.1 * 16 - p.1;
    let z = k.2 * 16 - p.2;
    &&& i32::MIN <= k.0 * 16 <= i32::MAX && i32::MIN <= k.1 * 16 <= i32::MAX && i32::MIN <= k.2 * 16 <= i32::MAX
    &&& i32::MIN <= x <= i32::MAX && i32::MIN <= y <= i32::MAX && i32::MIN <= z <= i32::MAX
    &&& x * x <= i32::MAX && y * y <= i32::MAX && z * z <= i32::MAX
    &&& x * x + y * y <= i32::MAX && x * x + y * y + z * z <= i32::MAX
}

/// The keys of `keys` not loaded in `table`, in order.
pub open spec fn unloaded_keys(keys: Seq<ChunkPos>, table: Map<ChunkPos, ChunkData>) -> Seq<ChunkPos>
    decreases keys.len(),
{
    if keys.len() == 0 {
        Seq::empty()
    } else if table.dom().contains(keys.last()) {
        unloaded_keys(keys.drop_last(), table)
    } else {
        unloaded_keys(keys.drop_last(), table).push(keys.last())
    }
}

/// `out` is `input` sorted by distance from `p`, nearest first, keys at the
/// same distance keeping their order: `out[i]` is `input[perm[i]]` for a
/// permutation `perm` of the indices that only ever puts a later key after
/// an earlier one at the same distance.
pub open spec fn stable_sorted_by_distance(out: Seq<ChunkPos>, input: Seq<ChunkPos>, p: (i32, i32, i32), perm: Seq<int>) -> bool {
    &&& out.len() == input.len()
    &&& perm.len() == input.len()
    &&& forall|i: int| 0 <= i < perm.len() ==> 0 <= #[trigger] perm[i] < input.len()
    &&& forall|i: int, j: int| 0 <= i < j < perm.len() ==> #[trigger] perm[i] != #[trigger] perm[j]
    &&& forall|i: int| 0 <= i < out.len() ==> #[trigger] out[i] == input[perm[i]]
    &&& forall|i: int, j: int|
        0 <= i < j < out.len() ==> block_distance_sq(#[trigger] out[i], p) <= block_distance_sq(#[trigger] out[j], p)
    &&& forall|i: int, j: int|
        0 <= i < j < out.len() && block_distance_sq(#[trigger] out[i], p) == block_distance_sq(#[trigger] out[j], p) ==> perm[i]
            < perm[j]
}

/// `t1` is `t0` after writing `block` at world coordinates `(x, y, z)`,
/// with `r` telling whether anything changed: only when the block's chunk
/// is loaded and holds another block there; then only that block changes.
pub open spec fn block_written(
    t0: Map<ChunkPos, ChunkData>,
    t1: Map<ChunkPos, ChunkData>,
    x: int,
    y: int,
    z: int,
    block: BlockInstance,
    r: bool,
) -> bool {
    let c = as_key(chunk_of_block(x, y, z));
    let l = local_of_block(x, y, z);
    &&& r == (t0.dom().contains(c) && t0[c].chunk.block_at(l.0, l.1, l.2) != block)
    &&& !r ==> t1 == t0
    &&& r ==> {
        &&& t1.dom() == t0.dom()
        &&& forall|k: ChunkPos| #[trigger] t0.dom().contains(k) && k != c ==> t1[k] == t0[k]
        &&& t1[c].chunk@ == t0[c].chunk@.update(chunk_index(l.0, l.1, l.2), block)
        &&& t1[c].chunk.x == t0[c].chunk.x && t1[c].chunk.y == t0[c].chunk.y && t1[c].chunk.z == t0[c].chunk.z
        &&& t1[c].state == t0[c].state
        &&& t1[c].is_dirty == t0[c].is_dirty
    }
}

/// Whether two chunk coordinates are equal.
pub fn same_key(a: ChunkPos, b: ChunkPos) -> (r: bool)
    ensures
        r == (a == b),
{
    a.0 == b.0 && a.1 == b.1 && a.2 == b.2
}

/// Shifting by `2^31` keeps the quotient by 16 (up to `2^27`) and the remainder.
proof fn lemma_shift_div16(x: int)
    requires
        -2147483648 <= x < 2147483648,
    ensures
        (x + 2147483648) / 16 - 134217728 == x / 16,
        (x + 2147483648) % 16 == x % 16,
{
    let a = x + 2147483648;
    vstd::arithmetic::div_mod::lemma_fundamental_div_mod(a, 16);
    vstd::arithmetic::div_mod::lemma_mod_pos_bound(a, 16);
    let q = a / 16 - 134217728;
    let r = a % 16;
    assert(x == q * 16 + r);
    vstd::arithmetic::div_mod::lemma_fundamental_div_mod_converse(x, 16, q, r);
}

/// `x / 16`, rounded down.
fn floor_div16(x: i32) -> (r: i32)
    ensures
        r == x / 16,
{
    let shifted: u64 = (x as i64 + 2147483648) as u64;
    proof {
        lemma_shift_div16(x as int);
    }
    ((shifted / 16) as i64 - 134217728) as i32
}

/// `x` modulo 16, in `0 .. 16`.
fn floor_mod16(x: i32) -> (r: i32)
    ensures
        r == x % 16,
        0 <= r < 16,
{
    let shifted: u64 = (x as i64 + 2147483648) as u64;
    proof {
        lemma_shift_div16(x as int);
    }
    (shifted % 16) as i32
}

/// Appends `k` to `q` unless `q` holds it already.
pub fn push_unique_exec(q: &mut Vec<ChunkPos>, k: ChunkPos)
    requires
        no_duplicates(old(q)@),
    ensures
        final(q)@ == push_unique(old(q)@, k),
        no_duplicates(final(q)@),
{
    let mut i: usize = 0;
    while i < q.len()
        invariant
            i <= q@.len(),
            q@ == old(q)@,
            no_duplicates(q@),
            forall|j: int| 0 <= j < i ==> q@[j] != k,
        decreases q@.len() - i,
    {
        if same_key(q[i], k) {
            proof {
                assert(q@.contains(k));
            }
            return;
        }
        i = i + 1;
    }
    proof {
        assert(!q@.contains(k));
    }
    q.push(k);
    proof {
        assert forall|a: int, b: int| 0 <= a < b < q@.len() implies #[trigger] q@[a] != #[trigger] q@[b] by {
            if b == q@.len() - 1 {
                assert(old(q)@[a] == q@[a]);
            } else {
                assert(old(q)@[a] != old(q)@[b]);
            }
        }
    }
}

/// The chunk coordinates of the block at world coordinates `(x, y, z)`.
pub fn chunk_coords_from_block(x: i32, y: i32, z: i32) -> (r: ChunkPos)
    ensures
        r == as_key(chunk_of_block(x as int, y as int, z as int)),
        r.0 == x / 16 && r.1 == y / 16 && r.2 == z / 16,
{
    (floor_div16(x), floor_div16(y), floor_div16(z))
}

/// The coordinates of the block at world coordinates `(x, y, z)` inside its chunk.
pub fn local_block_coords(x: i32, y: i32, z: i32) -> (r: (i32, i32, i32))
    ensures
        r.0 == x % 16 && r.1 == y % 16 && r.2 == z % 16,
        in_chunk(r.0 as int, r.1 as int, r.2 as int),
{
    (floor_mod16(x), floor_mod16(y), floor_mod16(z))
}

/// The chunks, besides its own, whose meshes read the block at `(x, y, z)`.
pub fn neighbors_from_block_pos(x: i32, y: i32, z: i32) -> (r: Vec<ChunkPos>)
    ensures
        r@ == block_neighbour_chunks(x as int, y as int, z as int),
{
    let (cx, cy, cz) = chunk_coords_from_block(x, y, z);
    let (lx, ly, lz) = local_block_coords(x, y, z);
    let mut r: Vec<ChunkPos> = Vec::new();
    if lx == 0 {
        r.push((cx - 1, cy, cz));
    } else if lx == 15 {
        r.push((cx + 1, cy, cz));
    }
    if ly == 0 {
        r.push((cx, cy - 1, cz));
    } else if ly == 15 {
        r.push((cx, cy + 1, cz));
    }
    if lz == 0 {
        r.push((cx, cy, cz - 1));
    } else if lz == 15 {
        r.push((cx, cy, cz + 1));
    }
    proof {
        assert(r@ =~= block_neighbour_chunks(x as int, y as int, z as int));
    }
    r
}

/// The index of the slot holding `key`, if any.
pub fn find_slot<V>(slots: &Vec<ChunkSlot<V>>, key: ChunkPos) -> (r: Option<usize>)
    ensures
        match r {
            Some(i) => i < slots@.len() && slots@[i as int].key == key,
            None => !slots_have(slots@, key),
        },
{
    let mut i: usize = 0;
    while i < slots.len()
        invariant
            i <= slots@.len(),
            forall|j: int| 0 <= j < i ==> (#[trigger] slots@[j]).key != key,
        decreases slots@.len() - i,
    {
        if same_key(slots[i].key, key) {
            return Some(i);
        }
        i = i + 1;
    }
    None
}

/// Decodes `bytes` with `bincode::deserialize::<Vec<u16>>`, bincode's default
/// options: fixed-width little-endian integers, a `u64` element count before
/// the elements, bytes after the last element ignored. The contract states
/// that format as read in bincode's source; a failure is `None`.
#[verifier::external_body]
fn bincode_decode_u16s(bytes: &[u8]) -> (r: Option<Vec<u16>>)
    ensures
        match decoded_u16s(bytes@) {
            Some(ids) => r matches Some(v) && v@ == ids,
            None => r is None,
        },
{
    bincode::deserialize::<Vec<u16>>(bytes).ok()
}

/// The blocks of a chunk serialized by the server, or `None` when the bytes
/// do not hold a whole list of block ids.
pub fn decode_chunk_blocks(bytes: &[u8]) -> (r: Option<Vec<BlockInstance>>)
    ensures
        match decoded_blocks(bytes@) {
            Some(blocks) => r matches Some(v) && v@ == blocks,
            None => r is None,
        },
{
    match bincode_decode_u16s(bytes) {
        Some(ids) => {
            let mut blocks: Vec<BlockInstance> = Vec::new();
            let mut i: usize = 0;
            while i < ids.len()
                invariant
                    i <= ids@.len(),
                    blocks@.len() == i,
                    forall|j: int| 0 <= j < i ==> #[trigger] blocks@[j] == (BlockInstance { id: ids@[j] }),
                decreases ids@.len() - i,
            {
                blocks.push(BlockInstance::new(ids[i]));
                i = i + 1;
            }
            proof {
                let ds = decoded_blocks(bytes@);
                assert(blocks@ =~= ds->0);
            }
            Some(blocks)
        },
        None => None,
    }
}

/// Whether chunk `c` is within the squared radii `radius_h_squared`
/// (horizontally) and `radius_v_squared` (vertically) of `center`.
pub fn is_chunk_in_range(c: &ChunkPos, center: &ChunkPos, radius_h_squared: i32, radius_v_squared: i32) -> (r: bool)
    requires
        range_test_fits(*c, *center, radius_h_squared, radius_v_squared),
    ensures
        r == chunk_in_range(*c, *center, radius_h_squared, radius_v_squared),
{
    let dx = c.0 - center.0;
    let dy = c.1 - center.1;
    let dz = c.2 - center.2;
    proof {
        assert(0 <= dx * dx && 0 <= dy * dy && 0 <= dz * dz) by (nonlinear_arith);
    }
    let sx = dx * dx;
    let sy = dy * dy;
    let sz = dz * dz;
    let qx = (sx as u32 / radius_h_squared as u32) as i32;
    let qy = (sy as u32 / radius_v_squared as u32) as i32;
    let qz = (sz as u32 / radius_h_squared as u32) as i32;
    qx + qy + qz <= 1
}

/// Whether chunk `c` is within the squared radii of `center`; the same test
/// as `is_chunk_in_range`.
pub fn is_chunk_in_range_radii(c: &ChunkPos, center: &ChunkPos, radius_h_squared: i32, radius_v_squared: i32) -> (r: bool)
    requires
        range_test_fits(*c, *center, radius_h_squared, radius_v_squared),
    ensures
        r == chunk_in_range(*c, *center, radius_h_squared, radius_v_squared),
{
    is_chunk_in_range(c, center, radius_h_squared, radius_v_squared)
}

/// A chunk is always within range of itself.
pub proof fn lemma_center_in_range(c: ChunkPos, radius_h_squared: i32, radius_v_squared: i32)
    requires
        radius_h_squared > 0,
        radius_v_squared > 0,
    ensures
        chunk_in_range(c, c, radius_h_squared, radius_v_squared),
{
}

/// Being in range does not depend on which of the two chunks is the centre.
pub proof fn lemma_range_symmetric(a: ChunkPos, b: ChunkPos, radius_h_squared: i32, radius_v_squared: i32)
    ensures
        chunk_in_range(a, b, radius_h_squared, radius_v_squared) == chunk_in_range(b, a, radius_h_squared, radius_v_squared),
{
    let (dx, dy, dz) = (a.0 - b.0, a.1 - b.1, a.2 - b.2);
    assert(dx * dx == (-dx) * (-dx)) by (nonlinear_arith);
    assert(dy * dy == (-dy) * (-dy)) by (nonlinear_arith);
    assert(dz * dz == (-dz) * (-dz)) by (nonlinear_arith);
}

/// The range test treats x and z alike: swapping the x and z offsets of a
/// chunk from the centre does not change whether it is in range.
pub proof fn lemma_range_horizontal_swap(c: ChunkPos, center: ChunkPos, radius_h_squared: i32, radius_v_squared: i32)
    requires
        i32::MIN <= center.0 + (c.2 - center.2) <= i32::MAX,
        i32::MIN <= center.2 + (c.0 - center.0) <= i32::MAX,
    ensures
        chunk_in_range(c, center, radius_h_squared, radius_v_squared) == chunk_in_range(
            ((center.0 + (c.2 - center.2)) as i32, c.1, (center.2 + (c.0 - center.0)) as i32),
            center,
            radius_h_squared,
            radius_v_squared,
        ),
{
}

/// A non-negative `n` divided by a positive `r` is at most one exactly when `n < 2 * r`.
proof fn lemma_quotient_at_most_one(n: int, r: int)
    requires
        n >= 0,
        r > 0,
    ensures
        (n / r <= 1) == (n < 2 * r),
{
    vstd::arithmetic::div_mod::lemma_fundamental_div_mod(n, r);
    vstd::arithmetic::div_mod::lemma_mod_pos_bound(n, r);
    vstd::arithmetic::div_mod::lemma_div_pos_is_pos(n, r);
    let q = n / r;
    let m = n % r;
    if q <= 1 {
        assert(r * q <= r) by (nonlinear_arith)
            requires
                0 <= q <= 1,
                r > 0,
        ;
    } else {
        assert(r * q >= 2 * r) by (nonlinear_arith)
            requires
                q >= 2,
                r > 0,
        ;
    }
}

/// Along a single axis, the chunk at offset `d` from the centre is in range
/// exactly when `d * d` is below twice the squared radius of that axis: the
/// horizontal radius along x and along z, the vertical one along y.
pub proof fn lemma_range_along_axes(center: ChunkPos, d: i32, radius_h_squared: i32, radius_v_squared: i32)
    requires
        radius_h_squared > 0,
        radius_v_squared > 0,
    ensures
        i32::MIN <= center.0 + d <= i32::MAX ==> (chunk_in_range(
            ((center.0 + d) as i32, center.1, center.2),
            center,
            radius_h_squared,
            radius_v_squared,
        ) <==> d * d < 2 * radius_h_squared),
        i32::MIN <= center.1 + d <= i32::MAX ==> (chunk_in_range(
            (center.0, (center.1 + d) as i32, center.2),
            center,
            radius_h_squared,
            radius_v_squared,
        ) <==> d * d < 2 * radius_v_squared),
        i32::MIN <= center.2 + d <= i32::MAX ==> (chunk_in_range(
            (center.0, center.1, (center.2 + d) as i32),
            center,
            radius_h_squared,
            radius_v_squared,
        ) <==> d * d < 2 * radius_h_squared),
{
    assert(d * d >= 0) by (nonlinear_arith);
    lemma_quotient_at_most_one(d * d, radius_h_squared as int);
    lemma_quotient_at_most_one(d * d, radius_v_squared as int);
    let (rh, rv) = (radius_h_squared as int, radius_v_squared as int);
    assert(0int / rh == 0 && 0int / rv == 0);
    if i32::MIN <= center.0 + d <= i32::MAX {
        let c = ((center.0 + d) as i32, center.1, center.2);
        assert(c.0 - center.0 == d && c.1 - center.1 == 0 && c.2 - center.2 == 0);
        assert(chunk_in_range(c, center, radius_h_squared, radius_v_squared) == ((d * d) / rh <= 1));
    }
    if i32::MIN <= center.2 + d <= i32::MAX {
        let c = (center.0, center.1, (center.2 + d) as i32);
        assert(c.0 - center.0 == 0 && c.1 - center.1 == 0 && c.2 - center.2 == d);
        assert(chunk_in_range(c, center, radius_h_squared, radius_v_squared) == ((d * d) / rh <= 1));
    }
}

/// Chunk `k` is loaded in `table` and ready.
pub open spec fn loaded_ready(table: Map<ChunkPos, ChunkData>, k: ChunkPos) -> bool {
    table.dom().contains(k) && table[k].state == ChunkState::Ready
}

/// A chunk has its neighbours ready exactly when each of the six chunks one
/// step lower and one step higher along x, y and z is loaded and ready: a
/// single missing or unready one holds it back.
pub proof fn lemma_neighbours_ready_six(table: Map<ChunkPos, ChunkData>, key: ChunkPos)
    requires
        neighbours_in_range(key),
    ensures
        neighbours_ready(table, key) <==> {
            &&& loaded_ready(table, ((key.0 - 1) as i32, key.1, key.2))
            &&& loaded_ready(table, ((key.0 + 1) as i32, key.1, key.2))
            &&& loaded_ready(table, (key.0, (key.1 - 1) as i32, key.2))
            &&& loaded_ready(table, (key.0, (key.1 + 1) as i32, key.2))
            &&& loaded_ready(table, (key.0, key.1, (key.2 - 1) as i32))
            &&& loaded_ready(table, (key.0, key.1, (key.2 + 1) as i32))
        },
{
    let n = direct_normals();
    assert(as_key(shifted_key(key, n[0])) == ((key.0 - 1) as i32, key.1, key.2));
    assert(as_key(shifted_key(key, n[1])) == ((key.0 + 1) as i32, key.1, key.2));
    assert(as_key(shifted_key(key, n[2])) == (key.0, (key.1 - 1) as i32, key.2));
    assert(as_key(shifted_key(key, n[3])) == (key.0, (key.1 + 1) as i32, key.2));
    assert(as_key(shifted_key(key, n[4])) == (key.0, key.1, (key.2 - 1) as i32));
    assert(as_key(shifted_key(key, n[5])) == (key.0, key.1, (key.2 + 1) as i32));
    if neighbours_ready(table, key) {
        assert(ready_at(table, shifted_key(key, n[0])));
        assert(ready_at(table, shifted_key(key, n[1])));
        assert(ready_at(table, shifted_key(key, n[2])));
        assert(ready_at(table, shifted_key(key, n[3])));
        assert(ready_at(table, shifted_key(key, n[4])));
        assert(ready_at(table, shifted_key(key, n[5])));
    }
}

/// Editing block `(x, y, z)` requeues, besides its own chunk, exactly the
/// chunks on the sides it touches: on each axis where the block lies on the
/// lowest layer of its chunk (coordinate `0` modulo 16) the chunk one step
/// lower, where it lies on the highest layer (`15` modulo 16) the chunk one
/// step higher; one chunk per such axis and no other.
pub proof fn lemma_block_neighbours_touch_sides(x: i32, y: i32, z: i32)
    ensures
        block_neighbour_chunks(x as int, y as int, z as int).contains(
            (((x as int) / 16 - 1) as i32, ((y as int) / 16) as i32, ((z as int) / 16) as i32),
        ) <==> (x as int) % 16 == 0,
        block_neighbour_chunks(x as int, y as int, z as int).contains(
            (((x as int) / 16 + 1) as i32, ((y as int) / 16) as i32, ((z as int) / 16) as i32),
        ) <==> (x as int) % 16 == 15,
        block_neighbour_chunks(x as int, y as int, z as int).contains(
            (((x as int) / 16) as i32, ((y as int) / 16 - 1) as i32, ((z as int) / 16) as i32),
        ) <==> (y as int) % 16 == 0,
        block_neighbour_chunks(x as int, y as int, z as int).contains(
            (((x as int) / 16) as i32, ((y as int) / 16 + 1) as i32, ((z as int) / 16) as i32),
        ) <==> (y as int) % 16 == 15,
        block_neighbour_chunks(x as int, y as int, z as int).contains(
            (((x as int) / 16) as i32, ((y as int) / 16) as i32, ((z as int) / 16 - 1) as i32),
        ) <==> (z as int) % 16 == 0,
        block_neighbour_chunks(x as int, y as int, z as int).contains(
            (((x as int) / 16) as i32, ((y as int) / 16) as i32, ((z as int) / 16 + 1) as i32),
        ) <==> (z as int) % 16 == 15,
        block_neighbour_chunks(x as int, y as int, z as int).len() == (if (x as int) % 16 == 0 || (x as int) % 16 == 15 {
            1int
        } else {
            0
        }) + (if (y as int) % 16 == 0 || (y as int) % 16 == 15 {
            1int
        } else {
            0
        }) + (if (z as int) % 16 == 0 || (z as int) % 16 == 15 {
            1int
        } else {
            0
        }),
{
    let r = block_neighbour_chunks(x as int, y as int, z as int);
    let (cx, cy, cz) = ((x as int) / 16, (y as int) / 16, (z as int) / 16);
    let (lx, ly, lz) = ((x as int) % 16, (y as int) % 16, (z as int) % 16);
    let ax: Seq<ChunkPos> = if lx == 0 {
        seq![as_key((cx - 1, cy, cz))]
    } else if lx == 15 {
        seq![as_key((cx + 1, cy, cz))]
    } else {
        Seq::empty()
    };
    let ay: Seq<ChunkPos> = if ly == 0 {
        seq![as_key((cx, cy - 1, cz))]
    } else if ly == 15 {
        seq![as_key((cx, cy + 1, cz))]
    } else {
        Seq::empty()
    };
    let az: Seq<ChunkPos> = if lz == 0 {
        seq![as_key((cx, cy, cz - 1))]
    } else if lz == 15 {
        seq![as_key((cx, cy, cz + 1))]
    } else {
        Seq::empty()
    };
    assert(r == ax + ay + az);
    // The chunk coordinates stay far inside `i32`, so the casts keep them.
    assert(-134217728 <= cx < 134217728 && -134217728 <= cy < 134217728 && -134217728 <= cz < 134217728);
    assert forall|i: int| 0 <= i < r.len() implies {
        ||| (lx == 0 && r[i] == as_key((cx - 1, cy, cz)))
        ||| (lx == 15 && r[i] == as_key((cx + 1, cy, cz)))
        ||| (ly == 0 && r[i] == as_key((cx, cy - 1, cz)))
        ||| (ly == 15 && r[i] == as_key((cx, cy + 1, cz)))
        ||| (lz == 0 && r[i] == as_key((cx, cy, cz - 1)))
        ||| (lz == 15 && r[i] == as_key((cx, cy, cz + 1)))
    } by {
        if i < ax.len() {
            assert(r[i] == ax[i]);
        } else if i < ax.len() + ay.len() {
            assert(r[i] == ay[i - ax.len()]);
        } else {
            assert(r[i] == az[i - ax.len() - ay.len()]);
        }
    }
    if lx == 0 {
        assert(r[0] == as_key((cx - 1, cy, cz)));
    }
    if lx == 15 {
        assert(r[0] == as_key((cx + 1, cy, cz)));
    }
    if ly == 0 {
        assert(r[ax.len() as int] == as_key((cx, cy - 1, cz)));
    }
    if ly == 15 {
        assert(r[ax.len() as int] == as_key((cx, cy + 1, cz)));
    }
    if lz == 0 {
        assert(r[(ax.len() + ay.len()) as int] == as_key((cx, cy, cz - 1)));
    }
    if lz == 15 {
        assert(r[(ax.len() + ay.len()) as int] == as_key((cx, cy, cz + 1)));
    }
}

/// Squared distance, in blocks, from the block `p` to the lowest corner of chunk `k`.
fn distance_sq(k: ChunkPos, p: (i32, i32, i32)) -> (r: i32)
    requires
        distance_fits(k, p),
    ensures
        r == block_distance_sq(k, p),
{
    let x = k.0 * 16 - p.0;
    let y = k.1 * 16 - p.1;
    let z = k.2 * 16 - p.2;
    proof {
        assert(0 <= x * x && 0 <= y * y && 0 <= z * z) by (nonlinear_arith);
    }
    x * x + y * y + z * z
}

impl World {
    /// Loaded chunks by their coordinates.
    pub open spec fn table(&self) -> Map<ChunkPos, ChunkData> {
        slots_map(self.chunks@)
    }

    pub open spec fn wf(&self) -> bool {
        &&& keys_unique(self.chunks@)
        &&& forall|i: int| 0 <= i < self.chunks@.len() ==> (#[trigger] self.chunks@[i]).data.chunk.wf()
        &&& no_duplicates(self.waiting_to_mesh@)
        &&& no_duplicates(self.ready_to_mesh@)
    }

    /// A world with no chunk loaded.
    pub fn new(seed: u32) -> (w: World)
        ensures
            w.wf(),
            w.seed == seed,
            w.table() == Map::<ChunkPos, ChunkData>::empty(),
            w.waiting_to_mesh@.len() == 0,
            w.ready_to_mesh@.len() == 0,
    {
        let w = World { seed, chunks: Vec::new(), waiting_to_mesh: Vec::new(), ready_to_mesh: Vec::new() };
        proof {
            assert(w.table() =~= Map::<ChunkPos, ChunkData>::empty());
        }
        w
    }

    /// The slot of `key`, if loaded.
    fn find(&self, key: ChunkPos) -> (r: Option<usize>)
        ensures
            match r {
                Some(i) => i < self.chunks@.len() && self.chunks@[i as int].key == key,
                None => !slots_have(self.chunks@, key),
            },
    {
        find_slot(&self.chunks, key)
    }

    /// Whether the chunk `key` is loaded.
    pub fn contains_chunk(&self, key: ChunkPos) -> (r: bool)
        ensures
            r == self.table().dom().contains(key),
    {
        self.find(key).is_some()
    }

    /// The data of chunk `(cx, cy, cz)`, if loaded.
    pub fn get_chunk_data(&self, cx: i32, cy: i32, cz: i32) -> (r: Option<&ChunkData>)
        requires
            self.wf(),
        ensures
            r is Some <==> self.table().dom().contains((cx, cy, cz)),
            r matches Some(d) ==> *d == self.table()[(cx, cy, cz)],
    {
        match self.find((cx, cy, cz)) {
            Some(i) => {
                proof {
                    lemma_slot_is_entry(self.chunks@, i as int);
                }
                Some(&self.chunks[i].data)
            },
            None => None,
        }
    }

    /// The chunk `(cx, cy, cz)`, if loaded.
    pub fn get_chunk(&self, cx: i32, cy: i32, cz: i32) -> (r: Option<&Chunk>)
        requires
            self.wf(),
        ensures
            r is Some <==> self.table().dom().contains((cx, cy, cz)),
            r matches Some(c) ==> *c == self.table()[(cx, cy, cz)].chunk,
    {
        match self.get_chunk_data(cx, cy, cz) {
            Some(d) => Some(&d.chunk),
            None => None,
        }
    }

    /// Whether the chunks around the player must be refreshed (those out of
    /// range unloaded, the missing ones asked for): the player is in another
    /// chunk than at the last refresh (`previous`, none before the first),
    /// or no chunk is loaded.
    pub fn needs_refresh(&self, previous: Option<ChunkPos>, current: ChunkPos) -> (r: bool)
        ensures
            r == (previous != Some(current) || self.chunks@.len() == 0),
    {
        let moved = match previous {
            Some(p) => !same_key(p, current),
            None => true,
        };
        moved || self.is_empty()
    }

    /// Whether no chunk is loaded.
    pub fn is_empty(&self) -> (r: bool)
        ensures
            r == (self.chunks@.len() == 0),
            r ==> self.table().dom() == Set::<ChunkPos>::empty(),
    {
        proof {
            if self.chunks@.len() == 0 {
                assert(self.table().dom() =~= Set::<ChunkPos>::empty());
            }
        }
        self.chunks.len() == 0
    }

    /// Loads `data` under `key`, replacing the chunk loaded there.
    fn insert_chunk(&mut self, key: ChunkPos, data: ChunkData)
        requires
            old(self).wf(),
            data.chunk.wf(),
        ensures
            final(self).wf(),
            final(self).table() == old(self).table().insert(key, data),
            final(self).seed == old(self).seed,
            final(self).waiting_to_mesh@ == old(self).waiting_to_mesh@,
            final(self).ready_to_mesh@ == old(self).ready_to_mesh@,
    {
        let ghost before = self.chunks@;
        match self.find(key) {
            Some(i) => {
                self.chunks.set(i, ChunkSlot { key, data });
                proof {
                    lemma_update_slot(before, i as int, ChunkSlot { key, data });
                }
            },
            None => {
                self.chunks.push(ChunkSlot { key, data });
                proof {
                    lemma_push_slot(before, ChunkSlot { key, data });
                }
            },
        }
    }

    /// Loads `chunk` at `(cx, cy, cz)` as a freshly generated chunk.
    pub fn set_chunk(&mut self, cx: i32, cy: i32, cz: i32, chunk: Chunk)
        requires
            old(self).wf(),
            chunk.wf(),
        ensures
            final(self).wf(),
            final(self).table() == old(self).table().insert(
                (cx, cy, cz),
                ChunkData { chunk, state: ChunkState::Ready, is_dirty: true },
            ),
            final(self).waiting_to_mesh@ == old(self).waiting_to_mesh@,
            final(self).ready_to_mesh@ == old(self).ready_to_mesh@,
    {
        self.insert_chunk((cx, cy, cz), ChunkData::new(chunk));
    }

    /// Every loaded chunk holds one block per position.
    pub proof fn lemma_table_wf(&self, k: ChunkPos)
        requires
            self.wf(),
            self.table().dom().contains(k),
        ensures
            self.table()[k].chunk.wf(),
    {
        let j = choose|j: int| 0 <= j < self.chunks@.len() && (#[trigger] self.chunks@[j]).key == k;
        lemma_slot_is_entry(self.chunks@, j);
    }

    /// The block at world coordinates `(x, y, z)`; air where no chunk is loaded.
    pub fn get_block_from_xyz(&self, x: i32, y: i32, z: i32) -> (b: BlockInstance)
        requires
            self.wf(),
        ensures
            b == block_in(self.table(), x as int, y as int, z as int),
    {
        let (cx, cy, cz) = chunk_coords_from_block(x, y, z);
        let (lx, ly, lz) = local_block_coords(x, y, z);
        match self.get_chunk_data(cx, cy, cz) {
            Some(data) => {
                proof {
                    self.lemma_table_wf((cx, cy, cz));
                }
                data.chunk.get_block_from_xyz(lx, ly, lz)
            },
            None => BlockInstance::air(),
        }
    }

    /// Whether a body cannot enter the block at `(x, y, z)`: a solid block,
    /// or any block of a chunk not loaded yet.
    pub fn is_block_solid(&self, x: i32, y: i32, z: i32) -> (r: bool)
        requires
            self.wf(),
        ensures
            r == (!self.table().dom().contains(as_key(chunk_of_block(x as int, y as int, z as int)))
                || block_in(self.table(), x as int, y as int, z as int).spec_is_solid()),
    {
        let key = chunk_coords_from_block(x, y, z);
        if !self.contains_chunk(key) {
            return true;
        }
        self.get_block_from_xyz(x, y, z).is_solid()
    }

    /// The block at coordinates `(lx, ly, lz)` of chunk `(cx, cy, cz)`;
    /// coordinates outside the chunk reach the block of the world there.
    pub fn get_local_block_from_xyz(&self, lx: i32, ly: i32, lz: i32, cx: i32, cy: i32, cz: i32) -> (b: BlockInstance)
        requires
            self.wf(),
            !in_chunk(lx as int, ly as int, lz as int) ==> {
                &&& i32::MIN <= cx * 16 <= i32::MAX
                &&& i32::MIN <= cy * 16 <= i32::MAX
                &&& i32::MIN <= cz * 16 <= i32::MAX
                &&& i32::MIN <= lx + cx * 16 <= i32::MAX
                &&& i32::MIN <= ly + cy * 16 <= i32::MAX
                &&& i32::MIN <= lz + cz * 16 <= i32::MAX
            },
        ensures
            b == if in_chunk(lx as int, ly as int, lz as int) {
                if self.table().dom().contains((cx, cy, cz)) {
                    self.table()[(cx, cy, cz)].chunk.block_at(lx as int, ly as int, lz as int)
                } else {
                    BlockInstance { id: AIR_BLOCK_ID }
                }
            } else {
                block_in(self.table(), lx + cx * 16, ly + cy * 16, lz + cz * 16)
            },
    {
        if !(0 <= lx && lx < 16) || !(0 <= ly && ly < 16) || !(0 <= lz && lz < 16) {
            return self.get_block_from_xyz(lx + cx * 16, ly + cy * 16, lz + cz * 16);
        }
        match self.get_chunk_data(cx, cy, cz) {
            Some(data) => {
                proof {
                    self.lemma_table_wf((cx, cy, cz));
                }
                data.chunk.get_block_from_xyz(lx, ly, lz)
            },
            None => BlockInstance::air(),
        }
    }

    /// Whether all six direct neighbours of chunk `(cx, cy, cz)` are loaded
    /// and ready; a missing neighbour holds the chunk back, so that no face
    /// is drawn against a chunk not generated yet.
    pub fn are_all_neighbors_ready(&self, cx: i32, cy: i32, cz: i32) -> (r: bool)
        requires
            self.wf(),
            neighbours_in_range((cx, cy, cz)),
        ensures
            r == neighbours_ready(self.table(), (cx, cy, cz)),
    {
        let normals: [ChunkPos; 6] = [(-1, 0, 0), (1, 0, 0), (0, -1, 0), (0, 1, 0), (0, 0, -1), (0, 0, 1)];
        let mut k: usize = 0;
        while k < 6
            invariant
                k <= 6,
                self.wf(),
                neighbours_in_range((cx, cy, cz)),
                normals@ == direct_normals(),
                forall|j: int| 0 <= j < k ==> #[trigger] ready_at(self.table(), shifted_key((cx, cy, cz), direct_normals()[j])),
            decreases 6 - k,
        {
            let (dx, dy, dz) = normals[k];
            proof {
                assert(normals@[k as int] == direct_normals()[k as int]);
            }
            let ghost n = shifted_key((cx, cy, cz), direct_normals()[k as int]);
            match self.get_chunk_data(cx + dx, cy + dy, cz + dz) {
                Some(neighbor) => {
                    if neighbor.state != ChunkState::Ready {
                        proof {
                            assert(as_key(n) == ((cx + dx) as i32, (cy + dy) as i32, (cz + dz) as i32));
                            assert(!ready_at(self.table(), n));
                        }
                        return false;
                    }
                    proof {
                        assert(as_key(n) == ((cx + dx) as i32, (cy + dy) as i32, (cz + dz) as i32));
                    }
                },
                None => {
                    proof {
                        assert(as_key(n) == ((cx + dx) as i32, (cy + dy) as i32, (cz + dz) as i32));
                        assert(!ready_at(self.table(), n));
                    }
                    return false;
                },
            }
            k = k + 1;
        }
        true
    }

    /// The state of chunk `cpos` and whether it must be meshed again, if loaded.
    pub fn chunk_infos_at(&self, cpos: &ChunkPos) -> (r: Option<(ChunkState, bool)>)
        requires
            self.wf(),
        ensures
            r is Some <==> self.table().dom().contains(*cpos),
            r matches Some(info) ==> info == (self.table()[*cpos].state, self.table()[*cpos].is_dirty),
    {
        match self.get_chunk_data(cpos.0, cpos.1, cpos.2) {
            Some(data) => Some((data.state, data.is_dirty)),
            None => None,
        }
    }

    /// Replaces the block at world coordinates `(x, y, z)`, when its chunk is
    /// loaded and holds another block there; the chunk, then each loaded
    /// chunk whose mesh reads that block, is queued to be meshed again.
    /// Tells whether the block changed.
    #[verifier::spinoff_prover]
    #[verifier::rlimit(30)]
    pub fn set_block(&mut self, x: i32, y: i32, z: i32, block: BlockInstance) -> (r: bool)
        requires
            old(self).wf(),
        ensures
            final(self).wf(),
            final(self).seed == old(self).seed,
            final(self).waiting_to_mesh@ == old(self).waiting_to_mesh@,
            block_written(old(self).table(), final(self).table(), x as int, y as int, z as int, block, r),
            r ==> final(self).ready_to_mesh@ == push_loaded(
                push_unique(old(self).ready_to_mesh@, as_key(chunk_of_block(x as int, y as int, z as int))),
                block_neighbour_chunks(x as int, y as int, z as int),
                old(self).table(),
            ),
            !r ==> final(self).ready_to_mesh@ == old(self).ready_to_mesh@,
    {
        let key = chunk_coords_from_block(x, y, z);
        let (lx, ly, lz) = local_block_coords(x, y, z);
        let i = match self.find(key) {
            Some(i) => i,
            None => {
                return false;
            },
        };
        proof {
            lemma_slot_is_entry(self.chunks@, i as int);
        }
        let current = self.chunks[i].data.chunk.get_block_from_xyz(lx, ly, lz);
        if current == block {
            return false;
        }
        let ghost t = self.table();
        let ghost before = self.chunks@;
        let slot = self.chunks.remove(i);
        let ChunkSlot { key: slot_key, data } = slot;
        let ChunkData { chunk, state, is_dirty } = data;
        let mut chunk = chunk;
        chunk.set_block_from_xyz(lx, ly, lz, block);
        let new_slot = ChunkSlot { key: slot_key, data: ChunkData { chunk, state, is_dirty } };
        self.chunks.insert(i, new_slot);
        proof {
            assert(self.chunks@ =~= before.update(i as int, new_slot));
            lemma_update_slot(before, i as int, new_slot);
            assert forall|j: int| 0 <= j < self.chunks@.len() implies (#[trigger] self.chunks@[j]).data.chunk.wf() by {
                if j != i {
                    assert(self.chunks@[j] == before[j]);
                }
            }
        }
        push_unique_exec(&mut self.ready_to_mesh, key);
        let neighbours = neighbors_from_block_pos(x, y, z);
        let ghost queued = self.ready_to_mesh@;
        let mut j: usize = 0;
        proof {
            assert(neighbours@.take(0) =~= Seq::<ChunkPos>::empty());
        }
        while j < neighbours.len()
            invariant
                j <= neighbours@.len(),
                self.wf(),
                self.table() == t.insert(key, new_slot.data),
                t.dom().contains(key),
                self.seed == old(self).seed,
                self.waiting_to_mesh@ == old(self).waiting_to_mesh@,
                self.ready_to_mesh@ == push_loaded(queued, neighbours@.take(j as int), t),
            decreases neighbours@.len() - j,
        {
            let n = neighbours[j];
            proof {
                assert(neighbours@.take(j + 1).drop_last() =~= neighbours@.take(j as int));
                assert(self.table().dom().contains(n) == t.dom().contains(n));
            }
            if self.contains_chunk(n) {
                push_unique_exec(&mut self.ready_to_mesh, n);
            }
            j = j + 1;
        }
        proof {
            assert(neighbours@.take(neighbours@.len() as int) =~= neighbours@);
            assert(self.table().dom() =~= t.dom());
        }
        true
    }

    /// Takes in a chunk the generator made, unless a chunk is already
    /// loaded there: it is loaded as not needing a new mesh and waits for
    /// its neighbours before it is meshed.
    pub fn add_generated_chunk(&mut self, cx: i32, cy: i32, cz: i32, data: ChunkData)
        requires
            old(self).wf(),
            data.chunk.wf(),
        ensures
            final(self).wf(),
            final(self).seed == old(self).seed,
            final(self).ready_to_mesh@ == old(self).ready_to_mesh@,
            old(self).table().dom().contains((cx, cy, cz)) ==> final(self).table() == old(self).table()
                && final(self).waiting_to_mesh@ == old(self).waiting_to_mesh@,
            !old(self).table().dom().contains((cx, cy, cz)) ==> final(self).table() == old(self).table().insert(
                (cx, cy, cz),
                ChunkData { is_dirty: false, ..data },
            ) && final(self).waiting_to_mesh@ == push_unique(old(self).waiting_to_mesh@, (cx, cy, cz)),
    {
        let key = (cx, cy, cz);
        if self.contains_chunk(key) {
            return;
        }
        let mut data = data;
        data.is_dirty = false;
        self.insert_chunk(key, data);
        push_unique_exec(&mut self.waiting_to_mesh, key);
    }

    /// Moves the chunks waiting to be meshed whose six neighbours are all
    /// ready to the chunks ready to be meshed, in order; the others keep
    /// waiting.
    pub fn submit_to_mesh(&mut self)
        requires
            old(self).wf(),
            forall|i: int| 0 <= i < old(self).waiting_to_mesh@.len() ==> neighbours_in_range(#[trigger] old(self).waiting_to_mesh@[i]),
        ensures
            final(self).wf(),
            final(self).seed == old(self).seed,
            final(self).table() == old(self).table(),
            final(self).waiting_to_mesh@ == still_waiting(old(self).waiting_to_mesh@, old(self).table()),
            final(self).ready_to_mesh@ == push_all(old(self).ready_to_mesh@, ready_keys(old(self).waiting_to_mesh@, old(self).table())),
    {
        if self.waiting_to_mesh.len() == 0 {
            return;
        }
        let ghost w = self.waiting_to_mesh@;
        let ghost r0 = self.ready_to_mesh@;
        let mut waiting: Vec<ChunkPos> = Vec::new();
        std::mem::swap(&mut waiting, &mut self.waiting_to_mesh);
        let mut kept: Vec<ChunkPos> = Vec::new();
        let mut i: usize = 0;
        proof {
            assert(w.take(0) =~= Seq::<ChunkPos>::empty());
        }
        while i < waiting.len()
            invariant
                i <= waiting@.len(),
                waiting@ == w,
                keys_unique(self.chunks@),
                forall|j: int| 0 <= j < self.chunks@.len() ==> (#[trigger] self.chunks@[j]).data.chunk.wf(),
                no_duplicates(w),
                no_duplicates(self.ready_to_mesh@),
                self.table() == old(self).table(),
                self.seed == old(self).seed,
                self.waiting_to_mesh@.len() == 0,
                forall|j: int| 0 <= j < w.len() ==> neighbours_in_range(#[trigger] w[j]),
                kept@ == still_waiting(w.take(i as int), old(self).table()),
                self.ready_to_mesh@ == push_all(r0, ready_keys(w.take(i as int), old(self).table())),
            decreases waiting@.len() - i,
        {
            let key = waiting[i];
            proof {
                assert(w.take(i + 1).drop_last() =~= w.take(i as int));
                assert(w.take(i + 1).last() == key);
            }
            let ghost before_ready = ready_keys(w.take(i as int), old(self).table());
            if self.are_all_neighbors_ready(key.0, key.1, key.2) {
                push_unique_exec(&mut self.ready_to_mesh, key);
                proof {
                    let after = ready_keys(w.take(i + 1), old(self).table());
                    assert(after == before_ready.push(key));
                    assert(after.drop_last() =~= before_ready);
                }
            } else {
                kept.push(key);
            }
            i = i + 1;
        }
        proof {
            assert(w.take(w.len() as int) =~= w);
            lemma_still_waiting_unique(w, old(self).table());
        }
        self.waiting_to_mesh = kept;
    }

    /// Loads a chunk sent by the server at `(cx, cy, cz)`, replacing the
    /// chunk there, and queues it, then each of its direct neighbours that is
    /// loaded, to be meshed. The bytes hold its blocks as bincode writes a
    /// list of block ids.
    pub fn apply_remote_chunk(&mut self, cx: i32, cy: i32, cz: i32, data: &[u8])
        requires
            old(self).wf(),
            neighbours_in_range((cx, cy, cz)),
            decoded_blocks(data@) matches Some(blocks) && blocks.len() == 4096,
        ensures
            remote_loaded(*old(self), *final(self), cx, cy, cz, decoded_blocks(data@)->0),
    {
        let blocks = match decode_chunk_blocks(data) {
            Some(b) => b,
            None => {
                return;
            },
        };
        self.load_remote_blocks(cx, cy, cz, blocks);
    }

    /// Loads the chunk the server sent at `(cx, cy, cz)` when its bytes
    /// hold a whole chunk of blocks, as `apply_remote_chunk` does, and says
    /// whether they did; otherwise nothing changes.
    pub fn try_apply_remote_chunk(&mut self, cx: i32, cy: i32, cz: i32, data: &[u8]) -> (r: bool)
        requires
            old(self).wf(),
            neighbours_in_range((cx, cy, cz)),
        ensures
            r == (decoded_blocks(data@) matches Some(blocks) && blocks.len() == 4096),
            r ==> remote_loaded(*old(self), *final(self), cx, cy, cz, decoded_blocks(data@)->0),
            !r ==> *final(self) == *old(self),
    {
        match decode_chunk_blocks(data) {
            Some(b) => {
                if b.len() == 4096 {
                    self.load_remote_blocks(cx, cy, cz, b);
                    true
                } else {
                    false
                }
            },
            None => false,
        }
    }

    /// Loads the chunk of blocks `blocks` at `(cx, cy, cz)` and queues it and
    /// its loaded neighbours to be meshed.
    fn load_remote_blocks(&mut self, cx: i32, cy: i32, cz: i32, blocks: Vec<BlockInstance>)
        requires
            old(self).wf(),
            neighbours_in_range((cx, cy, cz)),
            blocks@.len() == 4096,
        ensures
            remote_loaded(*old(self), *final(self), cx, cy, cz, blocks@),
    {
        let key = (cx, cy, cz);
        let chunk = Chunk { blocks, x: cx, y: cy, z: cz };
        let ghost t = self.table();
        let chunk_data = ChunkData::new(chunk);
        let ghost new_data = chunk_data;
        self.insert_chunk(key, chunk_data);
        push_unique_exec(&mut self.ready_to_mesh, key);
        let ghost queued = self.ready_to_mesh@;
        let normals: [ChunkPos; 6] = [(-1, 0, 0), (1, 0, 0), (0, -1, 0), (0, 1, 0), (0, 0, -1), (0, 0, 1)];
        let ghost keys = neighbour_keys(key);
        let mut j: usize = 0;
        proof {
            assert(keys.take(0) =~= Seq::<ChunkPos>::empty());
        }
        while j < 6
            invariant
                j <= 6,
                self.wf(),
                normals@ == direct_normals(),
                key == (cx, cy, cz),
                neighbours_in_range(key),
                keys == neighbour_keys(key),
                self.table() == t.insert(key, new_data),
                self.seed == old(self).seed,
                self.waiting_to_mesh@ == old(self).waiting_to_mesh@,
                self.ready_to_mesh@ == push_loaded(queued, keys.take(j as int), t),
            decreases 6 - j,
        {
            let (dx, dy, dz) = normals[j];
            proof {
                assert(normals@[j as int] == direct_normals()[j as int]);
            }
            let n = (cx + dx, cy + dy, cz + dz);
            proof {
                assert(keys[j as int] == n);
                assert(keys.take(j + 1).drop_last() =~= keys.take(j as int));
                assert(keys.take(j + 1).last() == n);
                assert(n != key);
                assert(self.table().dom().contains(n) == t.dom().contains(n));
            }
            if self.contains_chunk(n) {
                push_unique_exec(&mut self.ready_to_mesh, n);
            }
            j = j + 1;
        }
        proof {
            assert(keys.take(6) =~= keys);
            assert(self.table().dom() =~= t.dom().insert(key));
        }
    }

    /// The chunks ready to be meshed, in the order they became ready.
    pub fn ready_to_mesh(&self) -> (r: &Vec<ChunkPos>)
        ensures
            r@ == self.ready_to_mesh@,
    {
        &self.ready_to_mesh
    }

    /// Hands over the chunks ready to be meshed, leaving none.
    pub fn take_ready_to_mesh(&mut self) -> (r: Vec<ChunkPos>)
        requires
            old(self).wf(),
        ensures
            final(self).wf(),
            r@ == old(self).ready_to_mesh@,
            no_duplicates(r@),
            final(self).ready_to_mesh@.len() == 0,
            final(self).table() == old(self).table(),
            final(self).waiting_to_mesh@ == old(self).waiting_to_mesh@,
            final(self).seed == old(self).seed,
    {
        let mut taken: Vec<ChunkPos> = Vec::new();
        std::mem::swap(&mut taken, &mut self.ready_to_mesh);
        taken
    }

    /// Replaces the queue of chunks ready to be meshed by `queue`, whose
    /// chunks each appear once.
    pub fn set_ready_to_mesh(&mut self, queue: Vec<ChunkPos>)
        requires
            old(self).wf(),
            no_duplicates(queue@),
        ensures
            final(self).wf(),
            final(self).ready_to_mesh@ == queue@,
            final(self).table() == old(self).table(),
            final(self).waiting_to_mesh@ == old(self).waiting_to_mesh@,
            final(self).seed == old(self).seed,
    {
        self.ready_to_mesh = queue;
    }

    /// Whether the chunk `(cx, cy, cz)` is loaded and needs a new mesh.
    pub fn is_dirty_at(&self, cx: i32, cy: i32, cz: i32) -> (r: bool)
        requires
            self.wf(),
        ensures
            r == (self.table().dom().contains((cx, cy, cz)) && self.table()[(cx, cy, cz)].is_dirty),
    {
        match self.get_chunk_data(cx, cy, cz) {
            Some(d) => d.is_dirty,
            None => false,
        }
    }

    /// The chunk `(cx, cy, cz)` when loaded.
    fn neighbour_chunk(&self, cx: i32, cy: i32, cz: i32) -> (r: Option<&Chunk>)
        requires
            self.wf(),
        ensures
            snapshot_side(self.table(), r, cx, cy, cz),
    {
        proof {
            if self.table().dom().contains((cx, cy, cz)) {
                self.lemma_table_wf((cx, cy, cz));
            }
        }
        self.get_chunk(cx, cy, cz)
    }

    /// The chunk `(cx, cy, cz)` and those of its direct neighbours that are
    /// loaded, for meshing it.
    pub fn get_mesh_snapshot(&self, cx: i32, cy: i32, cz: i32) -> (r: MeshSnapshot)
        requires
            self.wf(),
            self.table().dom().contains((cx, cy, cz)),
            neighbours_in_range((cx, cy, cz)),
        ensures
            *r.main == self.table()[(cx, cy, cz)].chunk,
            r.main.wf(),
            snapshot_side(self.table(), r.neg_x, (cx - 1) as i32, cy, cz),
            snapshot_side(self.table(), r.pos_x, (cx + 1) as i32, cy, cz),
            snapshot_side(self.table(), r.neg_y, cx, (cy - 1) as i32, cz),
            snapshot_side(self.table(), r.pos_y, cx, (cy + 1) as i32, cz),
            snapshot_side(self.table(), r.neg_z, cx, cy, (cz - 1) as i32),
            snapshot_side(self.table(), r.pos_z, cx, cy, (cz + 1) as i32),
    {
        proof {
            self.lemma_table_wf((cx, cy, cz));
        }
        let main = self.get_chunk(cx, cy, cz).unwrap();
        MeshSnapshot {
            main,
            neg_x: self.neighbour_chunk(cx - 1, cy, cz),
            neg_y: self.neighbour_chunk(cx, cy - 1, cz),
            neg_z: self.neighbour_chunk(cx, cy, cz - 1),
            pos_x: self.neighbour_chunk(cx + 1, cy, cz),
            pos_y: self.neighbour_chunk(cx, cy + 1, cz),
            pos_z: self.neighbour_chunk(cx, cy, cz + 1),
        }
    }

    /// Sets the state and dirtiness of the loaded chunk in slot `i`.
    fn set_flags_at(&mut self, i: usize, state: ChunkState, is_dirty: bool)
        requires
            old(self).wf(),
            i < old(self).chunks@.len(),
        ensures
            final(self).wf(),
            final(self).table() == old(self).table().insert(
                old(self).chunks@[i as int].key,
                ChunkData { state, is_dirty, ..old(self).chunks@[i as int].data },
            ),
            final(self).seed == old(self).seed,
            final(self).waiting_to_mesh@ == old(self).waiting_to_mesh@,
            final(self).ready_to_mesh@ == old(self).ready_to_mesh@,
    {
        let ghost before = self.chunks@;
        let slot = self.chunks.remove(i);
        let ChunkSlot { key, data } = slot;
        let ChunkData { chunk, state: _, is_dirty: _ } = data;
        let new_slot = ChunkSlot { key, data: ChunkData { chunk, state, is_dirty } };
        self.chunks.insert(i, new_slot);
        proof {
            assert(self.chunks@ =~= before.update(i as int, new_slot));
            lemma_update_slot(before, i as int, new_slot);
            assert forall|j: int| 0 <= j < self.chunks@.len() implies (#[trigger] self.chunks@[j]).data.chunk.wf() by {
                if j != i {
                    assert(self.chunks@[j] == before[j]);
                }
            }
        }
    }

    /// Marks the loaded chunk `(cx, cy, cz)` as meshed: ready, and no longer
    /// in need of a new mesh when `clean`.
    pub fn set_chunk_state(&mut self, cx: i32, cy: i32, cz: i32, state: ChunkState)
        requires
            old(self).wf(),
        ensures
            final(self).wf(),
            final(self).table() == if old(self).table().dom().contains((cx, cy, cz)) {
                old(self).table().insert((cx, cy, cz), ChunkData { state, ..old(self).table()[(cx, cy, cz)] })
            } else {
                old(self).table()
            },
            final(self).seed == old(self).seed,
            final(self).waiting_to_mesh@ == old(self).waiting_to_mesh@,
            final(self).ready_to_mesh@ == old(self).ready_to_mesh@,
    {
        match self.find((cx, cy, cz)) {
            Some(i) => {
                proof {
                    lemma_slot_is_entry(self.chunks@, i as int);
                }
                let is_dirty = self.chunks[i].data.is_dirty;
                self.set_flags_at(i, state, is_dirty);
            },
            None => {},
        }
    }

    /// Marks the loaded chunk `cpos` as needing a new mesh, unless it is
    /// still pending.
    pub fn set_chunk_dirty(&mut self, cpos: &ChunkPos)
        requires
            old(self).wf(),
        ensures
            final(self).wf(),
            final(self).table() == if old(self).table().dom().contains(*cpos) {
                let d = old(self).table()[*cpos];
                old(self).table().insert(*cpos, ChunkData { is_dirty: d.is_dirty || d.state == ChunkState::Ready, ..d })
            } else {
                old(self).table()
            },
            final(self).seed == old(self).seed,
            final(self).waiting_to_mesh@ == old(self).waiting_to_mesh@,
            final(self).ready_to_mesh@ == old(self).ready_to_mesh@,
    {
        match self.find(*cpos) {
            Some(i) => {
                proof {
                    lemma_slot_is_entry(self.chunks@, i as int);
                }
                let state = self.chunks[i].data.state;
                let dirty = self.chunks[i].data.is_dirty || state == ChunkState::Ready;
                self.set_flags_at(i, state, dirty);
            },
            None => {},
        }
    }

    /// Marks the loaded chunk `(cx, cy, cz)` as no longer in need of a new mesh.
    pub fn mark_chunk_clean(&mut self, cx: i32, cy: i32, cz: i32)
        requires
            old(self).wf(),
        ensures
            final(self).wf(),
            final(self).table() == if old(self).table().dom().contains((cx, cy, cz)) {
                old(self).table().insert((cx, cy, cz), ChunkData { is_dirty: false, ..old(self).table()[(cx, cy, cz)] })
            } else {
                old(self).table()
            },
            final(self).seed == old(self).seed,
            final(self).waiting_to_mesh@ == old(self).waiting_to_mesh@,
            final(self).ready_to_mesh@ == old(self).ready_to_mesh@,
    {
        match self.find((cx, cy, cz)) {
            Some(i) => {
                proof {
                    lemma_slot_is_entry(self.chunks@, i as int);
                }
                let state = self.chunks[i].data.state;
                self.set_flags_at(i, state, false);
            },
            None => {},
        }
    }

    /// The coordinates of the loaded chunks that need a new mesh, in the
    /// order they are stored.
    pub fn get_dirty_chunks(&self) -> (r: Vec<ChunkPos>)
        requires
            self.wf(),
        ensures
            forall|k: ChunkPos| r@.contains(k) <==> self.table().dom().contains(k) && self.table()[k].is_dirty,
            no_duplicates(r@),
    {
        let mut r: Vec<ChunkPos> = Vec::new();
        let mut i: usize = 0;
        while i < self.chunks.len()
            invariant
                i <= self.chunks@.len(),
                self.wf(),
                no_duplicates(r@),
                forall|k: ChunkPos| r@.contains(k) <==> exists|j: int| 0 <= j < i && (#[trigger] self.chunks@[j]).key == k && self.chunks@[j].data.is_dirty,
            decreases self.chunks@.len() - i,
        {
            if self.chunks[i].data.is_dirty {
                let ghost r0 = r@;
                let k = self.chunks[i].key;
                proof {
                    assert(!r0.contains(k)) by {
                        if r0.contains(k) {
                            let j = choose|j: int| 0 <= j < i && (#[trigger] self.chunks@[j]).key == k && self.chunks@[j].data.is_dirty;
                            assert(self.chunks@[j].key != self.chunks@[i as int].key);
                        }
                    }
                }
                r.push(k);
                proof {
                    assert forall|a: int, b: int| 0 <= a < b < r@.len() implies #[trigger] r@[a] != #[trigger] r@[b] by {
                        if b == r@.len() - 1 {
                            assert(r0.contains(r@[a]));
                        } else {
                            assert(r0[a] != r0[b]);
                        }
                    }
                    assert forall|kk: ChunkPos| r@.contains(kk) <==> exists|j: int|
                        0 <= j < i + 1 && (#[trigger] self.chunks@[j]).key == kk && self.chunks@[j].data.is_dirty by {
                        if r@.contains(kk) && kk != k {
                            let a = choose|a: int| 0 <= a < r@.len() && r@[a] == kk;
                            assert(r0[a] == kk);
                            assert(r0.contains(kk));
                        }
                        if kk == k {
                            assert(r@[r@.len() - 1] == kk);
                        }
                        if exists|j: int| 0 <= j < i + 1 && (#[trigger] self.chunks@[j]).key == kk && self.chunks@[j].data.is_dirty {
                            let j = choose|j: int| 0 <= j < i + 1 && (#[trigger] self.chunks@[j]).key == kk && self.chunks@[j].data.is_dirty;
                            if j < i {
                                assert(r0.contains(kk));
                                let a = choose|a: int| 0 <= a < r0.len() && r0[a] == kk;
                                assert(r@[a] == kk);
                            }
                        }
                    }
                }
            }
            i = i + 1;
        }
        proof {
            assert forall|k: ChunkPos| r@.contains(k) <==> self.table().dom().contains(k) && self.table()[k].is_dirty by {
                if r@.contains(k) {
                    let j = choose|j: int| 0 <= j < self.chunks@.len() && (#[trigger] self.chunks@[j]).key == k && self.chunks@[j].data.is_dirty;
                    lemma_slot_is_entry(self.chunks@, j);
                }
                if self.table().dom().contains(k) && self.table()[k].is_dirty {
                    let j = choose|j: int| 0 <= j < self.chunks@.len() && (#[trigger] self.chunks@[j]).key == k;
                    lemma_slot_is_entry(self.chunks@, j);
                    assert(self.chunks@[j].data.is_dirty);
                }
            }
        }
        r
    }

    /// Unloads every chunk.
    pub fn dispose(&mut self)
        ensures
            old(self).wf() ==> final(self).wf(),
            final(self).table() == Map::<ChunkPos, ChunkData>::empty(),
            final(self).chunks@.len() == 0,
            final(self).seed == old(self).seed,
            final(self).waiting_to_mesh@ == old(self).waiting_to_mesh@,
            final(self).ready_to_mesh@ == old(self).ready_to_mesh@,
    {
        self.chunks.clear();
        proof {
            assert(self.table() =~= Map::<ChunkPos, ChunkData>::empty());
        }
    }

    /// Unloads the chunks out of range of `center` (squared radii
    /// `radius_h_squared` horizontally, `radius_v_squared` vertically), in
    /// the order they are stored; the mesh of each unloaded chunk is dropped
    /// and, when stored, freed in the buffer manager. What the manager
    /// answers a free does not change what is unloaded.
    pub fn clean_chunks(
        &mut self,
        manager: &mut MeshManager,
        world_mesh: &mut WorldMesh,
        center: ChunkPos,
        radius_h_squared: i32,
        radius_v_squared: i32,
    )
        requires
            old(self).wf(),
            old(manager).wf(),
            old(world_mesh).wf(),
            forall|i: int|
                0 <= i < old(self).chunks@.len() ==> range_test_fits(
                    (#[trigger] old(self).chunks@[i]).key,
                    center,
                    radius_h_squared,
                    radius_v_squared,
                ),
        ensures
            final(self).wf(),
            final(manager).wf(),
            final(world_mesh).wf(),
            final(self).chunks@ == slots_in_range(old(self).chunks@, center, radius_h_squared, radius_v_squared),
            forall|k: ChunkPos| #[trigger] final(self).table().dom().contains(k) == (old(self).table().dom().contains(k)
                && chunk_in_range(k, center, radius_h_squared, radius_v_squared)),
            forall|k: ChunkPos| #[trigger] final(self).table().dom().contains(k) ==> final(self).table()[k] == old(self).table()[k],
            final(self).seed == old(self).seed,
            final(self).waiting_to_mesh@ == old(self).waiting_to_mesh@,
            final(self).ready_to_mesh@ == old(self).ready_to_mesh@,
            ({
                let gone = keys_out_of_range(old(self).chunks@, center, radius_h_squared, radius_v_squared);
                &&& final(world_mesh).mesh_table() == old(world_mesh).mesh_table().remove_keys(gone.to_set())
                &&& freed_in_order(*old(manager), *final(manager), stored_mesh_ids(gone, old(world_mesh).mesh_table()))
            }),
            final(world_mesh).pending@ == old(world_mesh).pending@,
            final(world_mesh).pending_keys@ == old(world_mesh).pending_keys@,
            final(world_mesh).queued@ == old(world_mesh).queued@,
    {
        let ghost o = self.chunks@;
        let n = self.chunks.len();
        let ghost meshes0 = world_mesh.mesh_table();
        let mut rest: Vec<ChunkSlot<ChunkData>> = Vec::new();
        std::mem::swap(&mut rest, &mut self.chunks);
        let ghost mut ms: Seq<MeshManager> = seq![*manager];
        let ghost mut ids: Seq<MeshId> = Seq::empty();
        let mut i: usize = 0;
        proof {
            assert(o.take(0) =~= Seq::<ChunkSlot<ChunkData>>::empty());
            assert(rest@ =~= o.subrange(0, o.len() as int));
            assert(meshes0.remove_keys(Seq::<ChunkPos>::empty().to_set()) =~= meshes0);
        }
        while rest.len() > 0
            invariant
                i <= o.len(),
                n == o.len(),
                rest@ == o.subrange(i as int, o.len() as int),
                keys_unique(o),
                forall|j: int| 0 <= j < o.len() ==> (#[trigger] o[j]).data.chunk.wf(),
                forall|j: int| 0 <= j < o.len() ==> range_test_fits((#[trigger] o[j]).key, center, radius_h_squared, radius_v_squared),
                self.chunks@ == slots_in_range(o.take(i as int), center, radius_h_squared, radius_v_squared),
                forall|j: int| 0 <= j < self.chunks@.len() ==> (#[trigger] self.chunks@[j]).data.chunk.wf(),
                self.seed == old(self).seed,
                self.waiting_to_mesh@ == old(self).waiting_to_mesh@,
                self.ready_to_mesh@ == old(self).ready_to_mesh@,
                no_duplicates(self.waiting_to_mesh@),
                no_duplicates(self.ready_to_mesh@),
                world_mesh.wf(),
                world_mesh.mesh_table() == meshes0.remove_keys(
                    keys_out_of_range(o.take(i as int), center, radius_h_squared, radius_v_squared).to_set(),
                ),
                world_mesh.pending@ == old(world_mesh).pending@,
                world_mesh.pending_keys@ == old(world_mesh).pending_keys@,
                world_mesh.queued@ == old(world_mesh).queued@,
                manager.wf(),
                ids == stored_mesh_ids(keys_out_of_range(o.take(i as int), center, radius_h_squared, radius_v_squared), meshes0),
                ms.len() == ids.len() + 1,
                ms[0] == *old(manager),
                ms[ids.len() as int] == *manager,
                forall|j: int| 0 <= j < ids.len() ==> #[trigger] step_freed(ms, ids, j),
            decreases rest@.len(),
        {
            let slot = rest.remove(0);
            let ghost gone = keys_out_of_range(o.take(i as int), center, radius_h_squared, radius_v_squared);
            proof {
                assert(slot == o[i as int]);
                assert(o.take(i + 1).drop_last() =~= o.take(i as int));
                assert(o.take(i + 1).last() == slot);
                lemma_slots_in_range(o.take(i as int), center, radius_h_squared, radius_v_squared);
            }
            if is_chunk_in_range(&slot.key, &center, radius_h_squared, radius_v_squared) {
                self.chunks.push(slot);
            } else {
                proof {
                    assert(!gone.contains(slot.key)) by {
                        lemma_out_of_range_from(o.take(i as int), center, radius_h_squared, radius_v_squared);
                        if gone.contains(slot.key) {
                            let j = choose|j: int| 0 <= j < i && (#[trigger] o.take(i as int)[j]).key == slot.key;
                            assert(o[j].key != o[i as int].key);
                        }
                    }
                    lemma_remove_keys_push(meshes0, gone, slot.key);
                }
                proof {
                    let g2 = keys_out_of_range(o.take(i + 1), center, radius_h_squared, radius_v_squared);
                    assert(g2 == gone.push(slot.key));
                    assert(g2.drop_last() =~= gone);
                    assert(!gone.to_set().contains(slot.key));
                }
                match world_mesh.remove_mesh(slot.key) {
                    Some(mesh) => {
                        match mesh.id {
                            Some(id) => {
                                let ghost m_before = *manager;
                                let r = manager.free_data(id);
                                proof {
                                    let ms2 = ms.push(*manager);
                                    let ids2 = ids.push(id);
                                    assert(freed(ms2[ids.len() as int], ms2[ids.len() + 1int], ids2[ids.len() as int], r));
                                    assert forall|j: int| 0 <= j < ids2.len() implies #[trigger] step_freed(ms2, ids2, j) by {
                                        if j < ids.len() {
                                            assert(step_freed(ms, ids, j));
                                            assert(ms2[j] == ms[j] && ms2[j + 1] == ms[j + 1] && ids2[j] == ids[j]);
                                        }
                                    }
                                    ms = ms2;
                                    ids = ids2;
                                }
                            },
                            None => {},
                        }
                    },
                    None => {},
                }
            }
            i = i + 1;
        }
        proof {
            assert(o.take(o.len() as int) =~= o);
            lemma_slots_in_range(o, center, radius_h_squared, radius_v_squared);
            assert forall|k: ChunkPos| #[trigger] self.table().dom().contains(k) implies self.table()[k] == old(self).table()[k] by {
            }
        }
    }

    /// The chunks of `needed` not loaded yet, nearest to the block `player`
    /// first, those at the same distance in the order of `needed`: the order
    /// in which to ask the generator for them.
    pub fn missing_chunks_by_distance(&self, needed: &Vec<ChunkPos>, player: (i32, i32, i32)) -> (r: Vec<ChunkPos>)
        requires
            self.wf(),
            forall|i: int| 0 <= i < needed@.len() ==> distance_fits(#[trigger] needed@[i], player),
        ensures
            exists|perm: Seq<int>| stable_sorted_by_distance(r@, unloaded_keys(needed@, self.table()), player, perm),
    {
        let ghost input = unloaded_keys(needed@, self.table());
        let mut missing: Vec<ChunkPos> = Vec::new();
        let mut i: usize = 0;
        proof {
            assert(needed@.take(0) =~= Seq::<ChunkPos>::empty());
        }
        while i < needed.len()
            invariant
                i <= needed@.len(),
                self.wf(),
                missing@ == unloaded_keys(needed@.take(i as int), self.table()),
                forall|j: int| 0 <= j < missing@.len() ==> distance_fits(#[trigger] missing@[j], player),
                forall|j: int| 0 <= j < needed@.len() ==> distance_fits(#[trigger] needed@[j], player),
            decreases needed@.len() - i,
        {
            let key = needed[i];
            proof {
                assert(needed@.take(i + 1).drop_last() =~= needed@.take(i as int));
                assert(needed@.take(i + 1).last() == key);
            }
            if !self.contains_chunk(key) {
                missing.push(key);
            }
            i = i + 1;
        }
        proof {
            assert(needed@.take(needed@.len() as int) =~= needed@);
        }
        let mut sorted: Vec<ChunkPos> = Vec::new();
        let mut dists: Vec<i32> = Vec::new();
        let ghost mut perm: Seq<int> = Seq::empty();
        let mut k: usize = 0;
        while k < missing.len()
            invariant
                k <= missing@.len(),
                missing@ == input,
                forall|j: int| 0 <= j < missing@.len() ==> distance_fits(#[trigger] missing@[j], player),
                sorted@.len() == k,
                dists@.len() == k,
                forall|j: int| 0 <= j < k ==> #[trigger] dists@[j] == block_distance_sq(sorted@[j], player),
                stable_sorted_by_distance(sorted@, input.take(k as int), player, perm),
            decreases missing@.len() - k,
        {
            let key = missing[k];
            let d = distance_sq(key, player);
            let mut pos: usize = 0;
            while pos < sorted.len() && dists[pos] <= d
                invariant
                    pos <= sorted@.len(),
                    sorted@.len() == dists@.len(),
                    forall|j: int| 0 <= j < sorted@.len() ==> #[trigger] dists@[j] == block_distance_sq(sorted@[j], player),
                    forall|j: int| 0 <= j < pos ==> block_distance_sq(#[trigger] sorted@[j], player) <= d,
                decreases sorted@.len() - pos,
            {
                pos = pos + 1;
            }
            let ghost old_sorted = sorted@;
            let ghost old_dists = dists@;
            let ghost old_perm = perm;
            proof {
                assert forall|j: int| pos <= j < old_sorted.len() implies block_distance_sq(#[trigger] old_sorted[j], player) > d by {
                    assert(block_distance_sq(old_sorted[pos as int], player) > d);
                    if j > pos {
                        assert(block_distance_sq(old_sorted[pos as int], player) <= block_distance_sq(old_sorted[j], player));
                    }
                }
                assert(input[k as int] == key);
                lemma_insert_sorted(old_sorted, input, k as int, player, old_perm, pos as int);
                perm = old_perm.insert(pos as int, k as int);
            }
            sorted.insert(pos, key);
            dists.insert(pos, d);
            proof {
                assert forall|j: int| 0 <= j < k + 1 implies #[trigger] dists@[j] == block_distance_sq(sorted@[j], player) by {
                    if j < pos {
                        assert(dists@[j] == old_dists[j]);
                        assert(sorted@[j] == old_sorted[j]);
                    } else if j > pos {
                        assert(dists@[j] == old_dists[j - 1]);
                        assert(sorted@[j] == old_sorted[j - 1]);
                    }
                }
            }
            k = k + 1;
        }
        proof {
            assert(input.take(input.len() as int) =~= input);
        }
        sorted
    }

}

/// Keeping the slots in range keeps the keys unique and restricts the table
/// to the chunks in range.
pub proof fn lemma_slots_in_range(slots: Seq<ChunkSlot<ChunkData>>, center: ChunkPos, rh: i32, rv: i32)
    requires
        keys_unique(slots),
    ensures
        keys_unique(slots_in_range(slots, center, rh, rv)),
        forall|k: ChunkPos| #[trigger] slots_have(slots_in_range(slots, center, rh, rv), k) == (slots_have(slots, k)
            && chunk_in_range(k, center, rh, rv)),
        forall|k: ChunkPos| slots_have(slots_in_range(slots, center, rh, rv), k) ==> #[trigger] slots_map(
            slots_in_range(slots, center, rh, rv),
        )[k] == slots_map(slots)[k],
    decreases slots.len(),
{
    if slots.len() > 0 {
        let rest = slots.drop_last();
        let last = slots.last();
        assert(keys_unique(rest)) by {
            assert forall|a: int, b: int| 0 <= a < b < rest.len() implies (#[trigger] rest[a]).key != (#[trigger] rest[b]).key by {
                assert(slots[a].key != slots[b].key);
            }
        }
        lemma_slots_in_range(rest, center, rh, rv);
        assert(!slots_have(rest, last.key)) by {
            if slots_have(rest, last.key) {
                let j = choose|j: int| 0 <= j < rest.len() && (#[trigger] rest[j]).key == last.key;
                assert(slots[j].key != slots[slots.len() - 1].key);
            }
        }
        assert(slots =~= rest.push(last));
        lemma_push_slot(rest, last);
        let f = slots_in_range(rest, center, rh, rv);
        assert forall|k: ChunkPos| #[trigger] slots_have(slots, k) == (k == last.key || slots_have(rest, k)) by {
            assert(slots_map(slots).dom().contains(k) == slots_have(slots, k));
            assert(slots_map(rest).dom().contains(k) == slots_have(rest, k));
        }
        if chunk_in_range(last.key, center, rh, rv) {
            assert(!slots_have(f, last.key));
            lemma_push_slot(f, last);
            assert forall|k: ChunkPos| #[trigger] slots_have(f.push(last), k) == (k == last.key || slots_have(f, k)) by {
                assert(slots_map(f.push(last)).dom().contains(k) == slots_have(f.push(last), k));
                assert(slots_map(f).dom().contains(k) == slots_have(f, k));
            }
        }
    }
}

/// Removing the keys one by one removes their set.
proof fn lemma_remove_keys_push(m: Map<ChunkPos, ChunkMesh>, keys: Seq<ChunkPos>, k: ChunkPos)
    ensures
        m.remove_keys(keys.to_set()).remove(k) == m.remove_keys(keys.push(k).to_set()),
{
    assert(keys.push(k).to_set() =~= keys.to_set().insert(k)) by {
        assert forall|x: ChunkPos| keys.push(k).to_set().contains(x) <==> keys.to_set().insert(k).contains(x) by {
            if keys.push(k).contains(x) && x != k {
                let i = choose|i: int| 0 <= i < keys.push(k).len() && keys.push(k)[i] == x;
                assert(keys[i] == x);
            }
            if keys.contains(x) {
                let i = choose|i: int| 0 <= i < keys.len() && keys[i] == x;
                assert(keys.push(k)[i] == x);
            }
            if x == k {
                assert(keys.push(k)[keys.len() as int] == x);
            }
        }
    }
    assert(m.remove_keys(keys.to_set()).remove(k) =~= m.remove_keys(keys.to_set().insert(k)));
}

/// Every key out of range comes from a slot.
proof fn lemma_out_of_range_from(slots: Seq<ChunkSlot<ChunkData>>, center: ChunkPos, rh: i32, rv: i32)
    ensures
        forall|k: ChunkPos| #[trigger] keys_out_of_range(slots, center, rh, rv).contains(k) ==> exists|j: int|
            0 <= j < slots.len() && (#[trigger] slots[j]).key == k,
    decreases slots.len(),
{
    if slots.len() > 0 {
        let rest = slots.drop_last();
        lemma_out_of_range_from(rest, center, rh, rv);
        assert forall|k: ChunkPos| #[trigger] keys_out_of_range(slots, center, rh, rv).contains(k) implies exists|j: int|
            0 <= j < slots.len() && (#[trigger] slots[j]).key == k by {
            if keys_out_of_range(rest, center, rh, rv).contains(k) {
                let j = choose|j: int| 0 <= j < rest.len() && (#[trigger] rest[j]).key == k;
                assert(slots[j] == rest[j]);
            } else {
                assert(slots[slots.len() - 1].key == k);
            }
        }
    }
}

/// Inserting the next key at its place keeps the keys sorted by distance
/// and stable.
proof fn lemma_insert_sorted(
    sorted: Seq<ChunkPos>,
    input: Seq<ChunkPos>,
    k: int,
    p: (i32, i32, i32),
    perm: Seq<int>,
    pos: int,
)
    requires
        0 <= k < input.len(),
        stable_sorted_by_distance(sorted, input.take(k), p, perm),
        0 <= pos <= sorted.len(),
        forall|j: int| 0 <= j < pos ==> block_distance_sq(#[trigger] sorted[j], p) <= block_distance_sq(input[k], p),
        forall|j: int| pos <= j < sorted.len() ==> block_distance_sq(#[trigger] sorted[j], p) > block_distance_sq(input[k], p),
    ensures
        stable_sorted_by_distance(sorted.insert(pos, input[k]), input.take(k + 1), p, perm.insert(pos, k)),
{
    let out = sorted.insert(pos, input[k]);
    let perm2 = perm.insert(pos, k);
    let inp = input.take(k + 1);
    let old_inp = input.take(k);
    assert forall|i: int| 0 <= i < perm2.len() implies 0 <= #[trigger] perm2[i] < inp.len() by {
        if i < pos {
            assert(perm2[i] == perm[i]);
        } else if i > pos {
            assert(perm2[i] == perm[i - 1]);
        }
    }
    assert forall|i: int, j: int| 0 <= i < j < perm2.len() implies #[trigger] perm2[i] != #[trigger] perm2[j] by {
        let pi = if i < pos { i } else { i - 1 };
        let pj = if j < pos { j } else { j - 1 };
        if i != pos && j != pos {
            assert(perm2[i] == perm[pi]);
            assert(perm2[j] == perm[pj]);
            assert(perm[pi] != perm[pj]);
        } else if i == pos {
            assert(perm2[j] == perm[pj]);
            assert(perm[pj] < k);
        } else {
            assert(perm2[i] == perm[pi]);
            assert(perm[pi] < k);
        }
    }
    assert forall|i: int| 0 <= i < out.len() implies #[trigger] out[i] == inp[perm2[i]] by {
        if i < pos {
            assert(out[i] == sorted[i]);
            assert(perm2[i] == perm[i]);
            assert(sorted[i] == old_inp[perm[i]]);
        } else if i > pos {
            assert(out[i] == sorted[i - 1]);
            assert(perm2[i] == perm[i - 1]);
            assert(sorted[i - 1] == old_inp[perm[i - 1]]);
        }
    }
    assert forall|i: int, j: int| 0 <= i < j < out.len() implies block_distance_sq(#[trigger] out[i], p) <= block_distance_sq(
        #[trigger] out[j],
        p,
    ) by {
        let si = if i < pos { i } else { i - 1 };
        let sj = if j < pos { j } else { j - 1 };
        if i != pos && j != pos {
            assert(out[i] == sorted[si]);
            assert(out[j] == sorted[sj]);
        } else if i == pos {
            assert(out[j] == sorted[sj]);
        } else {
            assert(out[i] == sorted[si]);
        }
    }
    assert forall|i: int, j: int|
        0 <= i < j < out.len() && block_distance_sq(#[trigger] out[i], p) == block_distance_sq(#[trigger] out[j], p) implies perm2[i]
        < perm2[j] by {
        let si = if i < pos { i } else { i - 1 };
        let sj = if j < pos { j } else { j - 1 };
        if i != pos && j != pos {
            assert(out[i] == sorted[si]);
            assert(out[j] == sorted[sj]);
            assert(perm2[i] == perm[si]);
            assert(perm2[j] == perm[sj]);
        } else if i == pos {
            assert(out[j] == sorted[sj]);
        } else {
            assert(out[i] == sorted[si]);
            assert(perm2[i] == perm[si]);
            assert(perm[si] < k);
        }
    }
}

/// Dropping keys from a queue without duplicates leaves none.
proof fn lemma_still_waiting_unique(keys: Seq<ChunkPos>, table: Map<ChunkPos, ChunkData>)
    requires
        no_duplicates(keys),
    ensures
        no_duplicates(still_waiting(keys, table)),
        forall|k: ChunkPos| #[trigger] still_waiting(keys, table).contains(k) ==> keys.contains(k),
    decreases keys.len(),
{
    if keys.len() > 0 {
        let rest = keys.drop_last();
        assert(no_duplicates(rest)) by {
            assert forall|a: int, b: int| 0 <= a < b < rest.len() implies #[trigger] rest[a] != #[trigger] rest[b] by {
                assert(keys[a] != keys[b]);
            }
        }
        lemma_still_waiting_unique(rest, table);
        let sw = still_waiting(rest, table);
        assert forall|k: ChunkPos| sw.contains(k) implies keys.contains(k) by {
            assert(rest.contains(k));
            let i = choose|i: int| 0 <= i < rest.len() && rest[i] == k;
            assert(keys[i] == k);
        }
        if !neighbours_ready(table, keys.last()) {
            let s2 = sw.push(keys.last());
            assert(!sw.contains(keys.last())) by {
                if sw.contains(keys.last()) {
                    assert(rest.contains(keys.last()));
                    let i = choose|i: int| 0 <= i < rest.len() && rest[i] == keys.last();
                    assert(keys[i] != keys[keys.len() - 1]);
                }
            }
            assert forall|a: int, b: int| 0 <= a < b < s2.len() implies #[trigger] s2[a] != #[trigger] s2[b] by {
                if b == s2.len() - 1 {
                    assert(sw.contains(s2[a]));
                }
            }
            assert forall|k: ChunkPos| s2.contains(k) implies keys.contains(k) by {
                if k != keys.last() {
                    assert(sw.contains(k));
                }
            }
        }
    }
}

/// The block at coordinates `l` inside chunk `c` is the block of the world
/// at `l + 16 c`: both ways of reading a block agree.
pub proof fn lemma_local_block_is_world_block(
    table: Map<ChunkPos, ChunkData>,
    lx: i32,
    ly: i32,
    lz: i32,
    cx: i32,
    cy: i32,
    cz: i32,
)
    requires
        in_chunk(lx as int, ly as int, lz as int),
    ensures
        block_in(table, lx + cx * 16, ly + cy * 16, lz + cz * 16) == if table.dom().contains((cx, cy, cz)) {
            table[(cx, cy, cz)].chunk.block_at(lx as int, ly as int, lz as int)
        } else {
            BlockInstance { id: AIR_BLOCK_ID }
        },
{
    vstd::arithmetic::div_mod::lemma_fundamental_div_mod_converse(lx + cx * 16, 16, cx as int, lx as int);
    vstd::arithmetic::div_mod::lemma_fundamental_div_mod_converse(ly + cy * 16, 16, cy as int, ly as int);
    vstd::arithmetic::div_mod::lemma_fundamental_div_mod_converse(lz + cz * 16, 16, cz as int, lz as int);
    assert(as_key(chunk_of_block(lx + cx * 16, ly + cy * 16, lz + cz * 16)) == (cx, cy, cz));
}

/// Appending a slot under a new key keeps the keys unique and adds that
/// key to the table.
pub proof fn lemma_push_slot<V>(before: Seq<ChunkSlot<V>>, slot: ChunkSlot<V>)
    requires
        keys_unique(before),
        !slots_have(before, slot.key),
    ensures
        keys_unique(before.push(slot)),
        slots_map(before.push(slot)) == slots_map(before).insert(slot.key, slot.data),
{
    let after = before.push(slot);
    let key = slot.key;
    let n = before.len() as int;
    assert forall|a: int, b: int| 0 <= a < b < after.len() implies (#[trigger] after[a]).key != (#[trigger] after[b]).key by {
        if b == n {
            assert(after[a] == before[a]);
            if before[a].key == key {
                assert(slots_have(before, key));
            }
        } else {
            assert(before[a].key != before[b].key);
        }
    }
    assert forall|k: ChunkPos| #[trigger] slots_have(after, k) == (k == key || slots_have(before, k)) by {
        if slots_have(before, k) {
            let j = choose|j: int| 0 <= j < before.len() && (#[trigger] before[j]).key == k;
            assert(after[j].key == k);
        }
        if k == key {
            assert(after[n].key == k);
        }
        if slots_have(after, k) {
            let j = choose|j: int| 0 <= j < after.len() && (#[trigger] after[j]).key == k;
            if j != n {
                assert(before[j].key == k);
            }
        }
    }
    assert forall|k: ChunkPos| slots_have(after, k) implies slots_map(after)[k] == slots_map(before).insert(key, slot.data)[k] by {
        let j = choose|j: int| 0 <= j < after.len() && (#[trigger] after[j]).key == k;
        lemma_slot_is_entry(after, j);
        if k != key {
            assert(before[j] == after[j]);
            lemma_slot_is_entry(before, j);
        }
    }
    assert(slots_map(after) =~= slots_map(before).insert(key, slot.data));
}

/// Removing a slot keeps the keys unique and removes that key from the table.
pub proof fn lemma_remove_slot<V>(before: Seq<ChunkSlot<V>>, i: int)
    requires
        keys_unique(before),
        0 <= i < before.len(),
    ensures
        keys_unique(before.remove(i)),
        slots_map(before.remove(i)) == slots_map(before).remove(before[i].key),
{
    let after = before.remove(i);
    let key = before[i].key;
    assert forall|a: int, b: int| 0 <= a < b < after.len() implies (#[trigger] after[a]).key != (#[trigger] after[b]).key by {
        let a0 = if a < i { a } else { a + 1 };
        let b0 = if b < i { b } else { b + 1 };
        assert(after[a] == before[a0]);
        assert(after[b] == before[b0]);
        assert(before[a0].key != before[b0].key);
    }
    assert forall|k: ChunkPos| #[trigger] slots_have(after, k) == (k != key && slots_have(before, k)) by {
        if slots_have(before, k) && k != key {
            let j = choose|j: int| 0 <= j < before.len() && (#[trigger] before[j]).key == k;
            let j2 = if j < i { j } else { j - 1 };
            assert(after[j2] == before[j]);
        }
        if slots_have(after, k) {
            let j = choose|j: int| 0 <= j < after.len() && (#[trigger] after[j]).key == k;
            let j0 = if j < i { j } else { j + 1 };
            assert(after[j] == before[j0]);
            if k == key {
                assert(before[j0].key == before[i].key);
            }
        }
    }
    assert forall|k: ChunkPos| slots_have(after, k) implies slots_map(after)[k] == slots_map(before).remove(key)[k] by {
        let j = choose|j: int| 0 <= j < after.len() && (#[trigger] after[j]).key == k;
        let j0 = if j < i { j } else { j + 1 };
        assert(after[j] == before[j0]);
        lemma_slot_is_entry(after, j);
        lemma_slot_is_entry(before, j0);
    }
    assert(slots_map(after) =~= slots_map(before).remove(key));
}

/// Reading a block gives back what was last written there: after
/// `set_block` of `block` at `(x, y, z)` in a loaded chunk, the world holds
/// `block` there, and every other block is unchanged.
pub proof fn lemma_read_after_set(
    t0: Map<ChunkPos, ChunkData>,
    t1: Map<ChunkPos, ChunkData>,
    x: i32,
    y: i32,
    z: i32,
    block: BlockInstance,
    r: bool,
    x2: i32,
    y2: i32,
    z2: i32,
)
    requires
        forall|k: ChunkPos| #[trigger] t0.dom().contains(k) ==> t0[k].chunk.wf(),
        block_written(t0, t1, x as int, y as int, z as int, block, r),
    ensures
        t0.dom().contains(as_key(chunk_of_block(x as int, y as int, z as int))) ==> block_in(t1, x as int, y as int, z as int)
            == block,
        (x2, y2, z2) != (x, y, z) ==> block_in(t1, x2 as int, y2 as int, z2 as int) == block_in(t0, x2 as int, y2 as int, z2 as int),
{
    let c = as_key(chunk_of_block(x as int, y as int, z as int));
    let l = local_of_block(x as int, y as int, z as int);
    let c2 = as_key(chunk_of_block(x2 as int, y2 as int, z2 as int));
    let l2 = local_of_block(x2 as int, y2 as int, z2 as int);
    lemma_shift_div16(x as int);
    lemma_shift_div16(y as int);
    lemma_shift_div16(z as int);
    lemma_shift_div16(x2 as int);
    lemma_shift_div16(y2 as int);
    lemma_shift_div16(z2 as int);
    vstd::arithmetic::div_mod::lemma_fundamental_div_mod(x as int, 16);
    vstd::arithmetic::div_mod::lemma_fundamental_div_mod(y as int, 16);
    vstd::arithmetic::div_mod::lemma_fundamental_div_mod(z as int, 16);
    vstd::arithmetic::div_mod::lemma_fundamental_div_mod(x2 as int, 16);
    vstd::arithmetic::div_mod::lemma_fundamental_div_mod(y2 as int, 16);
    vstd::arithmetic::div_mod::lemma_fundamental_div_mod(z2 as int, 16);
    if r {
        assert(t0[c].chunk.wf());
        if (x2, y2, z2) != (x, y, z) && c2 == c {
            assert(l2 != l);
            assert(chunk_index(l2.0, l2.1, l2.2) != chunk_index(l.0, l.1, l.2));
        }
    }
}

/// Replacing the data of a slot keeps the keys unique and replaces that
/// key's entry of the table.
pub proof fn lemma_update_slot<V>(before: Seq<ChunkSlot<V>>, i: int, slot: ChunkSlot<V>)
    requires
        keys_unique(before),
        0 <= i < before.len(),
        before[i].key == slot.key,
    ensures
        keys_unique(before.update(i, slot)),
        slots_map(before.update(i, slot)) == slots_map(before).insert(slot.key, slot.data),
{
    let after = before.update(i, slot);
    let key = slot.key;
    assert forall|a: int, b: int| 0 <= a < b < after.len() implies (#[trigger] after[a]).key != (#[trigger] after[b]).key by {
        assert(before[a].key != before[b].key);
    }
    assert forall|k: ChunkPos| #[trigger] slots_have(after, k) == (k == key || slots_have(before, k)) by {
        if slots_have(before, k) {
            let j = choose|j: int| 0 <= j < before.len() && (#[trigger] before[j]).key == k;
            assert(after[j].key == k);
        }
        if k == key {
            assert(after[i].key == k);
        }
        if slots_have(after, k) {
            let j = choose|j: int| 0 <= j < after.len() && (#[trigger] after[j]).key == k;
            if j != i {
                assert(before[j].key == k);
            }
        }
    }
    assert(slots_have(before, key)) by {
        assert(before[i].key == key);
    }
    assert forall|k: ChunkPos| slots_have(after, k) implies slots_map(after)[k] == slots_map(before).insert(key, slot.data)[k] by {
        let j = choose|j: int| 0 <= j < after.len() && (#[trigger] after[j]).key == k;
        lemma_slot_is_entry(after, j);
        if k != key {
            assert(before[j] == after[j]);
            lemma_slot_is_entry(before, j);
        }
    }
    assert(slots_map(after) =~= slots_map(before).insert(key, slot.data));
}

/// In a table with unique keys, the slot holding `key` is the one the map gives.
pub proof fn lemma_slot_is_entry<V>(slots: Seq<ChunkSlot<V>>, i: int)
    requires
        keys_unique(slots),
        0 <= i < slots.len(),
    ensures
        slots_have(slots, slots[i].key),
        slots_map(slots)[slots[i].key] == slots[i].data,
{
    let k = slots[i].key;
    let j = choose|j: int| 0 <= j < slots.len() && (#[trigger] slots[j]).key == k;
    if j != i {
        if i < j {
            assert(slots[i].key != slots[j].key);
        } else {
            assert(slots[j].key != slots[i].key);
        }
    }
}

} // verus!
