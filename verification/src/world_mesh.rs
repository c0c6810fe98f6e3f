use vstd::prelude::*;
use std::collections::HashMap;
use crate::chunk::{ChunkData, ChunkState};
use crate::meshing::{ChunkMesh, stored, mesh_store_ok};
use crate::player::{chunk_keys_in_range, box_keys, in_box, key_ints};
use crate::mesh_manager::{MeshId, MeshManager};
use crate::world::{
    ChunkPos, ChunkSlot, World, find_slot, keys_unique, lemma_push_slot, lemma_remove_slot, lemma_slot_is_entry, lemma_update_slot,
    neighbours_in_range, neighbours_ready, no_duplicates, push_all, push_unique, push_unique_exec, same_key, slots_map,
};

verus! {

broadcast use vstd::std_specs::hash::group_hash_axioms;

/// A chunk can be meshed: it is loaded and its six neighbours are ready.
pub open spec fn meshable(table: Map<ChunkPos, ChunkData>, k: ChunkPos) -> bool {
    table.dom().contains(k) && neighbours_ready(table, k)
}

/// The keys of `keys` that can be meshed in `table`, in order.
pub open spec fn meshable_keys(keys: Seq<ChunkPos>, table: Map<ChunkPos, ChunkData>) -> Seq<ChunkPos>
    decreases keys.len(),
{
    if keys.len() == 0 {
        Seq::empty()
    } else if meshable(table, keys.last()) {
        meshable_keys(keys.drop_last(), table).push(keys.last())
    } else {
        meshable_keys(keys.drop_last(), table)
    }
}

/// The keys of `keys` whose chunk is loaded in `table` and that are not in
/// `busy`, in order.
pub open spec fn loaded_and_free(keys: Seq<ChunkPos>, busy: Seq<ChunkPos>, table: Map<ChunkPos, ChunkData>) -> Seq<ChunkPos>
    decreases keys.len(),
{
    if keys.len() == 0 {
        Seq::empty()
    } else if table.dom().contains(keys.last()) && !busy.contains(keys.last()) {
        loaded_and_free(keys.drop_last(), busy, table).push(keys.last())
    } else {
        loaded_and_free(keys.drop_last(), busy, table)
    }
}

/// The keys of `keys` that are in `busy` or whose chunk is loaded in `table`, in order.
pub open spec fn kept_queued(keys: Seq<ChunkPos>, busy: Seq<ChunkPos>, table: Map<ChunkPos, ChunkData>) -> Seq<ChunkPos>
    decreases keys.len(),
{
    if keys.len() == 0 {
        Seq::empty()
    } else if busy.contains(keys.last()) || table.dom().contains(keys.last()) {
        kept_queued(keys.drop_last(), busy, table).push(keys.last())
    } else {
        kept_queued(keys.drop_last(), busy, table)
    }
}

/// Chunk `k` must be (re)meshed: no job runs for it, it is loaded, it has
/// no mesh or a mesh to rebuild, and its six neighbours are ready.
pub open spec fn needs_build(
    meshes: Map<ChunkPos, ChunkMesh>,
    busy: Seq<ChunkPos>,
    table: Map<ChunkPos, ChunkData>,
    k: ChunkPos,
) -> bool {
    &&& !busy.contains(k)
    &&& table.dom().contains(k)
    &&& (!meshes.dom().contains(k) || meshes[k].dirty)
    &&& neighbours_ready(table, k)
}

/// The keys of `keys` that must be meshed, in order.
pub open spec fn keys_to_build(
    keys: Seq<ChunkPos>,
    meshes: Map<ChunkPos, ChunkMesh>,
    busy: Seq<ChunkPos>,
    table: Map<ChunkPos, ChunkData>,
) -> Seq<ChunkPos>
    decreases keys.len(),
{
    if keys.len() == 0 {
        Seq::empty()
    } else if needs_build(meshes, busy, table, keys.last()) {
        keys_to_build(keys.drop_last(), meshes, busy, table).push(keys.last())
    } else {
        keys_to_build(keys.drop_last(), meshes, busy, table)
    }
}

/// `q` without `k`.
pub open spec fn without(q: Seq<ChunkPos>, k: ChunkPos) -> Seq<ChunkPos>
    decreases q.len(),
{
    if q.len() == 0 {
        Seq::empty()
    } else if q.last() == k {
        without(q.drop_last(), k)
    } else {
        without(q.drop_last(), k).push(q.last())
    }
}

/// The chunks of `slots` whose mesh is stored and that are in `rendered`,
/// with the buffer ids of their meshes, in order.
pub open spec fn drawable(slots: Seq<ChunkSlot<ChunkMesh>>, rendered: Seq<ChunkPos>) -> Seq<(ChunkPos, MeshId)>
    decreases slots.len(),
{
    if slots.len() == 0 {
        Seq::empty()
    } else {
        let s = slots.last();
        let before = drawable(slots.drop_last(), rendered);
        match s.data.id {
            Some(id) => if rendered.contains(s.key) { before.push((s.key, id)) } else { before },
            None => before,
        }
    }
}

/// The meshes of the loaded chunks, the meshing jobs handed to the workers
/// (by job id) and the chunks they are for, and the chunks queued to be
/// meshed, in order.
pub struct WorldMesh {
    pub meshes: Vec<ChunkSlot<ChunkMesh>>,
    pub pending: HashMap<usize, ChunkPos>,
    pub pending_keys: Vec<ChunkPos>,
    pub queued: Vec<ChunkPos>,
}

impl WorldMesh {
    /// The meshes by chunk coordinates.
    pub open spec fn mesh_table(&self) -> Map<ChunkPos, ChunkMesh> {
        slots_map(self.meshes@)
    }

    pub open spec fn wf(&self) -> bool {
        &&& keys_unique(self.meshes@)
        &&& no_duplicates(self.pending_keys@)
        &&& no_duplicates(self.queued@)
    }

    /// No mesh, no job, nothing queued.
    pub fn new() -> (w: WorldMesh)
        ensures
            w.wf(),
            w.mesh_table() == Map::<ChunkPos, ChunkMesh>::empty(),
            w.pending@ == Map::<usize, ChunkPos>::empty(),
            w.pending_keys@.len() == 0,
            w.queued@.len() == 0,
    {
        let w = WorldMesh { meshes: Vec::new(), pending: HashMap::new(), pending_keys: Vec::new(), queued: Vec::new() };
        proof {
            assert(w.mesh_table() =~= Map::<ChunkPos, ChunkMesh>::empty());
        }
        w
    }

    /// The mesh of chunk `cpos`, if any.
    pub fn mesh_at(&self, cpos: &ChunkPos) -> (r: Option<&ChunkMesh>)
        requires
            self.wf(),
        ensures
            r is Some <==> self.mesh_table().dom().contains(*cpos),
            r matches Some(m) ==> *m == self.mesh_table()[*cpos],
    {
        match find_slot(&self.meshes, *cpos) {
            Some(i) => {
                proof {
                    lemma_slot_is_entry(self.meshes@, i as int);
                }
                Some(&self.meshes[i].data)
            },
            None => None,
        }
    }

    /// The buffer id of the mesh of chunk `cpos` and whether it must be
    /// rebuilt, if it has a mesh.
    pub fn mesh_infos_at(&self, cpos: &ChunkPos) -> (r: Option<(Option<MeshId>, bool)>)
        requires
            self.wf(),
        ensures
            r is Some <==> self.mesh_table().dom().contains(*cpos),
            r matches Some(info) ==> info == (self.mesh_table()[*cpos].id, self.mesh_table()[*cpos].dirty),
    {
        match self.mesh_at(cpos) {
            Some(m) => Some((m.id, m.dirty)),
            None => None,
        }
    }

    /// Marks the mesh of chunk `cpos`, if any, to be rebuilt and queues the chunk.
    pub fn set_dirty(&mut self, cpos: &ChunkPos)
        requires
            old(self).wf(),
        ensures
            final(self).wf(),
            final(self).pending@ == old(self).pending@,
            final(self).pending_keys@ == old(self).pending_keys@,
            old(self).mesh_table().dom().contains(*cpos) ==> {
                &&& final(self).mesh_table() == old(self).mesh_table().insert(
                    *cpos,
                    ChunkMesh { dirty: true, ..old(self).mesh_table()[*cpos] },
                )
                &&& final(self).queued@ == push_unique(old(self).queued@, *cpos)
            },
            !old(self).mesh_table().dom().contains(*cpos) ==> final(self).mesh_table() == old(self).mesh_table()
                && final(self).queued@ == old(self).queued@,
    {
        match find_slot(&self.meshes, *cpos) {
            Some(i) => {
                proof {
                    lemma_slot_is_entry(self.meshes@, i as int);
                }
                let ghost before = self.meshes@;
                let slot = self.meshes.remove(i);
                let ChunkSlot { key, data } = slot;
                let mut mesh = data;
                mesh.set_dirty();
                let new_slot = ChunkSlot { key, data: mesh };
                self.meshes.insert(i, new_slot);
                proof {
                    assert(self.meshes@ =~= before.update(i as int, new_slot));
                    lemma_update_slot(before, i as int, new_slot);
                }
                push_unique_exec(&mut self.queued, *cpos);
            },
            None => {},
        }
    }

    /// Drops every mesh, job and queued chunk.
    pub fn dispose(&mut self)
        ensures
            final(self).wf(),
            final(self).mesh_table() == Map::<ChunkPos, ChunkMesh>::empty(),
            final(self).pending@ == Map::<usize, ChunkPos>::empty(),
            final(self).pending_keys@.len() == 0,
            final(self).queued@.len() == 0,
    {
        self.meshes.clear();
        self.pending.clear();
        self.pending_keys.clear();
        self.queued.clear();
        proof {
            assert(self.mesh_table() =~= Map::<ChunkPos, ChunkMesh>::empty());
        }
    }

    /// Removes the mesh of chunk `key` and gives it back, if it has one.
    pub fn remove_mesh(&mut self, key: ChunkPos) -> (r: Option<ChunkMesh>)
        requires
            old(self).wf(),
        ensures
            final(self).wf(),
            r is Some <==> old(self).mesh_table().dom().contains(key),
            r matches Some(m) ==> m == old(self).mesh_table()[key],
            final(self).mesh_table() == old(self).mesh_table().remove(key),
            final(self).pending@ == old(self).pending@,
            final(self).pending_keys@ == old(self).pending_keys@,
            final(self).queued@ == old(self).queued@,
    {
        match find_slot(&self.meshes, key) {
            Some(i) => {
                proof {
                    lemma_slot_is_entry(self.meshes@, i as int);
                    lemma_remove_slot(self.meshes@, i as int);
                }
                let slot = self.meshes.remove(i);
                Some(slot.data)
            },
            None => {
                proof {
                    assert(self.mesh_table() =~= old(self).mesh_table().remove(key));
                }
                None
            },
        }
    }

    /// Takes the chunks the world has ready to be meshed and queues, in
    /// order, those that are loaded and whose neighbours are all ready; the
    /// others are dropped with the world's list.
    pub fn enqueue_missing_meshes(&mut self, world: &mut World)
        requires
            old(self).wf(),
            old(world).wf(),
            forall|i: int| 0 <= i < old(world).ready_to_mesh@.len() ==> neighbours_in_range(#[trigger] old(world).ready_to_mesh@[i]),
        ensures
            final(self).wf(),
            final(world).wf(),
            final(world).table() == old(world).table(),
            final(world).waiting_to_mesh@ == old(world).waiting_to_mesh@,
            final(world).ready_to_mesh@.len() == 0,
            final(world).seed == old(world).seed,
            final(self).mesh_table() == old(self).mesh_table(),
            final(self).pending@ == old(self).pending@,
            final(self).pending_keys@ == old(self).pending_keys@,
            final(self).queued@ == push_all(old(self).queued@, meshable_keys(old(world).ready_to_mesh@, old(world).table())),
    {
        let ready = world.take_ready_to_mesh();
        let ghost t = world.table();
        let ghost q0 = self.queued@;
        let mut i: usize = 0;
        proof {
            assert(ready@.take(0) =~= Seq::<ChunkPos>::empty());
        }
        while i < ready.len()
            invariant
                i <= ready@.len(),
                self.wf(),
                world.wf(),
                world.table() == t,
                forall|j: int| 0 <= j < ready@.len() ==> neighbours_in_range(#[trigger] ready@[j]),
                self.mesh_table() == old(self).mesh_table(),
                self.pending@ == old(self).pending@,
                self.pending_keys@ == old(self).pending_keys@,
                self.queued@ == push_all(q0, meshable_keys(ready@.take(i as int), t)),
            decreases ready@.len() - i,
        {
            let key = ready[i];
            let ghost before = meshable_keys(ready@.take(i as int), t);
            proof {
                assert(ready@.take(i + 1).drop_last() =~= ready@.take(i as int));
                assert(ready@.take(i + 1).last() == key);
            }
            if world.contains_chunk(key) && world.are_all_neighbors_ready(key.0, key.1, key.2) {
                push_unique_exec(&mut self.queued, key);
                proof {
                    let after = meshable_keys(ready@.take(i + 1), t);
                    assert(after.drop_last() =~= before);
                }
            }
            i = i + 1;
        }
        proof {
            assert(ready@.take(ready@.len() as int) =~= ready@);
        }
    }

    /// The queued chunks to hand to the mesh workers now, in order: those
    /// loaded and without a job running. Queued chunks neither loaded nor
    /// with a job running leave the queue.
    pub fn submission_candidates(&mut self, world: &World) -> (r: Vec<ChunkPos>)
        requires
            old(self).wf(),
            world.wf(),
        ensures
            final(self).wf(),
            r@ == loaded_and_free(old(self).queued@, old(self).pending_keys@, world.table()),
            final(self).queued@ == kept_queued(old(self).queued@, old(self).pending_keys@, world.table()),
            final(self).mesh_table() == old(self).mesh_table(),
            final(self).pending@ == old(self).pending@,
            final(self).pending_keys@ == old(self).pending_keys@,
    {
        let ghost q0 = self.queued@;
        let ghost busy = self.pending_keys@;
        let mut queued: Vec<ChunkPos> = Vec::new();
        std::mem::swap(&mut queued, &mut self.queued);
        let mut kept: Vec<ChunkPos> = Vec::new();
        let mut candidates: Vec<ChunkPos> = Vec::new();
        let mut i: usize = 0;
        proof {
            assert(q0.take(0) =~= Seq::<ChunkPos>::empty());
        }
        while i < queued.len()
            invariant
                i <= queued@.len(),
                queued@ == q0,
                no_duplicates(q0),
                world.wf(),
                self.pending_keys@ == busy,
                kept@ == kept_queued(q0.take(i as int), busy, world.table()),
                candidates@ == loaded_and_free(q0.take(i as int), busy, world.table()),
                forall|k: ChunkPos| kept@.contains(k) ==> q0.take(i as int).contains(k),
                no_duplicates(kept@),
            decreases queued@.len() - i,
        {
            let key = queued[i];
            proof {
                assert(q0.take(i + 1).drop_last() =~= q0.take(i as int));
                assert(q0.take(i + 1).last() == key);
                assert(!q0.take(i as int).contains(key)) by {
                    if q0.take(i as int).contains(key) {
                        let j = choose|j: int| 0 <= j < i && q0.take(i as int)[j] == key;
                        assert(q0[j] != q0[i as int]);
                    }
                }
            }
            let busy_now = contains_key(&self.pending_keys, key);
            let loaded = world.contains_chunk(key);
            let ghost k0 = kept@;
            if busy_now || loaded {
                kept.push(key);
                proof {
                    assert forall|a: int, b: int| 0 <= a < b < kept@.len() implies #[trigger] kept@[a] != #[trigger] kept@[b] by {
                        if b == kept@.len() - 1 {
                            assert(k0.contains(kept@[a]));
                        } else {
                            assert(k0[a] != k0[b]);
                        }
                    }
                }
            }
            if !busy_now && loaded {
                candidates.push(key);
            }
            proof {
                assert forall|k: ChunkPos| kept@.contains(k) implies q0.take(i + 1).contains(k) by {
                    if k == key {
                        assert(q0.take(i + 1)[i as int] == key);
                    } else {
                        let a = choose|a: int| 0 <= a < kept@.len() && kept@[a] == k;
                        assert(a < k0.len() && k0[a] == k);
                        assert(k0.contains(k));
                        assert(q0.take(i as int).contains(k));
                        let t0 = q0.take(i as int);
                        let j = choose|j: int| 0 <= j < t0.len() && t0[j] == k;
                        assert(q0.take(i + 1)[j] == k);
                    }
                }
            }
            i = i + 1;
        }
        proof {
            assert(q0.take(q0.len() as int) =~= q0);
        }
        self.queued = kept;
        candidates
    }

    /// Records that the workers took the meshing of chunk `key` as job `id`:
    /// the chunk leaves the queue and waits for that job.
    pub fn mark_submitted(&mut self, key: ChunkPos, id: usize)
        requires
            old(self).wf(),
        ensures
            final(self).wf(),
            final(self).queued@ == without(old(self).queued@, key),
            final(self).pending@ == old(self).pending@.insert(id, key),
            final(self).pending_keys@ == push_unique(old(self).pending_keys@, key),
            final(self).mesh_table() == old(self).mesh_table(),
    {
        remove_key(&mut self.queued, key);
        self.pending.insert(id, key);
        push_unique_exec(&mut self.pending_keys, key);
    }

    /// Takes in the vertices a worker built for job `id`: the job ends; when
    /// there are vertices and the chunk is still loaded, they are stored as
    /// its mesh (a new mesh for a chunk without one) and the chunk is marked
    /// ready and no longer in need of a new mesh; when the chunk is gone, its mesh is dropped. A job not waited
    /// for is ignored.
    pub fn apply_mesh_result(&mut self, id: usize, vertex_bytes: Option<&[u8]>, manager: &mut MeshManager, world: &mut World)
        requires
            old(self).wf(),
            old(world).wf(),
            old(manager).wf(),
            vertex_bytes matches Some(b) ==> (old(self).pending@.contains_key(id) && old(world).table().dom().contains(
                old(self).pending@[id],
            ) ==> mesh_store_ok(
                if old(self).mesh_table().dom().contains(old(self).pending@[id]) {
                    old(self).mesh_table()[old(self).pending@[id]].id
                } else {
                    None
                },
                *old(manager),
                b@.len() as int,
            )),
        ensures
            final(self).wf(),
            final(world).wf(),
            final(manager).wf(),
            final(self).queued@ == old(self).queued@,
            final(world).seed == old(world).seed,
            final(world).waiting_to_mesh@ == old(world).waiting_to_mesh@,
            final(world).ready_to_mesh@ == old(world).ready_to_mesh@,
            !old(self).pending@.contains_key(id) ==> {
                &&& final(self).pending@ == old(self).pending@
                &&& final(self).pending_keys@ == old(self).pending_keys@
                &&& final(self).mesh_table() == old(self).mesh_table()
                &&& final(world).table() == old(world).table()
                &&& *final(manager) == *old(manager)
            },
            old(self).pending@.contains_key(id) ==> {
                let key = old(self).pending@[id];
                &&& final(self).pending@ == old(self).pending@.remove(id)
                &&& final(self).pending_keys@ == without(old(self).pending_keys@, key)
                &&& match vertex_bytes {
                    None => final(self).mesh_table() == old(self).mesh_table() && final(world).table() == old(world).table()
                        && *final(manager) == *old(manager),
                    Some(b) => if old(world).table().dom().contains(key) {
                        let before = if old(self).mesh_table().dom().contains(key) {
                            old(self).mesh_table()[key]
                        } else {
                            ChunkMesh { id: None, dirty: true }
                        };
                        &&& final(self).mesh_table().dom() == old(self).mesh_table().dom().insert(key)
                        &&& final(self).mesh_table().remove(key) == old(self).mesh_table().remove(key)
                        &&& stored(before, final(self).mesh_table()[key], b@, *old(manager), *final(manager))
                        &&& final(world).table() == old(world).table().insert(
                            key,
                            ChunkData { state: ChunkState::Ready, is_dirty: false, ..old(world).table()[key] },
                        )
                    } else {
                        &&& final(self).mesh_table() == old(self).mesh_table().remove(key)
                        &&& final(world).table() == old(world).table()
                        &&& *final(manager) == *old(manager)
                    },
                }
            },
    {
        let key = match self.pending.remove(&id) {
            Some(k) => k,
            None => {
                return;
            },
        };
        remove_key(&mut self.pending_keys, key);
        let bytes = match vertex_bytes {
            Some(b) => b,
            None => {
                return;
            },
        };
        if world.contains_chunk(key) {
            match find_slot(&self.meshes, key) {
                Some(i) => {
                    proof {
                        lemma_slot_is_entry(self.meshes@, i as int);
                    }
                    let ghost before = self.meshes@;
                    let slot = self.meshes.remove(i);
                    let ChunkSlot { key: slot_key, data } = slot;
                    let mut mesh = data;
                    mesh.update(bytes, manager);
                    let new_slot = ChunkSlot { key: slot_key, data: mesh };
                    self.meshes.insert(i, new_slot);
                    proof {
                        assert(self.meshes@ =~= before.update(i as int, new_slot));
                        lemma_update_slot(before, i as int, new_slot);
                        assert(self.mesh_table().remove(key) =~= old(self).mesh_table().remove(key));
                        assert(self.mesh_table().dom() =~= old(self).mesh_table().dom().insert(key));
                    }
                },
                None => {
                    let mut mesh = ChunkMesh::new();
                    mesh.update(bytes, manager);
                    let ghost before = self.meshes@;
                    let new_slot = ChunkSlot { key, data: mesh };
                    self.meshes.push(new_slot);
                    proof {
                        lemma_push_slot(before, new_slot);
                        assert(self.mesh_table().remove(key) =~= old(self).mesh_table().remove(key));
                        assert(self.mesh_table().dom() =~= old(self).mesh_table().dom().insert(key));
                    }
                },
            }
            world.set_chunk_state(key.0, key.1, key.2, ChunkState::Ready);
            world.mark_chunk_clean(key.0, key.1, key.2);
            proof {
                assert(world.table() =~= old(world).table().insert(
                    key,
                    ChunkData { state: ChunkState::Ready, is_dirty: false, ..old(world).table()[key] },
                ));
            }
        } else {
            let _ = self.remove_mesh(key);
        }
    }

    /// The chunks of the box of chunk keys `range` (in the order of x, then
    /// y, then z) to hand to the mesh workers: those that must be meshed.
    pub fn meshes_to_build(&self, world: &World, range: [i32; 6]) -> (r: Vec<ChunkPos>)
        requires
            self.wf(),
            world.wf(),
            range[0] > i32::MIN && range[1] < i32::MAX,
            range[2] > i32::MIN && range[3] < i32::MAX,
            range[4] > i32::MIN && range[5] < i32::MAX,
        ensures
            exists|keys: Seq<ChunkPos>|
                #[trigger] box_keys(keys, range) && r@ == keys_to_build(keys, self.mesh_table(), self.pending_keys@, world.table()),
    {
        let keys = chunk_keys_in_range(range);
        let mut r: Vec<ChunkPos> = Vec::new();
        let mut i: usize = 0;
        proof {
            assert(keys@.take(0) =~= Seq::<ChunkPos>::empty());
        }
        while i < keys.len()
            invariant
                i <= keys@.len(),
                self.wf(),
                world.wf(),
                forall|k: ChunkPos| #[trigger] keys@.contains(k) <==> in_box(key_ints(k), range),
                range[0] > i32::MIN && range[1] < i32::MAX,
                range[2] > i32::MIN && range[3] < i32::MAX,
                range[4] > i32::MIN && range[5] < i32::MAX,
                r@ == keys_to_build(keys@.take(i as int), self.mesh_table(), self.pending_keys@, world.table()),
            decreases keys@.len() - i,
        {
            let key = keys[i];
            proof {
                assert(keys@.take(i + 1).drop_last() =~= keys@.take(i as int));
                assert(keys@.take(i + 1).last() == key);
                assert(keys@.contains(key));
            }
            if !contains_key(&self.pending_keys, key) && world.contains_chunk(key) {
                let needs = match self.mesh_at(&key) {
                    Some(mesh) => mesh.is_dirty(),
                    None => true,
                };
                if needs && world.are_all_neighbors_ready(key.0, key.1, key.2) {
                    r.push(key);
                }
            }
            i = i + 1;
        }
        proof {
            assert(keys@.take(keys@.len() as int) =~= keys@);
            assert(box_keys(keys@, range));
        }
        r
    }

    /// The stored meshes of the chunks of `rendered`, with their buffer ids,
    /// in the order of `meshes`: the candidates for drawing before the camera
    /// culls them.
    pub fn render_candidates(&self, rendered: &Vec<ChunkPos>) -> (r: Vec<(ChunkPos, MeshId)>)
        ensures
            r@ == drawable(self.meshes@, rendered@),
    {
        let mut r: Vec<(ChunkPos, MeshId)> = Vec::new();
        let mut i: usize = 0;
        proof {
            assert(self.meshes@.take(0) =~= Seq::<ChunkSlot<ChunkMesh>>::empty());
        }
        while i < self.meshes.len()
            invariant
                i <= self.meshes@.len(),
                r@ == drawable(self.meshes@.take(i as int), rendered@),
            decreases self.meshes@.len() - i,
        {
            proof {
                assert(self.meshes@.take(i + 1).drop_last() =~= self.meshes@.take(i as int));
            }
            let key = self.meshes[i].key;
            match self.meshes[i].data.id {
                Some(id) => {
                    if contains_key(rendered, key) {
                        r.push((key, id));
                    }
                },
                None => {},
            }
            i = i + 1;
        }
        proof {
            assert(self.meshes@.take(self.meshes@.len() as int) =~= self.meshes@);
        }
        r
    }
}

/// Whether `q` holds `k`.
fn contains_key(q: &Vec<ChunkPos>, k: ChunkPos) -> (r: bool)
    ensures
        r == q@.contains(k),
{
    let mut i: usize = 0;
    while i < q.len()
        invariant
            i <= q@.len(),
            forall|j: int| 0 <= j < i ==> q@[j] != k,
        decreases q@.len() - i,
    {
        if same_key(q[i], k) {
            proof {
                assert(q@[i as int] == k);
            }
            return true;
        }
        i = i + 1;
    }
    false
}

/// Removes `k` from `q`, keeping the order of the others.
fn remove_key(q: &mut Vec<ChunkPos>, k: ChunkPos)
    requires
        no_duplicates(old(q)@),
    ensures
        final(q)@ == without(old(q)@, k),
        no_duplicates(final(q)@),
        forall|x: ChunkPos| final(q)@.contains(x) <==> old(q)@.contains(x) && x != k,
{
    let ghost q0 = q@;
    let mut src: Vec<ChunkPos> = Vec::new();
    std::mem::swap(&mut src, q);
    let mut i: usize = 0;
    proof {
        assert(q0.take(0) =~= Seq::<ChunkPos>::empty());
    }
    while i < src.len()
        invariant
            i <= src@.len(),
            src@ == q0,
            no_duplicates(q0),
            q@ == without(q0.take(i as int), k),
            no_duplicates(q@),
            forall|x: ChunkPos| q@.contains(x) <==> q0.take(i as int).contains(x) && x != k,
        decreases src@.len() - i,
    {
        let x = src[i];
        proof {
            assert(q0.take(i + 1).drop_last() =~= q0.take(i as int));
            assert(q0.take(i + 1).last() == x);
            assert(!q0.take(i as int).contains(x)) by {
                if q0.take(i as int).contains(x) {
                    let j = choose|j: int| 0 <= j < i && q0.take(i as int)[j] == x;
                    assert(q0[j] != q0[i as int]);
                }
            }
        }
        let ghost before = q@;
        if !same_key(x, k) {
            q.push(x);
            proof {
                assert forall|a: int, b: int| 0 <= a < b < q@.len() implies #[trigger] q@[a] != #[trigger] q@[b] by {
                    if b == q@.len() - 1 {
                        assert(before.contains(q@[a]));
                    } else {
                        assert(before[a] != before[b]);
                    }
                }
            }
        }
        proof {
            assert forall|y: ChunkPos| q@.contains(y) <==> q0.take(i + 1).contains(y) && y != k by {
                if q@.contains(y) && y != x {
                    let a = choose|a: int| 0 <= a < q@.len() && q@[a] == y;
                    assert(before[a] == y);
                    assert(before.contains(y));
                    let j = choose|j: int| 0 <= j < i && q0.take(i as int)[j] == y;
                    assert(q0.take(i + 1)[j] == y);
                }
                if y == x && y != k {
                    assert(q@[q@.len() - 1] == y);
                }
                let t1 = q0.take(i + 1);
                if t1.contains(y) && y != k && y != x {
                    let j = choose|j: int| 0 <= j < t1.len() && t1[j] == y;
                    assert(q0.take(i as int)[j] == y);
                    assert(before.contains(y));
                    let a = choose|a: int| 0 <= a < before.len() && before[a] == y;
                    assert(q@[a] == y);
                }
            }
        }
        i = i + 1;
    }
    proof {
        assert(q0.take(q0.len() as int) =~= q0);
    }
}

} // verus!
