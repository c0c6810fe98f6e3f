use vstd::prelude::*;
use std::collections::HashSet;
use crate::mesh_manager::{MeshEntry, MeshId, MeshManager};

verus! {

broadcast use vstd::std_specs::hash::group_hash_axioms;

/// Size in bytes of one vertex in the mesh buffer.
pub const VERTEX_SIZE: usize = 32;

/// One indirect draw: `vertex_count` vertices from vertex `first_vertex`.
#[derive(Clone, Copy, Debug, PartialEq, Eq, Structural)]
pub struct DrawIndirectArgs {
    pub vertex_count: u32,
    pub instance_count: u32,
    pub first_vertex: u32,
    pub first_instance: u32,
}

/// The draw of the mesh stored in `e`: its whole vertices, one instance.
pub open spec fn draw_of(e: MeshEntry) -> DrawIndirectArgs {
    DrawIndirectArgs {
        vertex_count: (e.length / 32) as u32,
        instance_count: 1,
        first_vertex: (e.position / 32) as u32,
        first_instance: 0,
    }
}

/// The draws of the meshes of `entries` whose id is in `ids`, in order.
pub open spec fn draws_for(entries: Seq<MeshEntry>, ids: Set<MeshId>) -> Seq<DrawIndirectArgs>
    decreases entries.len(),
{
    if entries.len() == 0 {
        Seq::empty()
    } else if ids.contains(entries.last().id) {
        draws_for(entries.drop_last(), ids).push(draw_of(entries.last()))
    } else {
        draws_for(entries.drop_last(), ids)
    }
}

/// The meshes of `entries` whose id is in `ids`, in order.
pub open spec fn entries_for(entries: Seq<MeshEntry>, ids: Set<MeshId>) -> Seq<MeshEntry>
    decreases entries.len(),
{
    if entries.len() == 0 {
        Seq::empty()
    } else if ids.contains(entries.last().id) {
        entries_for(entries.drop_last(), ids).push(entries.last())
    } else {
        entries_for(entries.drop_last(), ids)
    }
}

/// The mesh buffer, the meshes to draw this frame and their indirect draws.
pub struct RenderManager {
    pub mesh_manager: MeshManager,
    pub indirect_commands: Vec<DrawIndirectArgs>,
    pub ids_to_render: HashSet<MeshId>,
}

impl RenderManager {
    pub fn new() -> (r: RenderManager)
        ensures
            r.mesh_manager.wf(),
            r.indirect_commands@.len() == 0,
            r.ids_to_render@ == Set::<MeshId>::empty(),
    {
        RenderManager { mesh_manager: MeshManager::new(), indirect_commands: Vec::new(), ids_to_render: HashSet::new() }
    }

    /// The stored meshes to draw, in the order of the buffer.
    pub fn get_meshes_to_render(&self) -> (r: Vec<MeshEntry>)
        ensures
            r@ == entries_for(self.mesh_manager.data@, self.ids_to_render@),
    {
        let mut r: Vec<MeshEntry> = Vec::new();
        let mut i: usize = 0;
        proof {
            assert(self.mesh_manager.data@.take(0) =~= Seq::<MeshEntry>::empty());
        }
        while i < self.mesh_manager.data.len()
            invariant
                i <= self.mesh_manager.data@.len(),
                r@ == entries_for(self.mesh_manager.data@.take(i as int), self.ids_to_render@),
            decreases self.mesh_manager.data@.len() - i,
        {
            let e = self.mesh_manager.data[i];
            proof {
                assert(self.mesh_manager.data@.take(i + 1).drop_last() =~= self.mesh_manager.data@.take(i as int));
                assert(self.mesh_manager.data@.take(i + 1).last() == e);
            }
            if self.ids_to_render.contains(&e.id) {
                r.push(e);
            }
            i = i + 1;
        }
        proof {
            assert(self.mesh_manager.data@.take(self.mesh_manager.data@.len() as int) =~= self.mesh_manager.data@);
        }
        r
    }

    /// Adds mesh `id` to the meshes to draw.
    pub fn mark_mesh_for_rendering(&mut self, id: MeshId)
        ensures
            final(self).ids_to_render@ == old(self).ids_to_render@.insert(id),
            final(self).mesh_manager == old(self).mesh_manager,
            final(self).indirect_commands@ == old(self).indirect_commands@,
    {
        self.ids_to_render.insert(id);
    }

    /// Adds the meshes `ids` to the meshes to draw.
    pub fn mark_meshes_for_rendering(&mut self, ids: &HashSet<MeshId>)
        ensures
            final(self).ids_to_render@ == old(self).ids_to_render@.union(ids@),
            final(self).mesh_manager == old(self).mesh_manager,
            final(self).indirect_commands@ == old(self).indirect_commands@,
    {
        let ghost before = self.ids_to_render@;
        let keys = ids.iter();
        let ghost all = vstd::std_specs::iter::IteratorSpec::remaining(&keys);
        for id in it: keys
            invariant
                self.mesh_manager == old(self).mesh_manager,
                self.indirect_commands@ == old(self).indirect_commands@,
                it.seq() == all,
                forall|k: MeshId| #[trigger] self.ids_to_render@.contains(k) <==> (before.contains(k) || exists|j: int|
                    0 <= j < it.index() && *it.seq()[j] == k),
        {
            self.ids_to_render.insert(*id);
        }
        proof {
            assert(all.unref().to_set() == ids@);
            assert forall|k: MeshId| #[trigger] ids@.contains(k) implies self.ids_to_render@.contains(k) by {
                assert(all.unref().to_set().contains(k));
                let j = choose|j: int| 0 <= j < all.unref().len() && all.unref()[j] == k;
                assert(*all[j] == k);
            }
            assert forall|k: MeshId| #[trigger] self.ids_to_render@.contains(k) && !before.contains(k) implies ids@.contains(k) by {
                let j = choose|j: int| 0 <= j < all.len() && *all[j] == k;
                assert(all.unref()[j] == k);
                assert(all.unref().contains(k));
            }
        }
        assert(self.ids_to_render@ =~= before.union(ids@));
    }

    /// Draws exactly the meshes `ids` from now on.
    pub fn replace_rendering_queue(&mut self, ids: HashSet<MeshId>)
        ensures
            final(self).ids_to_render@ == ids@,
            final(self).mesh_manager == old(self).mesh_manager,
            final(self).indirect_commands@ == old(self).indirect_commands@,
    {
        self.ids_to_render = ids;
    }

    /// Draws no mesh from now on.
    pub fn clear_render_queue(&mut self)
        ensures
            final(self).ids_to_render@ == Set::<MeshId>::empty(),
            final(self).mesh_manager == old(self).mesh_manager,
            final(self).indirect_commands@ == old(self).indirect_commands@,
    {
        self.ids_to_render.clear();
    }

    /// Rebuilds the indirect draws: one per stored mesh to draw, in the
    /// order of the buffer, counting in whole vertices. Tells whether there
    /// is any draw, that is whether the GPU buffers must be rewritten.
    pub fn update_indirect_commands(&mut self) -> (r: bool)
        requires
            old(self).mesh_manager.wf(),
        ensures
            final(self).indirect_commands@ == draws_for(old(self).mesh_manager.data@, old(self).ids_to_render@),
            r == (final(self).indirect_commands@.len() > 0),
            final(self).mesh_manager == old(self).mesh_manager,
            final(self).ids_to_render@ == old(self).ids_to_render@,
    {
        let mut commands: Vec<DrawIndirectArgs> = Vec::new();
        let mut i: usize = 0;
        let ghost data = self.mesh_manager.data@;
        proof {
            assert(data.take(0) =~= Seq::<MeshEntry>::empty());
        }
        while i < self.mesh_manager.data.len()
            invariant
                i <= data.len(),
                data == self.mesh_manager.data@,
                self.mesh_manager.wf(),
                commands@ == draws_for(data.take(i as int), self.ids_to_render@),
            decreases data.len() - i,
        {
            let e = self.mesh_manager.data[i];
            proof {
                assert(data.take(i + 1).drop_last() =~= data.take(i as int));
                assert(data.take(i + 1).last() == e);
                assert(e.position + e.length <= self.mesh_manager.capacity);
            }
            if self.ids_to_render.contains(&e.id) {
                commands.push(
                    DrawIndirectArgs {
                        vertex_count: (e.length / VERTEX_SIZE) as u32,
                        instance_count: 1,
                        first_vertex: (e.position / VERTEX_SIZE) as u32,
                        first_instance: 0,
                    },
                );
            }
            i = i + 1;
        }
        proof {
            assert(data.take(data.len() as int) =~= data);
        }
        let any = commands.len() > 0;
        self.indirect_commands = commands;
        any
    }
}

} // verus!
