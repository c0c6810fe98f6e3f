use vstd::prelude::*;
use crate::padded_chunk::{PaddedChunk, in_padded};
use crate::mesh_manager::{
    MeshEntry, MeshId, MeshManager, DataEntry, AllocError, MAX_GROWABLE_BYTES, total_len, freed, added, updated, update_fits,
    lemma_total_len_remove,
};

verus! {

/// The six directions a block face can point to.
#[derive(Clone, Copy, Debug, PartialEq, Eq, Structural)]
pub enum Direction {
    Left,
    Bottom,
    Back,
    Right,
    Top,
    Front,
}

impl Direction {
    pub open spec fn spec_to_usize(&self) -> usize {
        match *self {
            Direction::Left => 0,
            Direction::Bottom => 1,
            Direction::Back => 2,
            Direction::Right => 3,
            Direction::Top => 4,
            Direction::Front => 5,
        }
    }

    /// Index of the direction: -X, -Y, -Z, +X, +Y, +Z.
    #[verifier::when_used_as_spec(spec_to_usize)]
    pub fn to_usize(&self) -> (r: usize)
        ensures
            r == self.spec_to_usize(),
    {
        match *self {
            Direction::Left => 0,
            Direction::Bottom => 1,
            Direction::Back => 2,
            Direction::Right => 3,
            Direction::Top => 4,
            Direction::Front => 5,
        }
    }

    pub open spec fn spec_is_negative(&self) -> bool {
        *self == Direction::Left || *self == Direction::Bottom || *self == Direction::Back
    }

    /// The direction points towards decreasing coordinates.
    #[verifier::when_used_as_spec(spec_is_negative)]
    pub fn is_negative(&self) -> (r: bool)
        ensures
            r == self.spec_is_negative(),
    {
        match *self {
            Direction::Left | Direction::Bottom | Direction::Back => true,
            _ => false,
        }
    }

    pub open spec fn spec_is_positive(&self) -> bool {
        !self.spec_is_negative()
    }

    /// The direction points towards increasing coordinates.
    #[verifier::when_used_as_spec(spec_is_positive)]
    pub fn is_positive(&self) -> (r: bool)
        ensures
            r == self.spec_is_positive(),
    {
        !self.is_negative()
    }
}

/// The four corners of a block face.
#[derive(Clone, Copy, Debug, PartialEq, Eq, Structural)]
pub enum Corner {
    TopLeft,
    TopRight,
    BottomLeft,
    BottomRight,
}

impl Corner {
    pub open spec fn spec_to_usize(&self) -> usize {
        match *self {
            Corner::TopLeft => 0,
            Corner::TopRight => 1,
            Corner::BottomLeft => 2,
            Corner::BottomRight => 3,
        }
    }

    #[verifier::when_used_as_spec(spec_to_usize)]
    pub fn to_usize(&self) -> (r: usize)
        ensures
            r == self.spec_to_usize(),
    {
        match *self {
            Corner::TopLeft => 0,
            Corner::TopRight => 1,
            Corner::BottomLeft => 2,
            Corner::BottomRight => 3,
        }
    }
}

/// Light reaching a face corner (0: dark, 3: fully lit) from whether the
/// corner block and the two side blocks next to it are solid: two solid
/// sides close the corner whatever the corner block is; otherwise each
/// solid block takes one level.
pub open spec fn ao_level(corner: bool, side1: bool, side2: bool) -> u8 {
    if side1 && side2 {
        0
    } else {
        (3 - ((if side1 { 1int } else { 0 }) + (if side2 { 1int } else { 0 }) + (if corner { 1int } else { 0 }))) as u8
    }
}

/// An integer vector.
pub type Offset = (i32, i32, i32);

/// `pos + off` lies in the padded chunk.
pub open spec fn offset_in_padded(pos: [i32; 3], off: Offset) -> bool {
    in_padded(pos[0] + off.0, pos[1] + off.1, pos[2] + off.2)
}

/// Whether the block at `pos + off` of the padded chunk is solid.
pub open spec fn solid_at(chunk: &PaddedChunk, pos: [i32; 3], off: Offset) -> bool {
    chunk.block_at(pos[0] + off.0, pos[1] + off.1, pos[2] + off.2).spec_is_solid()
}

/// The light level of the corner whose neighbours are `[corner, side1, side2]` around `pos`.
pub open spec fn corner_ao(chunk: &PaddedChunk, pos: [i32; 3], n: [Offset; 3]) -> u8 {
    ao_level(solid_at(chunk, pos, n[0]), solid_at(chunk, pos, n[1]), solid_at(chunk, pos, n[2]))
}

/// The light level read from the table indexed by `corner << 2 | side1 << 1 | side2`
/// equals the level counted by `ao_level`.
pub proof fn lemma_ao_table(corner: bool, side1: bool, side2: bool)
    ensures
        seq![3u8, 2, 2, 0, 2, 1, 1, 0][(if corner { 4int } else { 0 }) + (if side1 { 2int } else { 0 }) + (if side2 { 1int } else { 0 })]
            == ao_level(corner, side1, side2),
{
}

/// The axes `(u, v, normal)` of a face: two axes across it and the direction it looks to.
pub open spec fn face_axes(f: Direction) -> ((int, int, int), (int, int, int), (int, int, int)) {
    match f {
        Direction::Left => ((0, 1, 0), (0, 0, 1), (-1, 0, 0)),
        Direction::Bottom => ((1, 0, 0), (0, 0, 1), (0, -1, 0)),
        Direction::Back => ((1, 0, 0), (0, 1, 0), (0, 0, -1)),
        Direction::Right => ((0, 1, 0), (0, 0, 1), (1, 0, 0)),
        Direction::Top => ((1, 0, 0), (0, 0, 1), (0, 1, 0)),
        Direction::Front => ((1, 0, 0), (0, 1, 0), (0, 0, 1)),
    }
}

/// The signs `(su, sv)` that move from a face's centre towards a corner along `u` and `v`.
pub open spec fn corner_signs(c: Corner) -> (int, int) {
    match c {
        Corner::TopLeft => (-1, 1),
        Corner::TopRight => (1, 1),
        Corner::BottomLeft => (-1, -1),
        Corner::BottomRight => (1, -1),
    }
}

/// The neighbours `[corner, side1, side2]` of a face corner, as offsets
/// from the block: `side1 = u * su + normal`, `side2 = v * sv + normal`,
/// `corner = side1 + side2 - normal`.
pub open spec fn corner_offsets(u: (int, int, int), v: (int, int, int), n: (int, int, int), su: int, sv: int) -> (
    (int, int, int),
    (int, int, int),
    (int, int, int),
) {
    let side1 = (u.0 * su + n.0, u.1 * su + n.1, u.2 * su + n.2);
    let side2 = (v.0 * sv + n.0, v.1 * sv + n.1, v.2 * sv + n.2);
    let corner = (side1.0 + side2.0 - n.0, side1.1 + side2.1 - n.1, side1.2 + side2.2 - n.2);
    (corner, side1, side2)
}

/// The offset `o` is the vector `t`.
pub open spec fn offset_is(o: Offset, t: (int, int, int)) -> bool {
    o.0 == t.0 && o.1 == t.1 && o.2 == t.2
}

/// The offsets of `r` are `t`.
pub open spec fn offsets_are(r: [Offset; 3], t: ((int, int, int), (int, int, int), (int, int, int))) -> bool {
    offset_is(r[0], t.0) && offset_is(r[1], t.1) && offset_is(r[2], t.2)
}

/// `o` lies one step along the axis vector `n`, on the side `n` points to,
/// and at most one step away on every other axis.
pub open spec fn in_front(o: (int, int, int), n: (int, int, int)) -> bool {
    &&& n.0 != 0 ==> o.0 == n.0
    &&& n.1 != 0 ==> o.1 == n.1
    &&& n.2 != 0 ==> o.2 == n.2
    &&& -1 <= o.0 <= 1 && -1 <= o.1 <= 1 && -1 <= o.2 <= 1
}

/// The AO neighbours of `corner` on `face`, with `u` and `v` swapped
/// except on the front and back faces.
pub open spec fn ao_neighbors_spec(face: Direction, corner: Corner) -> ((int, int, int), (int, int, int), (int, int, int)) {
    let (u, v, n) = face_axes(face);
    let (su, sv) = corner_signs(corner);
    if face == Direction::Front || face == Direction::Back {
        corner_offsets(u, v, n, su, sv)
    } else {
        corner_offsets(v, u, n, su, sv)
    }
}

/// The AO neighbours of `corner` on `face`, with `u` and `v` swapped
/// except on the top and bottom faces.
pub open spec fn ao_offsets_spec(face: Direction, corner: Corner) -> ((int, int, int), (int, int, int), (int, int, int)) {
    let (u, v, n) = face_axes(face);
    let (su, sv) = corner_signs(corner);
    if face == Direction::Top || face == Direction::Bottom {
        corner_offsets(u, v, n, su, sv)
    } else {
        corner_offsets(v, u, n, su, sv)
    }
}

/// Every AO neighbour of a face corner lies in the layer the face looks
/// into (one step along the normal), touching the block by an edge or a
/// vertex; the corner block is the sum of the two side offsets minus the normal.
#[verifier::spinoff_prover]
pub proof fn lemma_ao_neighbours_in_front(face: Direction, corner: Corner)
    ensures
        in_front(ao_neighbors_spec(face, corner).0, face_axes(face).2),
        in_front(ao_neighbors_spec(face, corner).1, face_axes(face).2),
        in_front(ao_neighbors_spec(face, corner).2, face_axes(face).2),
        in_front(ao_offsets_spec(face, corner).0, face_axes(face).2),
        in_front(ao_offsets_spec(face, corner).1, face_axes(face).2),
        in_front(ao_offsets_spec(face, corner).2, face_axes(face).2),
{
        match face {
            Direction::Left => match corner { Corner::TopLeft => {
                assert(face_axes(face) == ((0int, 1int, 0int), (0int, 0int, 1int), (-1int, 0int, 0int)));
                assert(corner_signs(corner) == (-1int, 1int));
                assert(ao_neighbors_spec(face, corner).0 == (-1int, 1int, -1int));
            }, Corner::TopRight => {}, Corner::BottomLeft => {}, Corner::BottomRight => {} },
            Direction::Bottom => match corner { Corner::TopLeft => {}, Corner::TopRight => {}, Corner::BottomLeft => {}, Corner::BottomRight => {} },
            Direction::Back => match corner { Corner::TopLeft => {}, Corner::TopRight => {}, Corner::BottomLeft => {}, Corner::BottomRight => {} },
            Direction::Right => match corner { Corner::TopLeft => {}, Corner::TopRight => {}, Corner::BottomLeft => {}, Corner::BottomRight => {} },
            Direction::Top => match corner { Corner::TopLeft => {}, Corner::TopRight => {}, Corner::BottomLeft => {}, Corner::BottomRight => {} },
            Direction::Front => match corner { Corner::TopLeft => {}, Corner::TopRight => {}, Corner::BottomLeft => {}, Corner::BottomRight => {} },
        }
}

/// `b` is `a` reflected across the plane normal to `axis` (0: x, 1: y, 2: z).
pub open spec fn reflected(a: (int, int, int), b: (int, int, int), axis: int) -> bool {
    &&& b.0 == (if axis == 0 { -a.0 } else { a.0 })
    &&& b.1 == (if axis == 1 { -a.1 } else { a.1 })
    &&& b.2 == (if axis == 2 { -a.2 } else { a.2 })
}

/// The three neighbours `b` are those of `a` reflected along `axis`.
pub open spec fn reflected_neighbours(
    a: ((int, int, int), (int, int, int), (int, int, int)),
    b: ((int, int, int), (int, int, int), (int, int, int)),
    axis: int,
) -> bool {
    reflected(a.0, b.0, axis) && reflected(a.1, b.1, axis) && reflected(a.2, b.2, axis)
}

/// Opposite faces see mirrored neighbourhoods: for every corner, the AO
/// neighbours of the +x face are those of the -x face reflected along x,
/// those of the +y face those of the -y face reflected along y, and those
/// of the +z face those of the -z face reflected along z; for both tables.
pub proof fn lemma_ao_opposite_faces_mirror(corner: Corner)
    ensures
        reflected_neighbours(ao_neighbors_spec(Direction::Left, corner), ao_neighbors_spec(Direction::Right, corner), 0),
        reflected_neighbours(ao_neighbors_spec(Direction::Bottom, corner), ao_neighbors_spec(Direction::Top, corner), 1),
        reflected_neighbours(ao_neighbors_spec(Direction::Back, corner), ao_neighbors_spec(Direction::Front, corner), 2),
        reflected_neighbours(ao_offsets_spec(Direction::Left, corner), ao_offsets_spec(Direction::Right, corner), 0),
        reflected_neighbours(ao_offsets_spec(Direction::Bottom, corner), ao_offsets_spec(Direction::Top, corner), 1),
        reflected_neighbours(ao_offsets_spec(Direction::Back, corner), ao_offsets_spec(Direction::Front, corner), 2),
{
}

/// The axes along which the corners of `face` spread, as `get_ao_neighbors`
/// reads them: the first carries a corner's left/right sign (z on the x and
/// y faces, x on the z faces), the second its bottom/top sign (y on the x
/// and z faces, x on the y faces).
pub open spec fn ao_corner_axes(face: Direction) -> ((int, int, int), (int, int, int)) {
    match face {
        Direction::Left | Direction::Right => ((0, 0, 1), (0, 1, 0)),
        Direction::Bottom | Direction::Top => ((0, 0, 1), (1, 0, 0)),
        Direction::Back | Direction::Front => ((1, 0, 0), (0, 1, 0)),
    }
}

/// Every face reads its corners the same way: from the block in front of
/// the face (one step along its outward normal), the first side block steps
/// towards the corner's left (-1) or right (+1) side, the second towards its
/// bottom (-1) or top (+1) side, and the corner block takes both steps; so
/// the left corners of the x and y faces read the blocks on the -z side.
pub proof fn lemma_ao_neighbours_corner_steps(face: Direction, corner: Corner)
    ensures
        ({
            let (n, t1, t2) = (face_axes(face).2, ao_corner_axes(face).0, ao_corner_axes(face).1);
            let (su, sv) = (
                if corner == Corner::TopLeft || corner == Corner::BottomLeft { -1int } else { 1int },
                if corner == Corner::BottomLeft || corner == Corner::BottomRight { -1int } else { 1int },
            );
            let r = ao_neighbors_spec(face, corner);
            &&& r.1 == (n.0 + su * t1.0, n.1 + su * t1.1, n.2 + su * t1.2)
            &&& r.2 == (n.0 + sv * t2.0, n.1 + sv * t2.1, n.2 + sv * t2.2)
            &&& r.0 == (n.0 + su * t1.0 + sv * t2.0, n.1 + su * t1.1 + sv * t2.1, n.2 + su * t1.2 + sv * t2.2)
        }),
{
    match face {
        Direction::Left => {},
        Direction::Bottom => {},
        Direction::Back => {},
        Direction::Right => {},
        Direction::Top => {},
        Direction::Front => {},
    }
}

/// The axes `(u, v, normal)` of `face`.
fn face_axes_exec(face: Direction) -> (r: (Offset, Offset, Offset))
    ensures
        offset_is(r.0, face_axes(face).0),
        offset_is(r.1, face_axes(face).1),
        offset_is(r.2, face_axes(face).2),
{
    match face {
        Direction::Left => ((0, 1, 0), (0, 0, 1), (-1, 0, 0)),
        Direction::Bottom => ((1, 0, 0), (0, 0, 1), (0, -1, 0)),
        Direction::Back => ((1, 0, 0), (0, 1, 0), (0, 0, -1)),
        Direction::Right => ((0, 1, 0), (0, 0, 1), (1, 0, 0)),
        Direction::Top => ((1, 0, 0), (0, 0, 1), (0, 1, 0)),
        Direction::Front => ((1, 0, 0), (0, 1, 0), (0, 0, 1)),
    }
}

/// The signs `(su, sv)` of `corner`.
fn corner_signs_exec(corner: Corner) -> (r: (i32, i32))
    ensures
        r.0 == corner_signs(corner).0,
        r.1 == corner_signs(corner).1,
{
    match corner {
        Corner::TopLeft => (-1, 1),
        Corner::TopRight => (1, 1),
        Corner::BottomLeft => (-1, -1),
        Corner::BottomRight => (1, -1),
    }
}

/// `[corner, side1, side2]` from the axes and signs of a corner.
fn corner_offsets_exec(u: Offset, v: Offset, normal: Offset, su: i32, sv: i32) -> (r: [Offset; 3])
    requires
        -1 <= u.0 <= 1 && -1 <= u.1 <= 1 && -1 <= u.2 <= 1,
        -1 <= v.0 <= 1 && -1 <= v.1 <= 1 && -1 <= v.2 <= 1,
        -1 <= normal.0 <= 1 && -1 <= normal.1 <= 1 && -1 <= normal.2 <= 1,
        -1 <= su <= 1 && -1 <= sv <= 1,
    ensures
        offsets_are(
            r,
            corner_offsets(
                (u.0 as int, u.1 as int, u.2 as int),
                (v.0 as int, v.1 as int, v.2 as int),
                (normal.0 as int, normal.1 as int, normal.2 as int),
                su as int,
                sv as int,
            ),
        ),
{
    proof {
        assert(-1 <= u.0 * su <= 1 && -1 <= u.1 * su <= 1 && -1 <= u.2 * su <= 1) by (nonlinear_arith)
            requires -1 <= u.0 <= 1 && -1 <= u.1 <= 1 && -1 <= u.2 <= 1, -1 <= su <= 1;
        assert(-1 <= v.0 * sv <= 1 && -1 <= v.1 * sv <= 1 && -1 <= v.2 * sv <= 1) by (nonlinear_arith)
            requires -1 <= v.0 <= 1 && -1 <= v.1 <= 1 && -1 <= v.2 <= 1, -1 <= sv <= 1;
    }
    let side1 = (u.0 * su + normal.0, u.1 * su + normal.1, u.2 * su + normal.2);
    let side2 = (v.0 * sv + normal.0, v.1 * sv + normal.1, v.2 * sv + normal.2);
    let corner = (side1.0 + side2.0 - normal.0, side1.1 + side2.1 - normal.1, side1.2 + side2.2 - normal.2);
    [corner, side1, side2]
}

/// What storing the vertices `bytes` of mesh `pre` in the buffer manager
/// `mgr` does (leaving the mesh `post` and the manager `mgr2`): the mesh is
/// no longer to be rebuilt; a stored mesh left without vertices is freed, a
/// stored one is updated, a new one with vertices is added.
pub open spec fn stored(pre: ChunkMesh, post: ChunkMesh, bytes: Seq<u8>, mgr: MeshManager, mgr2: MeshManager) -> bool {
    &&& !post.dirty
    &&& match pre.id {
        Some(id) => if bytes.len() == 0 {
            post.id is None && exists|r: Result<(), AllocError>| freed(mgr, mgr2, id, r)
        } else {
            post.id == pre.id && exists|r: Result<(), AllocError>| updated(mgr, mgr2, id, bytes, r)
        },
        None => if bytes.len() == 0 {
            post.id is None && mgr2 == mgr
        } else {
            exists|id: MeshId| added(mgr, mgr2, bytes, Ok(id)) && post.id == Some(id)
        },
    }
}

/// The buffer manager can store `n` fresh bytes for the mesh stored under
/// `mesh_id` (or not stored yet): there is nothing to store, or the update
/// keeps the stored bytes within their limit, or an id is left to give and
/// a grown buffer would hold the bytes.
pub open spec fn mesh_store_ok(mesh_id: Option<MeshId>, mgr: MeshManager, n: int) -> bool {
    n == 0 || match mesh_id {
        Some(id) => update_fits(mgr, id, n),
        None => mgr.can_issue_id() && (mgr.must_grow(n) ==> mgr.needed_for(n) <= MAX_GROWABLE_BYTES),
    }
}

/// The stored bytes of entries are never negative in sum.
proof fn lemma_total_len_nonneg(data: Seq<MeshEntry>)
    ensures
        total_len(data) >= 0,
    decreases data.len(),
{
    if data.len() > 0 {
        lemma_total_len_nonneg(data.drop_last());
    }
}

/// Whether the buffer manager can store `n` fresh bytes for the mesh stored
/// under `mesh_id` (see `mesh_store_ok`).
pub fn can_store(manager: &MeshManager, mesh_id: Option<MeshId>, n: usize) -> (r: bool)
    requires
        manager.wf(),
    ensures
        r == mesh_store_ok(mesh_id, *manager, n as int),
{
    if n == 0 {
        return true;
    }
    let total = manager.total_data_length();
    match mesh_id {
        Some(id) => match manager.find_entry(id) {
            Some(i) => {
                let len = manager.data[i].length;
                proof {
                    lemma_total_len_remove(manager.data@, i as int);
                    lemma_total_len_nonneg(manager.data@.remove(i as int));
                    assert forall|j: int|
                        0 <= j < manager.data@.len() && (#[trigger] manager.data@[j]).id == id implies j == i by {
                        if j < i {
                            assert(manager.data@[j].id != manager.data@[i as int].id);
                        } else if j > i {
                            assert(manager.data@[i as int].id != manager.data@[j].id);
                        }
                    }
                }
                n <= MAX_GROWABLE_BYTES && total - len <= MAX_GROWABLE_BYTES - n
            },
            None => true,
        },
        None => {
            let ids_left = manager.free_ids.len() > 0 || manager.next_id < u32::MAX;
            let grow = manager.find_place(n).is_none();
            ids_left && (!grow || (total <= MAX_GROWABLE_BYTES && n <= MAX_GROWABLE_BYTES - total))
        },
    }
}

/// The GPU mesh of one chunk: its id in the mesh buffer, once stored, and
/// whether it must be rebuilt.
pub struct ChunkMesh {
    pub id: Option<MeshId>,
    pub dirty: bool,
}

impl ChunkMesh {
    /// A mesh not stored yet, to be built.
    pub fn new() -> (m: ChunkMesh)
        ensures
            m.id is None,
            m.dirty,
    {
        ChunkMesh { id: None, dirty: true }
    }

    pub fn is_dirty(&self) -> (r: bool)
        ensures
            r == self.dirty,
    {
        self.dirty
    }

    /// Stores the freshly built vertices `vertex_bytes` of the mesh in
    /// `manager`: a mesh left without vertices is freed, a stored one is
    /// updated, a new one is added; the mesh is then no longer to be rebuilt.
    /// What the manager answers a free or an update does not matter here.
    pub fn update(&mut self, vertex_bytes: &[u8], manager: &mut MeshManager)
        requires
            old(manager).wf(),
            mesh_store_ok(old(self).id, *old(manager), vertex_bytes@.len() as int),
        ensures
            final(manager).wf(),
            stored(*old(self), *final(self), vertex_bytes@, *old(manager), *final(manager)),
    {
        self.dirty = false;
        match self.id {
            Some(mesh_id) => {
                if vertex_bytes.len() == 0 {
                    let _ = manager.free_data(mesh_id);
                    self.id = None;
                } else {
                    let _ = manager.update_data(DataEntry::new(mesh_id, vertex_bytes));
                }
            },
            None => {
                if vertex_bytes.len() == 0 {
                    return;
                }
                match manager.add_data(vertex_bytes) {
                    Ok(id) => {
                        self.id = Some(id);
                    },
                    Err(_) => {},
                }
            },
        }
    }

    /// Marks the mesh as to be rebuilt.
    pub fn set_dirty(&mut self)
        ensures
            final(self).dirty,
            final(self).id == old(self).id,
    {
        self.dirty = true;
    }

    /// The AO neighbours `[corner, side1, side2]` of `corner` on `face`,
    /// with the face's axes swapped except on the front and back faces.
    pub fn get_ao_neighbors(face: Direction, corner: Corner) -> (r: [Offset; 3])
        ensures
            offsets_are(r, ao_neighbors_spec(face, corner)),
    {
        let (u, v, normal) = face_axes_exec(face);
        let (su, sv) = corner_signs_exec(corner);
        let (u, v) = match face {
            Direction::Front | Direction::Back => (u, v),
            _ => (v, u),
        };
        corner_offsets_exec(u, v, normal, su, sv)
    }

    /// The AO neighbours `[corner, side1, side2]` of `corner` on `face`,
    /// with the face's axes swapped except on the top and bottom faces.
    pub fn get_ao_offsets(face: Direction, corner: Corner) -> (r: [Offset; 3])
        ensures
            offsets_are(r, ao_offsets_spec(face, corner)),
    {
        let (u, v, normal) = face_axes_exec(face);
        let (su, sv) = corner_signs_exec(corner);
        let (u, v) = match face {
            Direction::Top | Direction::Bottom => (u, v),
            _ => (v, u),
        };
        corner_offsets_exec(u, v, normal, su, sv)
    }

    /// Light level of a face corner, read from a table; the neighbours are
    /// offsets from `pos`, in padded coordinates.
    pub fn get_face_ao(chunk: &PaddedChunk, pos: [i32; 3], neighbors: [Offset; 3]) -> (r: u8)
        requires
            chunk.wf(),
            offset_in_padded(pos, neighbors[0]),
            offset_in_padded(pos, neighbors[1]),
            offset_in_padded(pos, neighbors[2]),
        ensures
            r == corner_ao(chunk, pos, neighbors),
            r <= 3,
    {
        let ao_table: [u8; 8] = [3, 2, 2, 0, 2, 1, 1, 0];
        let corner_solid = chunk.get_block_from_xyz_unsafe(
            pos[0] + neighbors[0].0,
            pos[1] + neighbors[0].1,
            pos[2] + neighbors[0].2,
        ).is_solid();
        let side1_solid = chunk.get_block_from_xyz_unsafe(
            pos[0] + neighbors[1].0,
            pos[1] + neighbors[1].1,
            pos[2] + neighbors[1].2,
        ).is_solid();
        let side2_solid = chunk.get_block_from_xyz_unsafe(
            pos[0] + neighbors[2].0,
            pos[1] + neighbors[2].1,
            pos[2] + neighbors[2].2,
        ).is_solid();
        let idx: usize = (if corner_solid { 4 } else { 0 }) + (if side1_solid { 2 } else { 0 }) + (if side2_solid { 1 } else { 0 });
        proof {
            lemma_ao_table(corner_solid, side1_solid, side2_solid);
            assert(ao_table@ == seq![3u8, 2, 2, 0, 2, 1, 1, 0]);
        }
        ao_table[idx]
    }

    /// Light level of a face corner, counted from its neighbours; `pos` and the
    /// neighbours are in the central chunk's coordinates.
    pub fn get_v_ao(chunk: &PaddedChunk, pos: [i32; 3], neighbors: [Offset; 3]) -> (r: u8)
        requires
            chunk.wf(),
            -1 <= pos[0] + neighbors[0].0 <= 16 && -1 <= pos[1] + neighbors[0].1 <= 16 && -1 <= pos[2] + neighbors[0].2 <= 16,
            -1 <= pos[0] + neighbors[1].0 <= 16 && -1 <= pos[1] + neighbors[1].1 <= 16 && -1 <= pos[2] + neighbors[1].2 <= 16,
            -1 <= pos[0] + neighbors[2].0 <= 16 && -1 <= pos[1] + neighbors[2].1 <= 16 && -1 <= pos[2] + neighbors[2].2 <= 16,
        ensures
            r == ao_level(
                chunk.block_at(pos[0] + neighbors[0].0 + 1, pos[1] + neighbors[0].1 + 1, pos[2] + neighbors[0].2 + 1).spec_is_solid(),
                chunk.block_at(pos[0] + neighbors[1].0 + 1, pos[1] + neighbors[1].1 + 1, pos[2] + neighbors[1].2 + 1).spec_is_solid(),
                chunk.block_at(pos[0] + neighbors[2].0 + 1, pos[1] + neighbors[2].1 + 1, pos[2] + neighbors[2].2 + 1).spec_is_solid(),
            ),
            r <= 3,
    {
        let corner_solid: u8 = if chunk.get_block_from_chunk_xyz(
            pos[0] + neighbors[0].0,
            pos[1] + neighbors[0].1,
            pos[2] + neighbors[0].2,
        ).is_solid() { 1 } else { 0 };
        let side1_solid: u8 = if chunk.get_block_from_chunk_xyz(
            pos[0] + neighbors[1].0,
            pos[1] + neighbors[1].1,
            pos[2] + neighbors[1].2,
        ).is_solid() { 1 } else { 0 };
        let side2_solid: u8 = if chunk.get_block_from_chunk_xyz(
            pos[0] + neighbors[2].0,
            pos[1] + neighbors[2].1,
            pos[2] + neighbors[2].2,
        ).is_solid() { 1 } else { 0 };
        if side1_solid == 1 && side2_solid == 1 {
            0
        } else {
            3 - (side1_solid + side2_solid + corner_solid)
        }
    }
}

} // verus!
