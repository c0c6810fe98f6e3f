use vstd::prelude::*;
use crate::block::BlockInstance;
use crate::greedy::{FaceMask, GreedyQuad, cell, greedy_merge, greedy_scan, lemma_greedy_scan_unique};
use crate::meshing::{
    ChunkMesh, Corner, Direction, ao_level, ao_neighbors_spec, ao_offsets_spec, face_axes, in_front,
    lemma_ao_neighbours_in_front,
};
use crate::chunk::Chunk;
use crate::padded_chunk::{PaddedChunk, MeshSnapshot, neighbour_ok, snapshot_block, padded_index, in_padded};

verus! {

/// A corner of a meshed face, on the block grid: world coordinates, the
/// texture layer, the light level (0: dark, 3: lit) and texture coordinates
/// counted in blocks.
#[derive(Clone, Copy, Debug, PartialEq, Eq, Structural)]
pub struct GridVertex {
    pub x: i64,
    pub y: i64,
    pub z: i64,
    pub tex_layer: u32,
    pub ao: u8,
    pub u: u8,
    pub v: u8,
}

/// The faces looking along `axis` (0: x, 1: y, 2: z): positive, then negative.
pub open spec fn axis_faces(axis: int) -> (Direction, Direction) {
    if axis == 0 {
        (Direction::Right, Direction::Left)
    } else if axis == 1 {
        (Direction::Top, Direction::Bottom)
    } else {
        (Direction::Front, Direction::Back)
    }
}

/// Padded coordinates of the block behind cell `(u, v)` of the mask of
/// layer `d` along `axis`; the block ahead of the cell is at layer `d + 1`.
/// Along x, `u` runs on y and `v` on z; along y, `u` on z and `v` on x;
/// along z, `u` on x and `v` on y.
pub open spec fn layer_pos(axis: int, d: int, u: int, v: int) -> (int, int, int) {
    if axis == 0 {
        (d, u + 1, v + 1)
    } else if axis == 1 {
        (v + 1, d, u + 1)
    } else {
        (u + 1, v + 1, d)
    }
}

/// The block of the padded chunk `blocks` at `pos`.
pub open spec fn block_of(blocks: Seq<BlockInstance>, pos: (int, int, int)) -> BlockInstance {
    blocks[padded_index(pos.0, pos.1, pos.2)]
}

/// `pos + o`.
pub open spec fn shifted(pos: (int, int, int), o: (int, int, int)) -> (int, int, int) {
    (pos.0 + o.0, pos.1 + o.1, pos.2 + o.2)
}

/// Light level of a face corner of the block at `pos`, from its neighbours
/// `[corner, side1, side2]` given as offsets.
pub open spec fn corner_light(
    blocks: Seq<BlockInstance>,
    pos: (int, int, int),
    n: ((int, int, int), (int, int, int), (int, int, int)),
) -> u8 {
    ao_level(
        block_of(blocks, shifted(pos, n.0)).spec_is_solid(),
        block_of(blocks, shifted(pos, n.1)).spec_is_solid(),
        block_of(blocks, shifted(pos, n.2)).spec_is_solid(),
    )
}

/// The neighbours of a face corner: those of `get_ao_offsets` for the
/// mesher working in chunk coordinates (`legacy`), else those of `get_ao_neighbors`.
pub open spec fn corner_neighbours(legacy: bool, face: Direction, corner: Corner) -> (
    (int, int, int),
    (int, int, int),
    (int, int, int),
) {
    if legacy {
        ao_offsets_spec(face, corner)
    } else {
        ao_neighbors_spec(face, corner)
    }
}

/// Four light levels in one byte: bottom left, bottom right, top left, top
/// right, from the high bits down, two bits each.
pub open spec fn pack_ao(a0: u8, a1: u8, a2: u8, a3: u8) -> u8 {
    (a0 * 64 + a1 * 16 + a2 * 4 + a3) as u8
}

/// Light level `k` (0: bottom left .. 3: top right) of a packed byte.
pub open spec fn ao_part(packed: u8, k: int) -> u8 {
    if k == 0 {
        packed / 64
    } else if k == 1 {
        (packed / 16) % 4
    } else if k == 2 {
        (packed / 4) % 4
    } else {
        packed % 4
    }
}

/// The packed light levels of the four corners of `face` on the block at `pos`.
#[verifier::opaque]
pub open spec fn face_light(blocks: Seq<BlockInstance>, pos: (int, int, int), face: Direction, legacy: bool) -> u8 {
    pack_ao(
        corner_light(blocks, pos, corner_neighbours(legacy, face, Corner::BottomLeft)),
        corner_light(blocks, pos, corner_neighbours(legacy, face, Corner::BottomRight)),
        corner_light(blocks, pos, corner_neighbours(legacy, face, Corner::TopLeft)),
        corner_light(blocks, pos, corner_neighbours(legacy, face, Corner::TopRight)),
    )
}

/// Cell `(u, v)` of the mask of layer `d` along `axis`: no face where the
/// blocks on both sides are both solid or both not; else the face of the
/// solid one, looking towards the other, with its texture and light.
pub open spec fn mask_cell(blocks: Seq<BlockInstance>, axis: int, d: int, u: int, v: int, legacy: bool) -> FaceMask {
    let behind = layer_pos(axis, d, u, v);
    let ahead = layer_pos(axis, d + 1, u, v);
    let b = block_of(blocks, behind);
    let a = block_of(blocks, ahead);
    if b.spec_is_solid() == a.spec_is_solid() {
        FaceMask::spec_empty()
    } else if a.spec_is_solid() {
        FaceMask {
            visited: false,
            block_id: a.spec_texture_index(),
            face: axis_faces(axis).1,
            ao: face_light(blocks, ahead, axis_faces(axis).1, legacy),
        }
    } else {
        FaceMask {
            visited: false,
            block_id: b.spec_texture_index(),
            face: axis_faces(axis).0,
            ao: face_light(blocks, behind, axis_faces(axis).0, legacy),
        }
    }
}

/// The 16 x 16 mask of layer `d` along `axis`, cell `(u, v)` at `u * 16 + v`.
pub open spec fn layer_mask(blocks: Seq<BlockInstance>, axis: int, d: int, legacy: bool) -> Seq<FaceMask> {
    Seq::new(256, |c: int| mask_cell(blocks, axis, d, c / 16, c % 16, legacy))
}

/// World coordinates of grid point `(u, v)` of layer `d` along `axis`, in
/// the chunk at chunk coordinates `(cx, cy, cz)`.
pub open spec fn grid_point(axis: int, cx: int, cy: int, cz: int, d: int, u: int, v: int) -> (int, int, int) {
    let local = if axis == 0 {
        (d, u, v)
    } else if axis == 1 {
        (v, d, u)
    } else {
        (u, v, d)
    };
    (cx * 16 + local.0, cy * 16 + local.1, cz * 16 + local.2)
}

/// A vertex at `pos` with texture coordinates `uv`.
pub open spec fn grid_vertex(pos: (int, int, int), tex_layer: u32, ao: u8, uv: (int, int)) -> GridVertex {
    GridVertex { x: pos.0 as i64, y: pos.1 as i64, z: pos.2 as i64, tex_layer, ao, u: uv.0 as u8, v: uv.1 as u8 }
}

/// The two triangles of quad `q` of layer `d` along `axis`. Corner 0 is the
/// quad's first cell; with `yz` (the layout of the y and z meshers) corner 1
/// is `width` cells along `u` and corner 2 `height` cells along `v`, else the
/// other way round; corner 3 is opposite corner 0. Faces looking the other
/// way list their corners in the other order, so that both are seen from
/// their front.
pub open spec fn quad_vertices(axis: int, d: int, q: GreedyQuad, cx: int, cy: int, cz: int, yz: bool) -> Seq<GridVertex> {
    let u = q.u as int;
    let v = q.v as int;
    let w = q.width as int;
    let h = q.height as int;
    let tex = q.face.block_id;
    let ao = q.face.ao;
    let c0 = grid_vertex(grid_point(axis, cx, cy, cz, d, u, v), tex, ao_part(ao, 0), (0, 0));
    let c1 = if yz {
        grid_vertex(grid_point(axis, cx, cy, cz, d, u + w, v), tex, ao_part(ao, 1), (0, w))
    } else {
        grid_vertex(grid_point(axis, cx, cy, cz, d, u, v + h), tex, ao_part(ao, 1), (0, h))
    };
    let c2 = if yz {
        grid_vertex(grid_point(axis, cx, cy, cz, d, u, v + h), tex, ao_part(ao, 2), (h, 0))
    } else {
        grid_vertex(grid_point(axis, cx, cy, cz, d, u + w, v), tex, ao_part(ao, 2), (w, 0))
    };
    let c3 = grid_vertex(grid_point(axis, cx, cy, cz, d, u + w, v + h), tex, ao_part(ao, 3), if yz { (h, w) } else { (w, h) });
    let reversed = if yz { q.face.face.spec_is_positive() } else { q.face.face.spec_is_negative() };
    if reversed {
        seq![c0, c1, c2, c2, c1, c3]
    } else {
        seq![c1, c0, c3, c3, c0, c2]
    }
}

/// The vertices of the quads `qs` of layer `d`, quad after quad.
pub open spec fn layer_vertices(qs: Seq<GreedyQuad>, axis: int, d: int, cx: int, cy: int, cz: int, yz: bool) -> Seq<GridVertex>
    decreases qs.len(),
{
    if qs.len() == 0 {
        Seq::empty()
    } else {
        layer_vertices(qs.drop_last(), axis, d, cx, cy, cz, yz) + quad_vertices(axis, d, qs.last(), cx, cy, cz, yz)
    }
}

/// The vertices of the quads of the layers `layers`, layer `d` at index `d`.
pub open spec fn mesh_vertices(layers: Seq<Seq<GreedyQuad>>, axis: int, cx: int, cy: int, cz: int, yz: bool) -> Seq<GridVertex>
    decreases layers.len(),
{
    if layers.len() == 0 {
        Seq::empty()
    } else {
        mesh_vertices(layers.drop_last(), axis, cx, cy, cz, yz) + layer_vertices(
            layers.last(),
            axis,
            layers.len() - 1,
            cx,
            cy,
            cz,
            yz,
        )
    }
}

/// `layers` holds, for each of the 17 layers along `axis` (the chunk's faces
/// lie between its 16 block layers and on both of its sides), the quads the
/// greedy scan makes of that layer's mask.
pub open spec fn greedy_layers(blocks: Seq<BlockInstance>, axis: int, legacy: bool, layers: Seq<Seq<GreedyQuad>>) -> bool {
    &&& layers.len() == 17
    &&& forall|d: int| 0 <= d < 17 ==> greedy_scan(layer_mask(blocks, axis, d, legacy), #[trigger] layers[d])
}

/// The vertices that meshing the faces along `axis` appends: those of the
/// greedy quads of every layer, layer after layer.
pub open spec fn greedy_mesh_of(blocks: Seq<BlockInstance>, axis: int, legacy: bool, cx: int, cy: int, cz: int, out: Seq<GridVertex>) -> bool {
    exists|layers: Seq<Seq<GreedyQuad>>|
        #[trigger] greedy_layers(blocks, axis, legacy, layers) && out == mesh_vertices(layers, axis, cx, cy, cz, !legacy && axis != 0)
}

/// The vertices that greedy meshing appends along an axis are determined by
/// the blocks: two meshings of the same blocks give the same vertices.
pub proof fn lemma_greedy_mesh_unique(
    blocks: Seq<BlockInstance>,
    axis: int,
    legacy: bool,
    cx: int,
    cy: int,
    cz: int,
    out1: Seq<GridVertex>,
    out2: Seq<GridVertex>,
)
    requires
        greedy_mesh_of(blocks, axis, legacy, cx, cy, cz, out1),
        greedy_mesh_of(blocks, axis, legacy, cx, cy, cz, out2),
    ensures
        out1 == out2,
{
    let l1 = choose|layers: Seq<Seq<GreedyQuad>>|
        #[trigger] greedy_layers(blocks, axis, legacy, layers) && out1 == mesh_vertices(layers, axis, cx, cy, cz, !legacy && axis != 0);
    let l2 = choose|layers: Seq<Seq<GreedyQuad>>|
        #[trigger] greedy_layers(blocks, axis, legacy, layers) && out2 == mesh_vertices(layers, axis, cx, cy, cz, !legacy && axis != 0);
    assert forall|d: int| 0 <= d < 17 implies l1[d] == l2[d] by {
        assert(greedy_scan(layer_mask(blocks, axis, d, legacy), l1[d]));
        assert(greedy_scan(layer_mask(blocks, axis, d, legacy), l2[d]));
        lemma_greedy_scan_unique(layer_mask(blocks, axis, d, legacy), l1[d], l2[d]);
    }
    assert(l1 =~= l2);
}

/// Every neighbour of a corner of `face` on the block at `pos` lies in the
/// padded chunk: one step along the face's normal stays inside, and the
/// block is off the outer layer on the two other axes.
pub open spec fn light_room(pos: (int, int, int), face: Direction) -> bool {
    let n = face_axes(face).2;
    &&& 0 <= pos.0 + n.0 <= 17 && 0 <= pos.1 + n.1 <= 17 && 0 <= pos.2 + n.2 <= 17
    &&& n.0 == 0 ==> 1 <= pos.0 <= 16
    &&& n.1 == 0 ==> 1 <= pos.1 <= 16
    &&& n.2 == 0 ==> 1 <= pos.2 <= 16
}

/// A neighbour in front of a face with room around it lies in the padded chunk.
proof fn lemma_in_room(pos: (int, int, int), face: Direction, o: (int, int, int))
    requires
        light_room(pos, face),
        in_front(o, face_axes(face).2),
    ensures
        in_padded(pos.0 + o.0, pos.1 + o.1, pos.2 + o.2),
{
    match face {
        Direction::Left => {},
        Direction::Right => {},
        Direction::Bottom => {},
        Direction::Top => {},
        Direction::Back => {},
        Direction::Front => {},
    }
}

/// Light level of `corner` of `face` on the block at padded `pos`.
#[verifier::spinoff_prover]
#[verifier::rlimit(40)]
fn corner_light_exec(padded: &PaddedChunk, pos: [i32; 3], face: Direction, corner: Corner, legacy: bool) -> (r: u8)
    requires
        padded.wf(),
        light_room((pos[0] as int, pos[1] as int, pos[2] as int), face),
    ensures
        r == corner_light(padded@, (pos[0] as int, pos[1] as int, pos[2] as int), corner_neighbours(legacy, face, corner)),
        r <= 3,
{
    let ghost p = (pos[0] as int, pos[1] as int, pos[2] as int);
    proof {
        lemma_ao_neighbours_in_front(face, corner);
        let t = corner_neighbours(legacy, face, corner);
        lemma_in_room(p, face, t.0);
        lemma_in_room(p, face, t.1);
        lemma_in_room(p, face, t.2);
    }
    if legacy {
        let n = ChunkMesh::get_ao_offsets(face, corner);
        ChunkMesh::get_v_ao(padded, [pos[0] - 1, pos[1] - 1, pos[2] - 1], n)
    } else {
        let n = ChunkMesh::get_ao_neighbors(face, corner);
        ChunkMesh::get_face_ao(padded, pos, n)
    }
}

/// The packed light levels of `face` on the block at padded `pos`.
fn face_light_exec(padded: &PaddedChunk, pos: [i32; 3], face: Direction, legacy: bool) -> (r: u8)
    requires
        padded.wf(),
        light_room((pos[0] as int, pos[1] as int, pos[2] as int), face),
    ensures
        r == face_light(padded@, (pos[0] as int, pos[1] as int, pos[2] as int), face, legacy),
{
    let a0 = corner_light_exec(padded, pos, face, Corner::BottomLeft, legacy);
    let a1 = corner_light_exec(padded, pos, face, Corner::BottomRight, legacy);
    let a2 = corner_light_exec(padded, pos, face, Corner::TopLeft, legacy);
    let a3 = corner_light_exec(padded, pos, face, Corner::TopRight, legacy);
    proof {
        reveal(face_light);
        assert((a0 << 6u8) | (a1 << 4u8) | (a2 << 2u8) | a3 == (a0 * 64 + a1 * 16 + a2 * 4 + a3) as u8) by (bit_vector)
            requires a0 <= 3 && a1 <= 3 && a2 <= 3 && a3 <= 3;
    }
    (a0 << 6u8) | (a1 << 4u8) | (a2 << 2u8) | a3
}

/// Cell `(u, v)` of the mask of layer `d` along `axis`.
fn mask_cell_exec(padded: &PaddedChunk, axis: u8, d: i32, u: i32, v: i32, legacy: bool) -> (m: FaceMask)
    requires
        padded.wf(),
        axis < 3,
        0 <= d <= 16,
        0 <= u < 16,
        0 <= v < 16,
    ensures
        m == mask_cell(padded@, axis as int, d as int, u as int, v as int, legacy),
{
    let (bx, by, bz, ax, ay, az, pos_face, neg_face) = if axis == 0 {
        (d, u + 1, v + 1, d + 1, u + 1, v + 1, Direction::Right, Direction::Left)
    } else if axis == 1 {
        (v + 1, d, u + 1, v + 1, d + 1, u + 1, Direction::Top, Direction::Bottom)
    } else {
        (u + 1, v + 1, d, u + 1, v + 1, d + 1, Direction::Front, Direction::Back)
    };
    let behind = padded.get_block_from_xyz_unsafe(bx, by, bz);
    let ahead = padded.get_block_from_xyz_unsafe(ax, ay, az);
    let behind_solid = behind.is_solid();
    let ahead_solid = ahead.is_solid();
    if behind_solid == ahead_solid {
        FaceMask::empty()
    } else if ahead_solid {
        let ao = face_light_exec(padded, [ax, ay, az], neg_face, legacy);
        FaceMask::from(false, ahead.texture_index(), neg_face, ao)
    } else {
        let ao = face_light_exec(padded, [bx, by, bz], pos_face, legacy);
        FaceMask::from(false, behind.texture_index(), pos_face, ao)
    }
}

/// The mask of layer `d` along `axis`.
fn layer_mask_exec(padded: &PaddedChunk, axis: u8, d: i32, legacy: bool) -> (m: Vec<FaceMask>)
    requires
        padded.wf(),
        axis < 3,
        0 <= d <= 16,
    ensures
        m@ == layer_mask(padded@, axis as int, d as int, legacy),
{
    let mut mask: Vec<FaceMask> = Vec::new();
    let mut u: i32 = 0;
    while u < 16
        invariant
            0 <= u <= 16,
            padded.wf(),
            axis < 3,
            0 <= d <= 16,
            mask@.len() == u * 16,
            forall|c: int| 0 <= c < mask@.len() ==> #[trigger] mask@[c] == mask_cell(padded@, axis as int, d as int, c / 16, c % 16, legacy),
        decreases 16 - u,
    {
        let mut v: i32 = 0;
        while v < 16
            invariant
                0 <= u < 16,
                0 <= v <= 16,
                padded.wf(),
                axis < 3,
                0 <= d <= 16,
                mask@.len() == u * 16 + v,
                forall|c: int| 0 <= c < mask@.len() ==> #[trigger] mask@[c] == mask_cell(padded@, axis as int, d as int, c / 16, c % 16, legacy),
            decreases 16 - v,
        {
            let m = mask_cell_exec(padded, axis, d, u, v, legacy);
            proof {
                let c = u * 16 + v;
                assert(c / 16 == u && c % 16 == v);
            }
            mask.push(m);
            v = v + 1;
        }
        u = u + 1;
    }
    proof {
        assert(mask@ =~= layer_mask(padded@, axis as int, d as int, legacy));
    }
    mask
}

/// World coordinates of grid point `(u, v)` of layer `d` along `axis`.
fn grid_point_exec(axis: u8, cx: i32, cy: i32, cz: i32, d: i64, u: i64, v: i64) -> (r: (i64, i64, i64))
    requires
        axis < 3,
        0 <= d <= 16,
        0 <= u <= 16,
        0 <= v <= 16,
    ensures
        r.0 == grid_point(axis as int, cx as int, cy as int, cz as int, d as int, u as int, v as int).0,
        r.1 == grid_point(axis as int, cx as int, cy as int, cz as int, d as int, u as int, v as int).1,
        r.2 == grid_point(axis as int, cx as int, cy as int, cz as int, d as int, u as int, v as int).2,
{
    let ox: i64 = cx as i64 * 16;
    let oy: i64 = cy as i64 * 16;
    let oz: i64 = cz as i64 * 16;
    if axis == 0 {
        (ox + d, oy + u, oz + v)
    } else if axis == 1 {
        (ox + v, oy + d, oz + u)
    } else {
        (ox + u, oy + v, oz + d)
    }
}

/// Appends the two triangles of quad `q` of layer `d` along `axis`.
fn emit_quad(vertices: &mut Vec<GridVertex>, q: GreedyQuad, axis: u8, d: i32, cx: i32, cy: i32, cz: i32, yz: bool)
    requires
        axis < 3,
        0 <= d <= 16,
        q.u + q.width <= 16,
        q.v + q.height <= 16,
    ensures
        final(vertices)@ == old(vertices)@ + quad_vertices(axis as int, d as int, q, cx as int, cy as int, cz as int, yz),
{
    let d64 = d as i64;
    let u = q.u as i64;
    let v = q.v as i64;
    let w = q.width as i64;
    let h = q.height as i64;
    let tex = q.face.block_id;
    let ao = q.face.ao;
    let a0 = ao >> 6u8;
    let a1 = (ao >> 4u8) & 3u8;
    let a2 = (ao >> 2u8) & 3u8;
    let a3 = ao & 3u8;
    proof {
        assert(a0 == ao / 64 && a1 == (ao / 16) % 4 && a2 == (ao / 4) % 4 && a3 == ao % 4) by (bit_vector)
            requires a0 == ao >> 6u8 && a1 == (ao >> 4u8) & 3u8 && a2 == (ao >> 2u8) & 3u8 && a3 == ao & 3u8;
    }
    let p0 = grid_point_exec(axis, cx, cy, cz, d64, u, v);
    let pu = grid_point_exec(axis, cx, cy, cz, d64, u + w, v);
    let pv = grid_point_exec(axis, cx, cy, cz, d64, u, v + h);
    let p3 = grid_point_exec(axis, cx, cy, cz, d64, u + w, v + h);
    let wu = q.width as u8;
    let hu = q.height as u8;
    let c0 = GridVertex { x: p0.0, y: p0.1, z: p0.2, tex_layer: tex, ao: a0, u: 0, v: 0 };
    let c3 = if yz {
        GridVertex { x: p3.0, y: p3.1, z: p3.2, tex_layer: tex, ao: a3, u: hu, v: wu }
    } else {
        GridVertex { x: p3.0, y: p3.1, z: p3.2, tex_layer: tex, ao: a3, u: wu, v: hu }
    };
    let (c1, c2) = if yz {
        (
            GridVertex { x: pu.0, y: pu.1, z: pu.2, tex_layer: tex, ao: a1, u: 0, v: wu },
            GridVertex { x: pv.0, y: pv.1, z: pv.2, tex_layer: tex, ao: a2, u: hu, v: 0 },
        )
    } else {
        (
            GridVertex { x: pv.0, y: pv.1, z: pv.2, tex_layer: tex, ao: a1, u: 0, v: hu },
            GridVertex { x: pu.0, y: pu.1, z: pu.2, tex_layer: tex, ao: a2, u: wu, v: 0 },
        )
    };
    let reversed = if yz { q.face.face.is_positive() } else { q.face.face.is_negative() };
    if reversed {
        vertices.push(c0);
        vertices.push(c1);
        vertices.push(c2);
        vertices.push(c2);
        vertices.push(c1);
        vertices.push(c3);
    } else {
        vertices.push(c1);
        vertices.push(c0);
        vertices.push(c3);
        vertices.push(c3);
        vertices.push(c0);
        vertices.push(c2);
    }
    proof {
        let (ai, ci, xi, yi, zi) = (axis as int, d as int, cx as int, cy as int, cz as int);
        let (ui, vi, wi, hi) = (q.u as int, q.v as int, q.width as int, q.height as int);
        assert(c0 == grid_vertex(grid_point(ai, xi, yi, zi, ci, ui, vi), tex, ao_part(ao, 0), (0, 0)));
        assert(c3 == grid_vertex(grid_point(ai, xi, yi, zi, ci, ui + wi, vi + hi), tex, ao_part(ao, 3), if yz { (hi, wi) } else { (wi, hi) }));
        if yz {
            assert(c1 == grid_vertex(grid_point(ai, xi, yi, zi, ci, ui + wi, vi), tex, ao_part(ao, 1), (0, wi)));
            assert(c2 == grid_vertex(grid_point(ai, xi, yi, zi, ci, ui, vi + hi), tex, ao_part(ao, 2), (hi, 0)));
        } else {
            assert(c1 == grid_vertex(grid_point(ai, xi, yi, zi, ci, ui, vi + hi), tex, ao_part(ao, 1), (0, hi)));
            assert(c2 == grid_vertex(grid_point(ai, xi, yi, zi, ci, ui + wi, vi), tex, ao_part(ao, 2), (wi, 0)));
        }
        let qv = quad_vertices(ai, ci, q, xi, yi, zi, yz);
        assert(vertices@ =~= old(vertices)@ + qv);
    }
}

/// Meshes the faces of `padded` looking along `axis`, layer after layer,
/// and appends their vertices.
fn mesh_along(padded: &PaddedChunk, vertices: &mut Vec<GridVertex>, cx: i32, cy: i32, cz: i32, axis: u8, legacy: bool)
    requires
        padded.wf(),
        axis < 3,
    ensures
        exists|out: Seq<GridVertex>|
            greedy_mesh_of(padded@, axis as int, legacy, cx as int, cy as int, cz as int, out) && final(vertices)@ == old(vertices)@ + out,
{
    let ghost start = vertices@;
    let ghost mut layers: Seq<Seq<GreedyQuad>> = Seq::empty();
    let yz = !legacy && axis != 0;
    let mut d: i32 = 0;
    while d <= 16
        invariant
            0 <= d <= 17,
            padded.wf(),
            axis < 3,
            yz == (!legacy && axis != 0),
            layers.len() == d,
            forall|k: int| 0 <= k < d ==> greedy_scan(layer_mask(padded@, axis as int, k, legacy), #[trigger] layers[k]),
            vertices@ == start + mesh_vertices(layers, axis as int, cx as int, cy as int, cz as int, yz),
        decreases 17 - d,
    {
        let mut mask = layer_mask_exec(padded, axis, d, legacy);
        let mut quads: Vec<GreedyQuad> = Vec::new();
        greedy_merge(&mut mask, &mut quads);
        let ghost m = layer_mask(padded@, axis as int, d as int, legacy);
        proof {
            assert(quads@.subrange(0, quads@.len() as int) =~= quads@);
            assert(greedy_scan(m, quads@));
        }
        let ghost before = vertices@;
        let mut i: usize = 0;
        while i < quads.len()
            invariant
                0 <= i <= quads@.len(),
                axis < 3,
                0 <= d <= 16,
                greedy_scan(m, quads@),
                vertices@ == before + layer_vertices(quads@.take(i as int), axis as int, d as int, cx as int, cy as int, cz as int, yz),
            decreases quads@.len() - i,
        {
            let q = quads[i];
            proof {
                assert(crate::greedy::quad_fits(m, quads@[i as int]));
                assert(quads@.take(i as int + 1).drop_last() =~= quads@.take(i as int));
            }
            emit_quad(vertices, q, axis, d, cx, cy, cz, yz);
            i = i + 1;
        }
        proof {
            assert(quads@.take(quads@.len() as int) =~= quads@);
            let layers2 = layers.push(quads@);
            assert(layers2.drop_last() =~= layers);
            assert forall|k: int| 0 <= k < d + 1 implies greedy_scan(layer_mask(padded@, axis as int, k, legacy), #[trigger] layers2[k]) by {
                if k < d {
                    assert(layers2[k] == layers[k]);
                }
            }
            layers = layers2;
        }
        d = d + 1;
    }
    proof {
        let out = mesh_vertices(layers, axis as int, cx as int, cy as int, cz as int, yz);
        assert(greedy_layers(padded@, axis as int, legacy, layers));
        assert(greedy_mesh_of(padded@, axis as int, legacy, cx as int, cy as int, cz as int, out));
    }
}

impl ChunkMesh {
    /// Meshes the faces of the central chunk of `padded_chunk` looking along
    /// x (left and right faces), merging equal neighbouring faces layer by
    /// layer with the greedy scan, and appends their vertices; the chunk is at
    /// chunk coordinates `(cx, cy, cz)`.
    pub fn make_greedy_x(padded_chunk: &PaddedChunk, vertices: &mut Vec<GridVertex>, cx: i32, cy: i32, cz: i32)
        requires
            padded_chunk.wf(),
        ensures
            exists|out: Seq<GridVertex>|
                greedy_mesh_of(padded_chunk@, 0, false, cx as int, cy as int, cz as int, out) && final(vertices)@ == old(vertices)@ + out,
    {
        mesh_along(padded_chunk, vertices, cx, cy, cz, 0, false);
    }

    /// Meshes the faces looking along y (bottom and top faces), as `make_greedy_x` does along x.
    pub fn make_greedy_y(padded_chunk: &PaddedChunk, vertices: &mut Vec<GridVertex>, cx: i32, cy: i32, cz: i32)
        requires
            padded_chunk.wf(),
        ensures
            exists|out: Seq<GridVertex>|
                greedy_mesh_of(padded_chunk@, 1, false, cx as int, cy as int, cz as int, out) && final(vertices)@ == old(vertices)@ + out,
    {
        mesh_along(padded_chunk, vertices, cx, cy, cz, 1, false);
    }

    /// Meshes the faces looking along z (back and front faces), as `make_greedy_x` does along x.
    pub fn make_greedy_z(padded_chunk: &PaddedChunk, vertices: &mut Vec<GridVertex>, cx: i32, cy: i32, cz: i32)
        requires
            padded_chunk.wf(),
        ensures
            exists|out: Seq<GridVertex>|
                greedy_mesh_of(padded_chunk@, 2, false, cx as int, cy as int, cz as int, out) && final(vertices)@ == old(vertices)@ + out,
    {
        mesh_along(padded_chunk, vertices, cx, cy, cz, 2, false);
    }

    /// Meshes the faces looking along `axis` (0: x, 1: y, 2: z) with the
    /// mesher working in chunk coordinates: its light levels come from the
    /// neighbours of `get_ao_offsets`, and every axis lays its quads out as
    /// the x axis does.
    pub fn make_greedy_axis(padded_chunk: &PaddedChunk, vertices: &mut Vec<GridVertex>, cx: i32, cy: i32, cz: i32, axis: i32)
        requires
            padded_chunk.wf(),
            0 <= axis < 3,
        ensures
            exists|out: Seq<GridVertex>|
                greedy_mesh_of(padded_chunk@, axis as int, true, cx as int, cy as int, cz as int, out) && final(vertices)@ == old(vertices)@ + out,
    {
        mesh_along(padded_chunk, vertices, cx, cy, cz, axis as u8, true);
    }
}

/// The blocks of the padded chunk built from `chunk` and the neighbours of
/// `snapshot`, indexed by `padded_index`.
pub open spec fn snapshot_blocks(chunk: Chunk, snapshot: MeshSnapshot) -> Seq<BlockInstance> {
    Seq::new(5832, |i: int| snapshot_block(chunk, snapshot, i % 18, (i / 18) % 18, i / 324))
}

/// Every index of a padded chunk is that of its coordinates.
proof fn lemma_padded_coords(i: int)
    requires
        0 <= i < 5832,
    ensures
        in_padded(i % 18, (i / 18) % 18, i / 324),
        padded_index(i % 18, (i / 18) % 18, i / 324) == i,
{
    vstd::arithmetic::div_mod::lemma_div_denominator(i, 18, 18);
    vstd::arithmetic::div_mod::lemma_fundamental_div_mod(i, 18);
    vstd::arithmetic::div_mod::lemma_fundamental_div_mod(i / 18, 18);
    assert(i / 324 < 18);
}

/// Builds the mesh of one chunk on a worker.
pub struct GreedyMeshingProcessor;

impl GreedyMeshingProcessor {
    /// The vertices of the chunk `main_chunk` at chunk coordinates `(cx, cy,
    /// cz)`, with its neighbours from `neighbors`: its faces along x, then y,
    /// then z, each meshed with the greedy scan.
    pub fn process(main_chunk: &Chunk, neighbors: &MeshSnapshot, cx: i32, cy: i32, cz: i32) -> (r: Option<Vec<GridVertex>>)
        requires
            main_chunk.wf(),
            neighbour_ok(neighbors.neg_x),
            neighbour_ok(neighbors.pos_x),
            neighbour_ok(neighbors.neg_y),
            neighbour_ok(neighbors.pos_y),
            neighbour_ok(neighbors.neg_z),
            neighbour_ok(neighbors.pos_z),
        ensures
            r matches Some(vs) && exists|ox: Seq<GridVertex>, oy: Seq<GridVertex>, oz: Seq<GridVertex>|
                #[trigger] greedy_mesh_of(snapshot_blocks(*main_chunk, *neighbors), 0, false, cx as int, cy as int, cz as int, ox)
                    && #[trigger] greedy_mesh_of(snapshot_blocks(*main_chunk, *neighbors), 1, false, cx as int, cy as int, cz as int, oy)
                    && #[trigger] greedy_mesh_of(snapshot_blocks(*main_chunk, *neighbors), 2, false, cx as int, cy as int, cz as int, oz)
                    && vs@ == ox + oy + oz,
    {
        let padded = PaddedChunk::from_snapshot(main_chunk, neighbors);
        proof {
            assert forall|i: int| 0 <= i < 5832 implies #[trigger] padded@[i] == snapshot_blocks(*main_chunk, *neighbors)[i] by {
                lemma_padded_coords(i);
                assert(padded@[i] == padded.block_at(i % 18, (i / 18) % 18, i / 324));
            }
            assert(padded@ =~= snapshot_blocks(*main_chunk, *neighbors));
        }
        let mut vertices: Vec<GridVertex> = Vec::new();
        ChunkMesh::make_greedy_x(&padded, &mut vertices, cx, cy, cz);
        let ghost after_x = vertices@;
        ChunkMesh::make_greedy_y(&padded, &mut vertices, cx, cy, cz);
        let ghost after_y = vertices@;
        ChunkMesh::make_greedy_z(&padded, &mut vertices, cx, cy, cz);
        proof {
            let blocks = snapshot_blocks(*main_chunk, *neighbors);
            let ox = choose|out: Seq<GridVertex>|
                greedy_mesh_of(padded@, 0, false, cx as int, cy as int, cz as int, out) && after_x == Seq::<GridVertex>::empty() + out;
            let oy = choose|out: Seq<GridVertex>|
                greedy_mesh_of(padded@, 1, false, cx as int, cy as int, cz as int, out) && after_y == after_x + out;
            let oz = choose|out: Seq<GridVertex>|
                greedy_mesh_of(padded@, 2, false, cx as int, cy as int, cz as int, out) && vertices@ == after_y + out;
            assert(vertices@ =~= ox + oy + oz);
            assert(greedy_mesh_of(blocks, 0, false, cx as int, cy as int, cz as int, ox));
            assert(greedy_mesh_of(blocks, 1, false, cx as int, cy as int, cz as int, oy));
            assert(greedy_mesh_of(blocks, 2, false, cx as int, cy as int, cz as int, oz));
        }
        Some(vertices)
    }
}

} // verus!
