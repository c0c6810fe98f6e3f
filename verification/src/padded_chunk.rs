use vstd::prelude::*;
use crate::block::{BlockInstance, AIR_BLOCK_ID};
use crate::chunk::{Chunk, chunk_index, CHUNK_SIZE, LAST_CHUNK_AXIS_INDEX};

verus! {

/// Number of blocks along one edge of a padded chunk: a chunk plus one layer
/// of its neighbours on every side.
pub const PADDED_CHUNK_SIZE: i32 = 18;
pub const PADDED_CHUNK_SIZE_USIZE: usize = 18;
pub const PADDED_CHUNK_SIZE_DOUBLE: usize = 36;
pub const PADDED_CHUNK_SIZE_SQR: i32 = 324;
pub const PADDED_CHUNK_SIZE_SQR_USIZE: usize = 324;
/// Number of blocks in a padded chunk.
pub const PADDED_CHUNK_BLOCK_NUMBER: usize = 5832;
pub const FIRST_PADDED_CHUNK_CENTER_INDEX: i32 = 1;
pub const LAST_PADDED_CHUNK_CENTER_INDEX: i32 = 16;
pub const LAST_PADDED_CHUNK_AXIS_INDEX: i32 = 17;

/// Linear index of coordinates inside a padded chunk (x fastest, z slowest).
pub open spec fn padded_index(x: int, y: int, z: int) -> int {
    x + y * 18 + z * 324
}

/// Coordinates inside a padded chunk.
pub open spec fn in_padded(x: int, y: int, z: int) -> bool {
    0 <= x < 18 && 0 <= y < 18 && 0 <= z < 18
}

/// Coordinates of the central 16 x 16 x 16 part of a padded chunk.
pub open spec fn in_center(x: int, y: int, z: int) -> bool {
    1 <= x <= 16 && 1 <= y <= 16 && 1 <= z <= 16
}

/// The index computation `x + y * 18 + z * 324` of `i32`s neither overflows
/// nor leaves the padded chunk.
pub open spec fn padded_index_ok(x: i32, y: i32, z: i32) -> bool {
    &&& i32::MIN <= y * 18 <= i32::MAX
    &&& i32::MIN <= z * 324 <= i32::MAX
    &&& i32::MIN <= x + y * 18 <= i32::MAX
    &&& 0 <= padded_index(x as int, y as int, z as int) < 5832
}

/// Distinct coordinates of a padded chunk have distinct indices, all in range.
pub proof fn lemma_padded_index(x: int, y: int, z: int, x2: int, y2: int, z2: int)
    requires
        in_padded(x, y, z),
        in_padded(x2, y2, z2),
    ensures
        0 <= padded_index(x, y, z) < 5832,
        padded_index(x, y, z) == padded_index(x2, y2, z2) ==> x == x2 && y == y2 && z == z2,
{
}

/// The cell `(x, y, z)` lies on the outer layer of the padded chunk facing
/// along `axis` (0: x, 1: y, 2: z), at coordinate `layer` on that axis,
/// and inside the centre on the two other axes.
pub open spec fn on_face(axis: int, layer: int, x: int, y: int, z: int) -> bool {
    if axis == 0 {
        x == layer && 1 <= y <= 16 && 1 <= z <= 16
    } else if axis == 1 {
        y == layer && 1 <= x <= 16 && 1 <= z <= 16
    } else {
        z == layer && 1 <= x <= 16 && 1 <= y <= 16
    }
}

/// The block of neighbour chunk `c` that the face cell `(x, y, z)` mirrors:
/// the layer `src` of `c` along `axis`, shifted by one on the other axes.
pub open spec fn face_source(c: Chunk, axis: int, src: int, x: int, y: int, z: int) -> BlockInstance {
    if axis == 0 {
        c.block_at(src, y - 1, z - 1)
    } else if axis == 1 {
        c.block_at(x - 1, src, z - 1)
    } else {
        c.block_at(x - 1, y - 1, src)
    }
}

/// The two coordinates that run across a face along `axis`, in loop order.
pub open spec fn face_uv(axis: int, x: int, y: int, z: int) -> (int, int) {
    if axis == 0 {
        (y, z)
    } else if axis == 1 {
        (x, z)
    } else {
        (x, y)
    }
}

/// A chunk together with a one-block border copied from its six neighbours,
/// so that meshing can look one block past every side.
pub struct PaddedChunk {
    pub blocks: Vec<BlockInstance>,
}

/// The chunks around a chunk to mesh: the chunk itself and its six direct neighbours, when loaded.
pub struct MeshSnapshot<'a> {
    pub main: &'a Chunk,
    pub neg_x: Option<&'a Chunk>,
    pub pos_x: Option<&'a Chunk>,
    pub neg_y: Option<&'a Chunk>,
    pub pos_y: Option<&'a Chunk>,
    pub neg_z: Option<&'a Chunk>,
    pub pos_z: Option<&'a Chunk>,
}

/// What a face cell holds after `fill_edges`: the mirrored neighbour block,
/// or air when the neighbour is missing.
pub open spec fn face_fill(n: Option<&Chunk>, axis: int, src: int, x: int, y: int, z: int) -> BlockInstance {
    match n {
        Some(c) => face_source(*c, axis, src, x, y, z),
        None => BlockInstance { id: AIR_BLOCK_ID },
    }
}

/// What cell `(x, y, z)` holds after the six faces were filled from the
/// neighbours (or with air where one is missing), given that it held `other` before.
pub open spec fn filled_edges(
    neg_x: Option<&Chunk>,
    pos_x: Option<&Chunk>,
    neg_y: Option<&Chunk>,
    pos_y: Option<&Chunk>,
    neg_z: Option<&Chunk>,
    pos_z: Option<&Chunk>,
    x: int,
    y: int,
    z: int,
    other: BlockInstance,
) -> BlockInstance {
    if on_face(0, 0, x, y, z) {
        face_fill(neg_x, 0, 15, x, y, z)
    } else if on_face(0, 17, x, y, z) {
        face_fill(pos_x, 0, 0, x, y, z)
    } else if on_face(1, 0, x, y, z) {
        face_fill(neg_y, 1, 15, x, y, z)
    } else if on_face(1, 17, x, y, z) {
        face_fill(pos_y, 1, 0, x, y, z)
    } else if on_face(2, 0, x, y, z) {
        face_fill(neg_z, 2, 15, x, y, z)
    } else if on_face(2, 17, x, y, z) {
        face_fill(pos_z, 2, 0, x, y, z)
    } else {
        other
    }
}

/// A loaded neighbour is a whole chunk.
pub open spec fn neighbour_ok(n: Option<&Chunk>) -> bool {
    n matches Some(c) ==> c.wf()
}

/// The padded chunk built around `chunk` from the neighbours of `snapshot`:
/// the centre is the chunk, each face mirrors the touching layer of the
/// neighbour on that side (air when it is missing), and the edges and
/// corners of the border are air.
pub open spec fn snapshot_block(chunk: Chunk, s: MeshSnapshot, x: int, y: int, z: int) -> BlockInstance {
    if in_center(x, y, z) {
        chunk.block_at(x - 1, y - 1, z - 1)
    } else {
        filled_edges(s.neg_x, s.pos_x, s.neg_y, s.pos_y, s.neg_z, s.pos_z, x, y, z, BlockInstance { id: AIR_BLOCK_ID })
    }
}

impl PaddedChunk {
    /// The blocks, indexed by `padded_index`.
    pub open spec fn view(&self) -> Seq<BlockInstance> {
        self.blocks@
    }

    pub open spec fn wf(&self) -> bool {
        self.blocks@.len() == 5832
    }

    /// The block at `(x, y, z)`.
    pub open spec fn block_at(&self, x: int, y: int, z: int) -> BlockInstance {
        self.blocks@[padded_index(x, y, z)]
    }

    /// A padded chunk made of air only.
    pub fn empty() -> (p: PaddedChunk)
        ensures
            p.wf(),
            forall|i: int| 0 <= i < 5832 ==> #[trigger] p.blocks@[i] == (BlockInstance { id: AIR_BLOCK_ID }),
    {
        let mut blocks: Vec<BlockInstance> = Vec::new();
        let mut i: usize = 0;
        while i < PADDED_CHUNK_BLOCK_NUMBER
            invariant
                i <= 5832,
                blocks@.len() == i,
                forall|j: int| 0 <= j < i ==> #[trigger] blocks@[j] == (BlockInstance { id: AIR_BLOCK_ID }),
            decreases 5832 - i,
        {
            blocks.push(BlockInstance::air());
            i = i + 1;
        }
        PaddedChunk { blocks }
    }

    /// The padded chunk of `chunk` with the neighbours of `snapshot`.
    pub fn from_snapshot(chunk: &Chunk, snapshot: &MeshSnapshot) -> (p: PaddedChunk)
        requires
            chunk.wf(),
            neighbour_ok(snapshot.neg_x),
            neighbour_ok(snapshot.pos_x),
            neighbour_ok(snapshot.neg_y),
            neighbour_ok(snapshot.pos_y),
            neighbour_ok(snapshot.neg_z),
            neighbour_ok(snapshot.pos_z),
        ensures
            p.wf(),
            forall|x: int, y: int, z: int|
                #![trigger p.block_at(x, y, z)]
                in_padded(x, y, z) ==> p.block_at(x, y, z) == snapshot_block(*chunk, *snapshot, x, y, z),
    {
        let mut padded_chunk = PaddedChunk::empty();
        let mut src_i: usize = 0;
        let mut dst_i: usize = 343;
        let mut z: i32 = 0;
        while z < CHUNK_SIZE
            invariant
                0 <= z <= 16,
                chunk.wf(),
                padded_chunk.wf(),
                src_i == chunk_index(0, 0, z as int),
                dst_i == padded_index(1, 1, z + 1),
                forall|x: int, y: int, zz: int|
                    #![trigger padded_chunk.block_at(x, y, zz)]
                    in_padded(x, y, zz) ==> padded_chunk.block_at(x, y, zz) == if in_center(x, y, zz) && zz - 1 < z {
                        chunk.block_at(x - 1, y - 1, zz - 1)
                    } else {
                        BlockInstance { id: AIR_BLOCK_ID }
                    },
            decreases 16 - z,
        {
            let mut y: i32 = 0;
            while y < CHUNK_SIZE
                invariant
                    0 <= z < 16,
                    0 <= y <= 16,
                    chunk.wf(),
                    padded_chunk.wf(),
                    src_i == chunk_index(0, y as int, z as int),
                    dst_i == padded_index(1, y + 1, z + 1),
                    forall|x: int, yy: int, zz: int|
                        #![trigger padded_chunk.block_at(x, yy, zz)]
                        in_padded(x, yy, zz) ==> padded_chunk.block_at(x, yy, zz) == if in_center(x, yy, zz) && (zz - 1 < z
                            || (zz - 1 == z && yy - 1 < y)) {
                            chunk.block_at(x - 1, yy - 1, zz - 1)
                        } else {
                            BlockInstance { id: AIR_BLOCK_ID }
                        },
                decreases 16 - y,
            {
                let mut x: i32 = 0;
                while x < CHUNK_SIZE
                    invariant
                        0 <= z < 16,
                        0 <= y < 16,
                        0 <= x <= 16,
                        chunk.wf(),
                        padded_chunk.wf(),
                        src_i == chunk_index(x as int, y as int, z as int),
                        dst_i == padded_index(x + 1, y + 1, z + 1),
                        forall|xx: int, yy: int, zz: int|
                            #![trigger padded_chunk.block_at(xx, yy, zz)]
                            in_padded(xx, yy, zz) ==> padded_chunk.block_at(xx, yy, zz) == if in_center(xx, yy, zz) && (zz
                                - 1 < z || (zz - 1 == z && (yy - 1 < y || (yy - 1 == y && xx - 1 < x)))) {
                                chunk.block_at(xx - 1, yy - 1, zz - 1)
                            } else {
                                BlockInstance { id: AIR_BLOCK_ID }
                            },
                    decreases 16 - x,
                {
                    let ghost before = padded_chunk.blocks@;
                    proof {
                        assert forall|xx: int, yy: int, zz: int| in_padded(xx, yy, zz) implies before[padded_index(xx, yy, zz)]
                            == if in_center(xx, yy, zz) && (zz - 1 < z || (zz - 1 == z && (yy - 1 < y || (yy - 1 == y
                            && xx - 1 < x)))) {
                            chunk.block_at(xx - 1, yy - 1, zz - 1)
                        } else {
                            BlockInstance { id: AIR_BLOCK_ID }
                        } by {
                            assert(padded_chunk.block_at(xx, yy, zz) == before[padded_index(xx, yy, zz)]);
                        }
                    }
                    let b = chunk.get_block_from_i(src_i);
                    padded_chunk.set_block_from_i(dst_i, b);
                    proof {
                        assert forall|xx: int, yy: int, zz: int| in_padded(xx, yy, zz) implies #[trigger] padded_chunk.block_at(xx, yy, zz)
                            == if in_center(xx, yy, zz) && (zz - 1 < z || (zz - 1 == z && (yy - 1 < y || (yy - 1 == y
                            && xx - 1 < x + 1)))) {
                            chunk.block_at(xx - 1, yy - 1, zz - 1)
                        } else {
                            BlockInstance { id: AIR_BLOCK_ID }
                        } by {
                            lemma_padded_index(x + 1, y + 1, z + 1, xx, yy, zz);
                            if !(xx == x + 1 && yy == y + 1 && zz == z + 1) {
                                assert(padded_chunk.blocks@[padded_index(xx, yy, zz)] == before[padded_index(xx, yy, zz)]);
                            }
                        }
                    }
                    src_i = src_i + 1;
                    dst_i = dst_i + 1;
                    x = x + 1;
                }
                dst_i = dst_i + 2;
                y = y + 1;
            }
            dst_i = dst_i + PADDED_CHUNK_SIZE_DOUBLE;
            z = z + 1;
        }
        let ghost centred = padded_chunk.blocks@;
        padded_chunk.fill_edges(
            snapshot.neg_x,
            snapshot.pos_x,
            snapshot.neg_y,
            snapshot.pos_y,
            snapshot.neg_z,
            snapshot.pos_z,
        );
        padded_chunk
    }

    /// The block at padded coordinates `(x, y, z)`; the caller keeps them inside the padded chunk.
    pub fn get_block_from_xyz_unsafe(&self, x: i32, y: i32, z: i32) -> (b: BlockInstance)
        requires
            self.wf(),
            padded_index_ok(x, y, z),
        ensures
            b == self.block_at(x as int, y as int, z as int),
    {
        self.get_block_from_i((x + y * PADDED_CHUNK_SIZE + z * PADDED_CHUNK_SIZE_SQR) as usize)
    }

    /// The block at coordinates `(x, y, z)` of the central chunk, which may
    /// reach one block past each of its sides.
    pub fn get_block_from_chunk_xyz(&self, x: i32, y: i32, z: i32) -> (b: BlockInstance)
        requires
            self.wf(),
            -1 <= x <= 16 && -1 <= y <= 16 && -1 <= z <= 16,
        ensures
            b == self.block_at(x + 1, y + 1, z + 1),
    {
        self.get_block_from_xyz_unsafe(x + 1, y + 1, z + 1)
    }

    pub fn get_block_from_i(&self, i: usize) -> (b: BlockInstance)
        requires
            i < self.blocks@.len(),
        ensures
            b == self.blocks@[i as int],
    {
        self.blocks[i]
    }

    /// Replaces the block at padded coordinates `(x, y, z)`.
    pub fn set_block_from_xyz_unsafe(&mut self, x: i32, y: i32, z: i32, block: BlockInstance)
        requires
            old(self).wf(),
            padded_index_ok(x, y, z),
        ensures
            final(self).blocks@ == old(self).blocks@.update(padded_index(x as int, y as int, z as int), block),
    {
        self.set_block_from_i((x + y * PADDED_CHUNK_SIZE + z * PADDED_CHUNK_SIZE_SQR) as usize, block);
    }

    pub fn set_block_from_i(&mut self, i: usize, block: BlockInstance)
        requires
            i < old(self).blocks@.len(),
        ensures
            final(self).blocks@ == old(self).blocks@.update(i as int, block),
    {
        self.blocks.set(i, block);
    }

    /// Sets the face of the padded chunk along `axis` at coordinate `layer`
    /// to the layer `src` of `source` along the same axis, or to air.
    fn fill_plane(&mut self, axis: u8, layer: i32, source: Option<&Chunk>, src: i32)
        requires
            old(self).wf(),
            axis < 3,
            layer == 0 || layer == 17,
            0 <= src < 16,
            source matches Some(c) ==> c.wf(),
        ensures
            final(self).wf(),
            forall|x: int, y: int, z: int|
                #![trigger final(self).block_at(x, y, z)]
                in_padded(x, y, z) ==> final(self).block_at(x, y, z) == if on_face(axis as int, layer as int, x, y, z) {
                    face_fill(source, axis as int, src as int, x, y, z)
                } else {
                    old(self).block_at(x, y, z)
                },
    {
        let ghost old_blocks = self.blocks@;
        let mut u: i32 = FIRST_PADDED_CHUNK_CENTER_INDEX;
        while u <= LAST_PADDED_CHUNK_CENTER_INDEX
            invariant
                1 <= u <= 17,
                self.wf(),
                axis < 3,
                layer == 0 || layer == 17,
                0 <= src < 16,
                source matches Some(c) ==> c.wf(),
                old_blocks == old(self).blocks@,
                forall|x: int, y: int, z: int|
                    #![trigger self.block_at(x, y, z)]
                    in_padded(x, y, z) ==> self.block_at(x, y, z) == if on_face(axis as int, layer as int, x, y, z)
                        && face_uv(axis as int, x, y, z).0 < u {
                        face_fill(source, axis as int, src as int, x, y, z)
                    } else {
                        old_blocks[padded_index(x, y, z)]
                    },
            decreases 17 - u,
        {
            let mut v: i32 = FIRST_PADDED_CHUNK_CENTER_INDEX;
            while v <= LAST_PADDED_CHUNK_CENTER_INDEX
                invariant
                    1 <= u <= 16,
                    1 <= v <= 17,
                    self.wf(),
                    axis < 3,
                    layer == 0 || layer == 17,
                    0 <= src < 16,
                    source matches Some(c) ==> c.wf(),
                    old_blocks == old(self).blocks@,
                    forall|x: int, y: int, z: int|
                        #![trigger self.block_at(x, y, z)]
                        in_padded(x, y, z) ==> self.block_at(x, y, z) == if on_face(axis as int, layer as int, x, y, z)
                            && (face_uv(axis as int, x, y, z).0 < u || (face_uv(axis as int, x, y, z).0 == u
                            && face_uv(axis as int, x, y, z).1 < v)) {
                            face_fill(source, axis as int, src as int, x, y, z)
                        } else {
                            old_blocks[padded_index(x, y, z)]
                        },
                decreases 17 - v,
            {
                let (x, y, z) = if axis == 0 {
                    (layer, u, v)
                } else if axis == 1 {
                    (u, layer, v)
                } else {
                    (u, v, layer)
                };
                let block = match source {
                    Some(c) => {
                        if axis == 0 {
                            c.get_block_from_xyz(src, y - 1, z - 1)
                        } else if axis == 1 {
                            c.get_block_from_xyz(x - 1, src, z - 1)
                        } else {
                            c.get_block_from_xyz(x - 1, y - 1, src)
                        }
                    },
                    None => BlockInstance::air(),
                };
                let ghost before = self.blocks@;
                proof {
                    assert forall|x2: int, y2: int, z2: int| in_padded(x2, y2, z2) implies before[padded_index(x2, y2, z2)]
                        == if on_face(axis as int, layer as int, x2, y2, z2) && (face_uv(axis as int, x2, y2, z2).0 < u
                        || (face_uv(axis as int, x2, y2, z2).0 == u && face_uv(axis as int, x2, y2, z2).1 < v)) {
                        face_fill(source, axis as int, src as int, x2, y2, z2)
                    } else {
                        old_blocks[padded_index(x2, y2, z2)]
                    } by {
                        assert(self.block_at(x2, y2, z2) == before[padded_index(x2, y2, z2)]);
                    }
                }
                self.set_block_from_xyz_unsafe(x, y, z, block);
                proof {
                    assert forall|x2: int, y2: int, z2: int| in_padded(x2, y2, z2) implies #[trigger] self.block_at(x2, y2, z2)
                        == if on_face(axis as int, layer as int, x2, y2, z2) && (face_uv(axis as int, x2, y2, z2).0 < u
                        || (face_uv(axis as int, x2, y2, z2).0 == u && face_uv(axis as int, x2, y2, z2).1 < v + 1)) {
                        face_fill(source, axis as int, src as int, x2, y2, z2)
                    } else {
                        old_blocks[padded_index(x2, y2, z2)]
                    } by {
                        lemma_padded_index(x as int, y as int, z as int, x2, y2, z2);
                        if x2 == x && y2 == y && z2 == z {
                        } else {
                            assert(self.blocks@[padded_index(x2, y2, z2)] == before[padded_index(x2, y2, z2)]);
                        }
                    }
                }
                v = v + 1;
            }
            u = u + 1;
        }
    }


    pub fn fill_neg_x_as_air(&mut self)
        requires
            old(self).wf(),
        ensures
            final(self).wf(),
            forall|x: int, y: int, z: int|
                #![trigger final(self).block_at(x, y, z)]
                in_padded(x, y, z) ==> final(self).block_at(x, y, z) == if on_face(0, 0, x, y, z) {
                    BlockInstance { id: AIR_BLOCK_ID }
                } else {
                    old(self).block_at(x, y, z)
                },
    {
        self.fill_plane(0, 0, None, 0);
    }

    pub fn fill_pos_x(&mut self, chunk: &Chunk)
        requires
            old(self).wf(),
            chunk.wf(),
        ensures
            final(self).wf(),
            forall|x: int, y: int, z: int|
                #![trigger final(self).block_at(x, y, z)]
                in_padded(x, y, z) ==> final(self).block_at(x, y, z) == if on_face(0, 17, x, y, z) {
                    face_source(*chunk, 0, 0, x, y, z)
                } else {
                    old(self).block_at(x, y, z)
                },
    {
        self.fill_plane(0, LAST_PADDED_CHUNK_AXIS_INDEX, Some(chunk), 0);
    }

    pub fn fill_pos_x_as_air(&mut self)
        requires
            old(self).wf(),
        ensures
            final(self).wf(),
            forall|x: int, y: int, z: int|
                #![trigger final(self).block_at(x, y, z)]
                in_padded(x, y, z) ==> final(self).block_at(x, y, z) == if on_face(0, 17, x, y, z) {
                    BlockInstance { id: AIR_BLOCK_ID }
                } else {
                    old(self).block_at(x, y, z)
                },
    {
        self.fill_plane(0, LAST_PADDED_CHUNK_AXIS_INDEX, None, 0);
    }

    pub fn fill_neg_y(&mut self, chunk: &Chunk)
        requires
            old(self).wf(),
            chunk.wf(),
        ensures
            final(self).wf(),
            forall|x: int, y: int, z: int|
                #![trigger final(self).block_at(x, y, z)]
                in_padded(x, y, z) ==> final(self).block_at(x, y, z) == if on_face(1, 0, x, y, z) {
                    face_source(*chunk, 1, 15, x, y, z)
                } else {
                    old(self).block_at(x, y, z)
                },
    {
        self.fill_plane(1, 0, Some(chunk), LAST_CHUNK_AXIS_INDEX);
    }

    pub fn fill_neg_y_as_air(&mut self)
        requires
            old(self).wf(),
        ensures
            final(self).wf(),
            forall|x: int, y: int, z: int|
                #![trigger final(self).block_at(x, y, z)]
                in_padded(x, y, z) ==> final(self).block_at(x, y, z) == if on_face(1, 0, x, y, z) {
                    BlockInstance { id: AIR_BLOCK_ID }
                } else {
                    old(self).block_at(x, y, z)
                },
    {
        self.fill_plane(1, 0, None, 0);
    }

    pub fn fill_pos_y(&mut self, chunk: &Chunk)
        requires
            old(self).wf(),
            chunk.wf(),
        ensures
            final(self).wf(),
            forall|x: int, y: int, z: int|
                #![trigger final(self).block_at(x, y, z)]
                in_padded(x, y, z) ==> final(self).block_at(x, y, z) == if on_face(1, 17, x, y, z) {
                    face_source(*chunk, 1, 0, x, y, z)
                } else {
                    old(self).block_at(x, y, z)
                },
    {
        self.fill_plane(1, LAST_PADDED_CHUNK_AXIS_INDEX, Some(chunk), 0);
    }

    pub fn fill_pos_y_as_air(&mut self)
        requires
            old(self).wf(),
        ensures
            final(self).wf(),
            forall|x: int, y: int, z: int|
                #![trigger final(self).block_at(x, y, z)]
                in_padded(x, y, z) ==> final(self).block_at(x, y, z) == if on_face(1, 17, x, y, z) {
                    BlockInstance { id: AIR_BLOCK_ID }
                } else {
                    old(self).block_at(x, y, z)
                },
    {
        self.fill_plane(1, LAST_PADDED_CHUNK_AXIS_INDEX, None, 0);
    }

    pub fn fill_neg_z(&mut self, chunk: &Chunk)
        requires
            old(self).wf(),
            chunk.wf(),
        ensures
            final(self).wf(),
            forall|x: int, y: int, z: int|
                #![trigger final(self).block_at(x, y, z)]
                in_padded(x, y, z) ==> final(self).block_at(x, y, z) == if on_face(2, 0, x, y, z) {
                    face_source(*chunk, 2, 15, x, y, z)
                } else {
                    old(self).block_at(x, y, z)
                },
    {
        self.fill_plane(2, 0, Some(chunk), LAST_CHUNK_AXIS_INDEX);
    }

    pub fn fill_neg_z_as_air(&mut self)
        requires
            old(self).wf(),
        ensures
            final(self).wf(),
            forall|x: int, y: int, z: int|
                #![trigger final(self).block_at(x, y, z)]
                in_padded(x, y, z) ==> final(self).block_at(x, y, z) == if on_face(2, 0, x, y, z) {
                    BlockInstance { id: AIR_BLOCK_ID }
                } else {
                    old(self).block_at(x, y, z)
                },
    {
        self.fill_plane(2, 0, None, 0);
    }

    pub fn fill_pos_z(&mut self, chunk: &Chunk)
        requires
            old(self).wf(),
            chunk.wf(),
        ensures
            final(self).wf(),
            forall|x: int, y: int, z: int|
                #![trigger final(self).block_at(x, y, z)]
                in_padded(x, y, z) ==> final(self).block_at(x, y, z) == if on_face(2, 17, x, y, z) {
                    face_source(*chunk, 2, 0, x, y, z)
                } else {
                    old(self).block_at(x, y, z)
                },
    {
        self.fill_plane(2, LAST_PADDED_CHUNK_AXIS_INDEX, Some(chunk), 0);
    }

    pub fn fill_pos_z_as_air(&mut self)
        requires
            old(self).wf(),
        ensures
            final(self).wf(),
            forall|x: int, y: int, z: int|
                #![trigger final(self).block_at(x, y, z)]
                in_padded(x, y, z) ==> final(self).block_at(x, y, z) == if on_face(2, 17, x, y, z) {
                    BlockInstance { id: AIR_BLOCK_ID }
                } else {
                    old(self).block_at(x, y, z)
                },
    {
        self.fill_plane(2, LAST_PADDED_CHUNK_AXIS_INDEX, None, 0);
    }

    /// Fills the six faces of the border from the neighbours, or with air
    /// where a neighbour is missing.
    pub fn fill_edges(
        &mut self,
        neg_x: Option<&Chunk>,
        pos_x: Option<&Chunk>,
        neg_y: Option<&Chunk>,
        pos_y: Option<&Chunk>,
        neg_z: Option<&Chunk>,
        pos_z: Option<&Chunk>,
    )
        requires
            old(self).wf(),
            neighbour_ok(neg_x),
            neighbour_ok(pos_x),
            neighbour_ok(neg_y),
            neighbour_ok(pos_y),
            neighbour_ok(neg_z),
            neighbour_ok(pos_z),
        ensures
            final(self).wf(),
            forall|x: int, y: int, z: int|
                #![trigger final(self).block_at(x, y, z)]
                in_padded(x, y, z) ==> final(self).block_at(x, y, z) == filled_edges(
                    neg_x,
                    pos_x,
                    neg_y,
                    pos_y,
                    neg_z,
                    pos_z,
                    x,
                    y,
                    z,
                    old(self).block_at(x, y, z),
                ),
    {
        let ghost b0 = self.blocks@;
        if let Some(c) = neg_x {
            self.fill_neg_x(c);
        } else {
            self.fill_neg_x_as_air();
        }
        let ghost b1 = self.blocks@;
        if let Some(c) = pos_x {
            self.fill_pos_x(c);
        } else {
            self.fill_pos_x_as_air();
        }
        let ghost b2 = self.blocks@;
        if let Some(c) = neg_y {
            self.fill_neg_y(c);
        } else {
            self.fill_neg_y_as_air();
        }
        let ghost b3 = self.blocks@;
        if let Some(c) = pos_y {
            self.fill_pos_y(c);
        } else {
            self.fill_pos_y_as_air();
        }
        let ghost b4 = self.blocks@;
        if let Some(c) = neg_z {
            self.fill_neg_z(c);
        } else {
            self.fill_neg_z_as_air();
        }
        let ghost b5 = self.blocks@;
        if let Some(c) = pos_z {
            self.fill_pos_z(c);
        } else {
            self.fill_pos_z_as_air();
        }
    }

    pub fn fill_neg_x(&mut self, chunk: &Chunk)
        requires
            old(self).wf(),
            chunk.wf(),
        ensures
            final(self).wf(),
            forall|x: int, y: int, z: int|
                #![trigger final(self).block_at(x, y, z)]
                in_padded(x, y, z) ==> final(self).block_at(x, y, z) == if on_face(0, 0, x, y, z) {
                    face_source(*chunk, 0, 15, x, y, z)
                } else {
                    old(self).block_at(x, y, z)
                },
    {
        self.fill_plane(0, 0, Some(chunk), LAST_CHUNK_AXIS_INDEX);
    }
}


/// Where `fill_edges` takes each border cell from: a face cell at `x == 0`
/// mirrors layer 15 of the lower x neighbour and one at `x == 17` layer 0 of
/// the upper one (the layers touching the chunk), shifted by one on the two
/// other axes, and likewise along y and z; it is air where that neighbour is
/// missing. The centre and the edges and corners of the border keep `other`.
pub proof fn lemma_filled_faces_touch_chunk(
    neg_x: Option<&Chunk>,
    pos_x: Option<&Chunk>,
    neg_y: Option<&Chunk>,
    pos_y: Option<&Chunk>,
    neg_z: Option<&Chunk>,
    pos_z: Option<&Chunk>,
    x: int,
    y: int,
    z: int,
    other: BlockInstance,
) -> (b: BlockInstance)
    requires
        in_padded(x, y, z),
    ensures
        b == filled_edges(neg_x, pos_x, neg_y, pos_y, neg_z, pos_z, x, y, z, other),
        in_center(x, y, z) ==> b == other,
        (x == 0 && 1 <= y <= 16 && 1 <= z <= 16 && neg_x is Some) ==> b == neg_x.unwrap().block_at(15, y - 1, z - 1),
        (x == 17 && 1 <= y <= 16 && 1 <= z <= 16 && pos_x is Some) ==> b == pos_x.unwrap().block_at(0, y - 1, z - 1),
        (y == 0 && 1 <= x <= 16 && 1 <= z <= 16 && neg_y is Some) ==> b == neg_y.unwrap().block_at(x - 1, 15, z - 1),
        (y == 17 && 1 <= x <= 16 && 1 <= z <= 16 && pos_y is Some) ==> b == pos_y.unwrap().block_at(x - 1, 0, z - 1),
        (z == 0 && 1 <= x <= 16 && 1 <= y <= 16 && neg_z is Some) ==> b == neg_z.unwrap().block_at(x - 1, y - 1, 15),
        (z == 17 && 1 <= x <= 16 && 1 <= y <= 16 && pos_z is Some) ==> b == pos_z.unwrap().block_at(x - 1, y - 1, 0),
        (x == 0 && 1 <= y <= 16 && 1 <= z <= 16 && neg_x is None) ==> b == (BlockInstance { id: AIR_BLOCK_ID }),
        (x == 17 && 1 <= y <= 16 && 1 <= z <= 16 && pos_x is None) ==> b == (BlockInstance { id: AIR_BLOCK_ID }),
        (y == 0 && 1 <= x <= 16 && 1 <= z <= 16 && neg_y is None) ==> b == (BlockInstance { id: AIR_BLOCK_ID }),
        (y == 17 && 1 <= x <= 16 && 1 <= z <= 16 && pos_y is None) ==> b == (BlockInstance { id: AIR_BLOCK_ID }),
        (z == 0 && 1 <= x <= 16 && 1 <= y <= 16 && neg_z is None) ==> b == (BlockInstance { id: AIR_BLOCK_ID }),
        (z == 17 && 1 <= x <= 16 && 1 <= y <= 16 && pos_z is None) ==> b == (BlockInstance { id: AIR_BLOCK_ID }),
        ((x == 0 || x == 17) && (y == 0 || y == 17)) ==> b == other,
        ((x == 0 || x == 17) && (z == 0 || z == 17)) ==> b == other,
        ((y == 0 || y == 17) && (z == 0 || z == 17)) ==> b == other,
{
    filled_edges(neg_x, pos_x, neg_y, pos_y, neg_z, pos_z, x, y, z, other)
}

/// The padded chunk that `from_snapshot` builds: the centre holds the chunk
/// itself, shifted by one; each face cell mirrors the layer of the neighbour
/// on that side that touches the chunk (layer 15 of a lower neighbour,
/// layer 0 of an upper one), or air where that neighbour is missing; the
/// edges and corners of the border are air.
pub proof fn lemma_snapshot_layout(chunk: Chunk, s: MeshSnapshot, x: int, y: int, z: int) -> (b: BlockInstance)
    requires
        in_padded(x, y, z),
    ensures
        b == snapshot_block(chunk, s, x, y, z),
        in_center(x, y, z) ==> b == chunk.block_at(x - 1, y - 1, z - 1),
        (x == 0 && 1 <= y <= 16 && 1 <= z <= 16 && s.neg_x is Some) ==> b == s.neg_x.unwrap().block_at(15, y - 1, z - 1),
        (x == 17 && 1 <= y <= 16 && 1 <= z <= 16 && s.pos_x is Some) ==> b == s.pos_x.unwrap().block_at(0, y - 1, z - 1),
        (y == 0 && 1 <= x <= 16 && 1 <= z <= 16 && s.neg_y is Some) ==> b == s.neg_y.unwrap().block_at(x - 1, 15, z - 1),
        (y == 17 && 1 <= x <= 16 && 1 <= z <= 16 && s.pos_y is Some) ==> b == s.pos_y.unwrap().block_at(x - 1, 0, z - 1),
        (z == 0 && 1 <= x <= 16 && 1 <= y <= 16 && s.neg_z is Some) ==> b == s.neg_z.unwrap().block_at(x - 1, y - 1, 15),
        (z == 17 && 1 <= x <= 16 && 1 <= y <= 16 && s.pos_z is Some) ==> b == s.pos_z.unwrap().block_at(x - 1, y - 1, 0),
        (x == 0 && 1 <= y <= 16 && 1 <= z <= 16 && s.neg_x is None) ==> b == (BlockInstance { id: AIR_BLOCK_ID }),
        (x == 17 && 1 <= y <= 16 && 1 <= z <= 16 && s.pos_x is None) ==> b == (BlockInstance { id: AIR_BLOCK_ID }),
        (y == 0 && 1 <= x <= 16 && 1 <= z <= 16 && s.neg_y is None) ==> b == (BlockInstance { id: AIR_BLOCK_ID }),
        (y == 17 && 1 <= x <= 16 && 1 <= z <= 16 && s.pos_y is None) ==> b == (BlockInstance { id: AIR_BLOCK_ID }),
        (z == 0 && 1 <= x <= 16 && 1 <= y <= 16 && s.neg_z is None) ==> b == (BlockInstance { id: AIR_BLOCK_ID }),
        (z == 17 && 1 <= x <= 16 && 1 <= y <= 16 && s.pos_z is None) ==> b == (BlockInstance { id: AIR_BLOCK_ID }),
        !in_center(x, y, z) && (((x == 0 || x == 17) && (y == 0 || y == 17)) || ((x == 0 || x == 17) && (z == 0 || z
            == 17)) || ((y == 0 || y == 17) && (z == 0 || z == 17))) ==> b == (BlockInstance { id: AIR_BLOCK_ID }),
{
    let air = BlockInstance { id: AIR_BLOCK_ID };
    let _ = lemma_filled_faces_touch_chunk(s.neg_x, s.pos_x, s.neg_y, s.pos_y, s.neg_z, s.pos_z, x, y, z, air);
    snapshot_block(chunk, s, x, y, z)
}

} // verus!
