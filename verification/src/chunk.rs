use vstd::prelude::*;
use crate::block::BlockInstance;

verus! {

/// Number of blocks along one edge of a chunk.
pub const CHUNK_SIZE: i32 = 16;
/// Number of blocks in one horizontal layer of a chunk.
pub const CHUNK_SIZE_SQR: i32 = 256;
/// Number of blocks in a chunk.
pub const CHUNK_BLOCK_NUMBER: usize = 4096;
/// Index of the last block along one axis of a chunk.
pub const LAST_CHUNK_AXIS_INDEX: i32 = 15;
/// Index of the last block along one axis of a chunk, as an index.
pub const LAST_CHUNK_AXIS_INDEX_USIZE: usize = 15;

/// Linear index of local block coordinates inside a chunk (x fastest, z slowest).
pub open spec fn chunk_index(x: int, y: int, z: int) -> int {
    x + y * 16 + z * 256
}

/// The index computation `x + y * 16 + z * 256` of `i32`s neither overflows
/// nor leaves the chunk.
pub open spec fn chunk_index_ok(x: i32, y: i32, z: i32) -> bool {
    &&& i32::MIN <= y * 16 <= i32::MAX
    &&& i32::MIN <= z * 256 <= i32::MAX
    &&& i32::MIN <= x + y * 16 <= i32::MAX
    &&& 0 <= chunk_index(x as int, y as int, z as int) < 4096
}

/// Local coordinates of a block inside a chunk.
pub open spec fn in_chunk(x: int, y: int, z: int) -> bool {
    0 <= x < 16 && 0 <= y < 16 && 0 <= z < 16
}

/// Every block of a chunk has its place among the chunk's 4096 blocks.
pub proof fn lemma_chunk_index_in_range(x: int, y: int, z: int)
    requires
        in_chunk(x, y, z),
    ensures
        0 <= chunk_index(x, y, z) < 4096,
{
}

/// Whether a chunk's data has been meshed since it was generated.
#[derive(Clone, Copy, Debug, PartialEq, Eq, Structural)]
pub enum ChunkState {
    Pending,
    Ready,
}

/// A cubic block of 16 x 16 x 16 blocks, at chunk coordinates `(x, y, z)`.
pub struct Chunk {
    pub blocks: Vec<BlockInstance>,
    pub x: i32,
    pub y: i32,
    pub z: i32,
}

/// A chunk together with its meshing state.
pub struct ChunkData {
    pub chunk: Chunk,
    pub state: ChunkState,
    pub is_dirty: bool,
}

impl Chunk {
    /// The blocks of the chunk, indexed by `chunk_index`.
    pub open spec fn view(&self) -> Seq<BlockInstance> {
        self.blocks@
    }

    /// A chunk holds exactly one block per position.
    pub open spec fn wf(&self) -> bool {
        self.blocks@.len() == 4096
    }

    /// The block at local coordinates `(x, y, z)`.
    pub open spec fn block_at(&self, x: int, y: int, z: int) -> BlockInstance {
        self.blocks@[chunk_index(x, y, z)]
    }

    /// A chunk at chunk coordinates `(x, y, z)` whose every block is `block`.
    pub fn filled(x: i32, y: i32, z: i32, block: BlockInstance) -> (c: Chunk)
        ensures
            c.wf(),
            c.x == x && c.y == y && c.z == z,
            forall|i: int| 0 <= i < 4096 ==> #[trigger] c.blocks@[i] == block,
    {
        let mut blocks: Vec<BlockInstance> = Vec::new();
        let mut i: usize = 0;
        while i < CHUNK_BLOCK_NUMBER
            invariant
                i <= 4096,
                blocks@.len() == i,
                forall|j: int| 0 <= j < i ==> #[trigger] blocks@[j] == block,
            decreases 4096 - i,
        {
            blocks.push(block);
            i = i + 1;
        }
        Chunk { blocks, x, y, z }
    }

    /// A copy of the chunk.
    pub fn duplicate(&self) -> (c: Chunk)
        ensures
            c.blocks@ == self.blocks@,
            c.x == self.x && c.y == self.y && c.z == self.z,
    {
        let mut blocks: Vec<BlockInstance> = Vec::new();
        let mut i: usize = 0;
        while i < self.blocks.len()
            invariant
                i <= self.blocks@.len(),
                blocks@ == self.blocks@.subrange(0, i as int),
            decreases self.blocks@.len() - i,
        {
            blocks.push(self.blocks[i]);
            i = i + 1;
        }
        Chunk { blocks, x: self.x, y: self.y, z: self.z }
    }

    pub fn get_block_from_xyz(&self, x: i32, y: i32, z: i32) -> (b: BlockInstance)
        requires
            self.wf(),
            chunk_index_ok(x, y, z),
        ensures
            b == self.block_at(x as int, y as int, z as int),
    {
        self.get_block_from_i((x + y * CHUNK_SIZE + z * CHUNK_SIZE_SQR) as usize)
    }

    pub fn get_block_from_i(&self, i: usize) -> (b: BlockInstance)
        requires
            i < self.blocks@.len(),
        ensures
            b == self.blocks@[i as int],
    {
        self.blocks[i]
    }

    pub fn set_block_from_xyz(&mut self, x: i32, y: i32, z: i32, block: BlockInstance)
        requires
            old(self).wf(),
            chunk_index_ok(x, y, z),
        ensures
            final(self).wf(),
            final(self).blocks@ == old(self).blocks@.update(chunk_index(x as int, y as int, z as int), block),
            final(self).x == old(self).x && final(self).y == old(self).y && final(self).z == old(self).z,
    {
        self.set_block_from_i((x + y * CHUNK_SIZE + z * CHUNK_SIZE_SQR) as usize, block);
    }

    pub fn set_block_from_i(&mut self, i: usize, block: BlockInstance)
        requires
            i < old(self).blocks@.len(),
        ensures
            final(self).blocks@ == old(self).blocks@.update(i as int, block),
            final(self).x == old(self).x && final(self).y == old(self).y && final(self).z == old(self).z,
    {
        self.blocks.set(i, block);
    }
}

impl ChunkData {
    /// A freshly generated chunk, ready and waiting to be meshed.
    pub fn new(chunk: Chunk) -> (d: ChunkData)
        ensures
            d.chunk == chunk,
            d.state == ChunkState::Ready,
            d.is_dirty,
    {
        ChunkData { chunk, state: ChunkState::Ready, is_dirty: true }
    }

    /// Marks the chunk as needing a new mesh, unless it is still pending.
    pub fn set_dirty(&mut self)
        ensures
            final(self).chunk == old(self).chunk,
            final(self).state == old(self).state,
            final(self).is_dirty == (old(self).is_dirty || old(self).state == ChunkState::Ready),
    {
        match self.state {
            ChunkState::Ready => {
                self.is_dirty = true;
            },
            ChunkState::Pending => {},
        }
    }
}

} // verus!
