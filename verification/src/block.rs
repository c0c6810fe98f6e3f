use vstd::prelude::*;

verus! {

/// The numeric identifier of the "air" block: the only non-solid block.
pub const AIR_BLOCK_ID: u16 = 0;

/// One block of the world, identified by its registered block id.
#[derive(Clone, Copy, Debug, PartialEq, Eq, Structural)]
pub struct BlockInstance {
    pub id: u16,
}

impl BlockInstance {
    /// Whether a block lets no light through and collides with bodies.
    pub open spec fn spec_is_solid(&self) -> bool {
        self.id != AIR_BLOCK_ID
    }

    /// The empty block.
    pub fn air() -> (b: BlockInstance)
        ensures
            b.id == AIR_BLOCK_ID,
            !b.spec_is_solid(),
    {
        BlockInstance { id: AIR_BLOCK_ID }
    }

    /// A block of the given id.
    pub fn new(id: u16) -> (b: BlockInstance)
        ensures
            b.id == id,
    {
        BlockInstance { id }
    }

    #[verifier::when_used_as_spec(spec_is_solid)]
    pub fn is_solid(&self) -> (r: bool)
        ensures
            r == self.spec_is_solid(),
    {
        self.id != AIR_BLOCK_ID
    }

    /// The layer of the block texture array that holds this block's texture.
    pub open spec fn spec_texture_index(&self) -> u32 {
        self.id as u32
    }

    #[verifier::when_used_as_spec(spec_texture_index)]
    pub fn texture_index(&self) -> (r: u32)
        ensures
            r == self.spec_texture_index(),
    {
        self.id as u32
    }
}

} // verus!
