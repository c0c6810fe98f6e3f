use vstd::prelude::*;

verus! {

/// The render pipelines, in the order of their slots.
#[derive(Clone, Copy, Debug, PartialEq, Eq, Structural)]
pub enum PipelineType {
    Opaque,
    AlphaCutout,
    Translucent,
    Billboard,
    UI,
}

impl PipelineType {
    /// The slot of the pipeline.
    pub open spec fn spec_to_usize(self) -> usize {
        match self {
            PipelineType::Opaque => 0,
            PipelineType::AlphaCutout => 1,
            PipelineType::Translucent => 2,
            PipelineType::Billboard => 3,
            PipelineType::UI => 4,
        }
    }

    #[verifier::when_used_as_spec(spec_to_usize)]
    pub fn to_usize(self) -> (r: usize)
        ensures
            r == self.spec_to_usize(),
    {
        match self {
            PipelineType::Opaque => 0,
            PipelineType::AlphaCutout => 1,
            PipelineType::Translucent => 2,
            PipelineType::Billboard => 3,
            PipelineType::UI => 4,
        }
    }
}

/// The texture arrays every texture manager holds, in the order they are made.
#[allow(non_camel_case_types)]
#[derive(Clone, Copy, Debug, PartialEq, Eq, Structural)]
pub enum TextureArrayIndex {
    BLOCKS,
    ITEMS,
    BILLBOARDS,
}

impl TextureArrayIndex {
    /// The index of the array in the texture manager.
    pub open spec fn spec_to_usize(self) -> usize {
        match self {
            TextureArrayIndex::BLOCKS => 0,
            TextureArrayIndex::ITEMS => 1,
            TextureArrayIndex::BILLBOARDS => 2,
        }
    }

    #[verifier::when_used_as_spec(spec_to_usize)]
    pub fn to_usize(self) -> (r: usize)
        ensures
            r == self.spec_to_usize(),
    {
        match self {
            TextureArrayIndex::BLOCKS => 0,
            TextureArrayIndex::ITEMS => 1,
            TextureArrayIndex::BILLBOARDS => 2,
        }
    }
}

/// Where a texture lives: its array and its layer in that array.
#[derive(Clone, Copy, Debug, PartialEq, Eq, Structural)]
pub struct TextureID {
    pub array: usize,
    pub depth: u16,
}

impl TextureID {
    pub fn new(array: usize, depth: u16) -> (t: TextureID)
        ensures
            t == (TextureID { array, depth }),
    {
        TextureID { array, depth }
    }

    /// The layer of the texture in its array.
    pub fn depth(&self) -> (r: u16)
        ensures
            r == self.depth,
    {
        self.depth
    }
}

/// The layers of one texture array: the size of a layer, how many layers
/// it has, and the next layer to hand out.
#[derive(Clone, Copy, Debug, PartialEq, Eq, Structural)]
pub struct Texture2DArray {
    pub width: u16,
    pub height: u16,
    pub depth: u16,
    pub next_depth: u16,
}

impl Texture2DArray {
    /// An array of `depth` layers of `width` x `height` texels, each size
    /// kept in 16 bits, with every layer free.
    pub fn new(width: u32, height: u32, depth: u32) -> (a: Texture2DArray)
        ensures
            a.width == width as u16,
            a.height == height as u16,
            a.depth == depth as u16,
            a.next_depth == 0,
    {
        Texture2DArray { width: width as u16, height: height as u16, depth: depth as u16, next_depth: 0 }
    }

    /// Hands out the next layer.
    pub fn next_id(&mut self) -> (r: u16)
        requires
            old(self).next_depth < u16::MAX,
        ensures
            r == old(self).next_depth,
            *final(self) == (Texture2DArray { next_depth: (old(self).next_depth + 1) as u16, ..*old(self) }),
    {
        let depth = self.next_depth;
        self.next_depth = self.next_depth + 1;
        depth
    }

    /// The number of bytes of one layer's texels, four per texel.
    pub fn layer_len(&self) -> (r: usize)
        requires
            self.width * self.height * 4 <= u32::MAX,
        ensures
            r == self.width * self.height * 4,
    {
        proof {
            assert(self.width * self.height <= self.width * self.height * 4) by (nonlinear_arith);
        }
        (self.width as u32 * self.height as u32 * 4) as usize
    }

    /// The upload of the texels `data` to layer `depth` of this array, which
    /// is array `array` of its manager: the data must fill one layer.
    pub fn write_at(&self, array: usize, depth: u16, data: &[u8]) -> (w: TextureWrite)
        requires
            data@.len() == self.width * self.height * 4,
        ensures
            w.array == array,
            w.depth == depth,
            w.width == self.width,
            w.height == self.height,
            w.data@ == data@,
    {
        TextureWrite { array, depth, width: self.width, height: self.height, data: vstd::slice::slice_to_vec(data) }
    }

    pub fn width(&self) -> (r: u16)
        ensures
            r == self.width,
    {
        self.width
    }

    pub fn height(&self) -> (r: u16)
        ensures
            r == self.height,
    {
        self.height
    }

    pub fn depth(&self) -> (r: u16)
        ensures
            r == self.depth,
    {
        self.depth
    }
}

/// Texels to upload to one layer of a texture array: `width` x `height`
/// texels of four bytes, row after row.
#[derive(Debug)]
pub struct TextureWrite {
    pub array: usize,
    pub depth: u16,
    pub width: u16,
    pub height: u16,
    pub data: Vec<u8>,
}

/// `post` is `pre` with, after it, the upload of `data` to layer `depth` of
/// the array `a`, which is array `array` of its manager.
pub open spec fn queued_write(pre: Seq<TextureWrite>, post: Seq<TextureWrite>, array: usize, depth: u16, a: Texture2DArray, data: Seq<u8>) -> bool {
    &&& post.len() == pre.len() + 1
    &&& post.take(pre.len() as int) == pre
    &&& post.last().array == array
    &&& post.last().depth == depth
    &&& post.last().width == a.width
    &&& post.last().height == a.height
    &&& post.last().data@ == data
}

/// Why no texture slot could be handed out.
#[derive(Clone, Copy, Debug, PartialEq, Eq, Structural)]
pub enum TextureError {
    /// The array has no layer left.
    ArrayFull,
    /// No array has that index.
    NoSuchArray,
}

/// The texture arrays of the renderer and the hardware limits they live
/// with, and the texel uploads not yet handed to the GPU, oldest first.
pub struct TextureManager {
    pub arrays: Vec<Texture2DArray>,
    pub max_texture_size: u32,
    pub max_array_depth: u32,
    pub writes: Vec<TextureWrite>,
}

impl TextureManager {
    /// A manager with the block, item and billboard arrays, in that order,
    /// each of layers of the hardware's largest texture size, at most 32.
    pub fn new(max_texture_size: u32, max_array_depth: u32) -> (m: TextureManager)
        ensures
            m.max_texture_size == max_texture_size,
            m.max_array_depth == max_array_depth,
            m.arrays@.len() == 3,
            m.writes@.len() == 0,
            forall|i: int|
                0 <= i < 3 ==> #[trigger] m.arrays@[i] == Texture2DArray::new_spec(
                    if max_texture_size < 32 { max_texture_size } else { 32 },
                    max_array_depth,
                ),
    {
        let size: u16 = if max_texture_size < 32 { max_texture_size as u16 } else { 32 };
        let mut instance = TextureManager { arrays: Vec::new(), max_texture_size, max_array_depth, writes: Vec::new() };
        let blocks = instance.make_new_array(size, size);
        let items = instance.make_new_array(size, size);
        let billboards = instance.make_new_array(size, size);
        assert(blocks == TextureArrayIndex::BLOCKS.to_usize());
        assert(items == TextureArrayIndex::ITEMS.to_usize());
        assert(billboards == TextureArrayIndex::BILLBOARDS.to_usize());
        instance
    }

    /// Adds an array of layers of `width` x `height` texels, with as many
    /// layers as the hardware allows, and gives its index.
    pub fn make_new_array(&mut self, width: u16, height: u16) -> (r: usize)
        requires
            width <= old(self).max_texture_size,
            height <= old(self).max_texture_size,
        ensures
            r == old(self).arrays@.len(),
            final(self).arrays@ == old(self).arrays@.push(
                Texture2DArray { width, height, depth: old(self).max_array_depth as u16, next_depth: 0 },
            ),
            final(self).writes@ == old(self).writes@,
            final(self).max_texture_size == old(self).max_texture_size,
            final(self).max_array_depth == old(self).max_array_depth,
    {
        let id = self.arrays.len();
        let array = Texture2DArray::new(width as u32, height as u32, self.max_array_depth);
        self.arrays.push(array);
        id
    }

    /// Hands out the next layer of the array `array_index`. The layer is
    /// used up even when it lies past the hardware's limit, which is then
    /// an error.
    pub fn find_place(&mut self, array_index: TextureArrayIndex) -> (r: Result<TextureID, TextureError>)
        requires
            array_index.spec_to_usize() < old(self).arrays@.len() ==> old(self).arrays@[array_index.spec_to_usize() as int].next_depth
                < u16::MAX,
        ensures
            final(self).max_texture_size == old(self).max_texture_size,
            final(self).max_array_depth == old(self).max_array_depth,
            final(self).writes@ == old(self).writes@,
            ({
                let idx = array_index.spec_to_usize() as int;
                if idx < old(self).arrays@.len() {
                    let a = old(self).arrays@[idx];
                    &&& final(self).arrays@ == old(self).arrays@.update(
                        idx,
                        Texture2DArray { next_depth: (a.next_depth + 1) as u16, ..a },
                    )
                    &&& r == if a.next_depth > old(self).max_array_depth as u16 {
                        Err(TextureError::ArrayFull)
                    } else {
                        Ok(TextureID { array: idx as usize, depth: a.next_depth })
                    }
                } else {
                    &&& final(self).arrays@ == old(self).arrays@
                    &&& r == Err::<TextureID, TextureError>(TextureError::NoSuchArray)
                }
            }),
    {
        let idx = array_index.to_usize();
        if idx < self.arrays.len() {
            let mut array = self.arrays[idx];
            let depth = array.next_id();
            self.arrays.set(idx, array);
            if depth > self.max_array_depth as u16 {
                Err(TextureError::ArrayFull)
            } else {
                Ok(TextureID::new(idx, depth))
            }
        } else {
            Err(TextureError::NoSuchArray)
        }
    }

    /// Queues the upload of the texels `texture` to the layer of `id`, when
    /// its array exists; the texels must then fill one layer of that array.
    pub fn write(&mut self, texture: &[u8], id: &TextureID)
        requires
            id.array < old(self).arrays@.len() ==> texture@.len() == old(self).arrays@[id.array as int].width
                * old(self).arrays@[id.array as int].height * 4,
        ensures
            final(self).arrays@ == old(self).arrays@,
            final(self).max_texture_size == old(self).max_texture_size,
            final(self).max_array_depth == old(self).max_array_depth,
            if id.array < old(self).arrays@.len() {
                queued_write(old(self).writes@, final(self).writes@, id.array, id.depth, old(self).arrays@[id.array as int], texture@)
            } else {
                final(self).writes@ == old(self).writes@
            },
    {
        if id.array < self.arrays.len() {
            let w = self.arrays[id.array].write_at(id.array, id.depth, texture);
            self.writes.push(w);
            proof {
                assert(self.writes@.take(old(self).writes@.len() as int) =~= old(self).writes@);
            }
        }
    }

    /// Reserves the layer of the array `array` for the texture `texture`
    /// of `width` x `height` texels, four bytes each, and queues the upload
    /// of the texels to that layer, whose size they must fill.
    pub fn register(&mut self, array: TextureArrayIndex, texture: &[u8], width: u16, height: u16) -> (r: TextureID)
        requires
            width * height * 4 <= u32::MAX,
            texture@.len() == width * height * 4,
            array.spec_to_usize() < old(self).arrays@.len(),
            old(self).arrays@[array.spec_to_usize() as int].next_depth < u16::MAX,
            old(self).arrays@[array.spec_to_usize() as int].next_depth <= old(self).max_array_depth as u16,
            texture@.len() == old(self).arrays@[array.spec_to_usize() as int].width
                * old(self).arrays@[array.spec_to_usize() as int].height * 4,
        ensures
            ({
                let idx = array.spec_to_usize() as int;
                let a = old(self).arrays@[idx];
                &&& r == (TextureID { array: idx as usize, depth: a.next_depth })
                &&& final(self).arrays@ == old(self).arrays@.update(idx, Texture2DArray { next_depth: (a.next_depth + 1) as u16, ..a })
                &&& queued_write(old(self).writes@, final(self).writes@, idx as usize, a.next_depth, a, texture@)
            }),
            final(self).max_texture_size == old(self).max_texture_size,
            final(self).max_array_depth == old(self).max_array_depth,
    {
        match self.find_place(array) {
            Ok(id) => {
                self.write(texture, &id);
                id
            },
            Err(_) => {
                assert(false);
                TextureID::new(0, 0)
            },
        }
    }

    /// Hands over the queued texel uploads, oldest first, and forgets them.
    pub fn take_writes(&mut self) -> (r: Vec<TextureWrite>)
        ensures
            r@ == old(self).writes@,
            final(self).writes@.len() == 0,
            final(self).arrays@ == old(self).arrays@,
            final(self).max_texture_size == old(self).max_texture_size,
            final(self).max_array_depth == old(self).max_array_depth,
    {
        let mut taken: Vec<TextureWrite> = Vec::new();
        std::mem::swap(&mut taken, &mut self.writes);
        taken
    }

    /// The array `index`.
    pub fn get_array(&self, index: TextureArrayIndex) -> (r: &Texture2DArray)
        requires
            index.spec_to_usize() < self.arrays@.len(),
        ensures
            *r == self.arrays@[index.spec_to_usize() as int],
    {
        &self.arrays[index.to_usize()]
    }
}

impl Texture2DArray {
    /// The array `new` makes.
    pub open spec fn new_spec(size: u32, depth: u32) -> Texture2DArray {
        Texture2DArray { width: size as u16, height: size as u16, depth: depth as u16, next_depth: 0 }
    }
}

} // verus!
