//! Chunk contents: the dense working form, the palette-compressed stored form,
//! and the context a relight needs.

use vstd::prelude::*;

use crate::voxel::block::{Block, BlockRegistry};
use crate::voxel::coords::{ChunkCoord, LocalPos, CHUNK_VOLUME};

verus! {

/// What a chunk holds, cell by cell.
#[verifier::ext_equal]
pub struct ChunkCells {
    pub blocks: Seq<Block>,
    pub sky: Seq<u8>,
    pub rgb: Seq<u16>,
}

impl ChunkCells {
    /// One entry per cell in every array.
    pub open spec fn full(self) -> bool {
        &&& self.blocks.len() == CHUNK_VOLUME
        &&& self.sky.len() == CHUNK_VOLUME
        &&& self.rgb.len() == CHUNK_VOLUME
    }
}

/// Channel `c` of a packed block-light cell: four bits per channel, red lowest.
#[verifier::opaque]
pub open spec fn rgb_level(cell: u16, c: int) -> int {
    if c == 0 {
        cell as int % 16
    } else if c == 1 {
        cell as int / 16 % 16
    } else {
        cell as int / 256 % 16
    }
}

/// The packed form of three channel levels.
pub open spec fn packed_rgb(r: int, g: int, b: int) -> int {
    r + 16 * g + 256 * b
}

/// Pack three channel levels into one cell.
pub fn pack_rgb(r: u8, g: u8, b: u8) -> (cell: u16)
    requires
        r <= 15,
        g <= 15,
        b <= 15,
    ensures
        cell == packed_rgb(r as int, g as int, b as int),
        rgb_level(cell, 0) == r,
        rgb_level(cell, 1) == g,
        rgb_level(cell, 2) == b,
{
    proof {
        reveal(rgb_level);
    }
    r as u16 + g as u16 * 16 + b as u16 * 256
}

/// The three channel levels of a cell.
pub fn unpack_rgb(cell: u16) -> (rgb: (u8, u8, u8))
    ensures
        rgb.0 == rgb_level(cell, 0),
        rgb.1 == rgb_level(cell, 1),
        rgb.2 == rgb_level(cell, 2),
        rgb.0 <= 15,
        rgb.1 <= 15,
        rgb.2 <= 15,
{
    proof {
        reveal(rgb_level);
    }
    ((cell % 16) as u8, (cell / 16 % 16) as u8, (cell / 256 % 16) as u8)
}

/// Unpacking gives back what was packed, and a packed cell is rebuilt from its
/// channels.
pub proof fn law_rgb_round_trip(r: u8, g: u8, b: u8, cell: u16)
    requires
        r <= 15,
        g <= 15,
        b <= 15,
        cell < 4096,
    ensures
        rgb_level(packed_rgb(r as int, g as int, b as int) as u16, 0) == r,
        rgb_level(packed_rgb(r as int, g as int, b as int) as u16, 1) == g,
        rgb_level(packed_rgb(r as int, g as int, b as int) as u16, 2) == b,
        packed_rgb(rgb_level(cell, 0), rgb_level(cell, 1), rgb_level(cell, 2)) == cell,
{
    reveal(rgb_level);
}

/// Channel levels are four bits wide.
pub broadcast proof fn lemma_rgb_level_range(cell: u16, c: int)
    ensures
        0 <= #[trigger] rgb_level(cell, c) <= 15,
{
    reveal(rgb_level);
}

/// A chunk with one array entry per cell.
#[derive(Debug, Clone)]
pub struct DenseChunk {
    pub blocks: Vec<Block>,
    /// Sky light per cell, `0..=15`.
    pub sky_light: Vec<u8>,
    /// Packed block light per cell.
    pub block_rgb: Vec<u16>,
}

impl View for DenseChunk {
    type V = ChunkCells;

    open spec fn view(&self) -> ChunkCells {
        ChunkCells { blocks: self.blocks@, sky: self.sky_light@, rgb: self.block_rgb@ }
    }
}

impl DenseChunk {
    /// Every array has one entry per cell.
    pub open spec fn wf(&self) -> bool {
        self@.full()
    }

    /// A chunk of air with no light.
    pub fn empty() -> (c: DenseChunk)
        ensures
            c.wf(),
            forall|i: int| 0 <= i < CHUNK_VOLUME ==> #[trigger] c.blocks@[i] == Block::Air,
            forall|i: int| 0 <= i < CHUNK_VOLUME ==> #[trigger] c.sky_light@[i] == 0,
            forall|i: int| 0 <= i < CHUNK_VOLUME ==> #[trigger] c.block_rgb@[i] == 0,
    {
        DenseChunk::new_filled(Block::Air)
    }

    /// A chunk made of one block kind, with no light.
    pub fn new_filled(block: Block) -> (c: DenseChunk)
        ensures
            c.wf(),
            forall|i: int| 0 <= i < CHUNK_VOLUME ==> #[trigger] c.blocks@[i] == block,
            forall|i: int| 0 <= i < CHUNK_VOLUME ==> #[trigger] c.sky_light@[i] == 0,
            forall|i: int| 0 <= i < CHUNK_VOLUME ==> #[trigger] c.block_rgb@[i] == 0,
    {
        DenseChunk {
            blocks: vec![block; CHUNK_VOLUME],
            sky_light: vec![0u8; CHUNK_VOLUME],
            block_rgb: vec![0u16; CHUNK_VOLUME],
        }
    }

    pub fn set(&mut self, pos: LocalPos, block: Block)
        requires
            old(self).wf(),
            pos.in_chunk(),
        ensures
            final(self).wf(),
            final(self)@ == (ChunkCells {
                blocks: old(self)@.blocks.update(pos.index(), block),
                ..old(self)@
            }),
    {
        self.blocks.set(pos.to_index(), block);
    }

    pub fn get(&self, pos: LocalPos) -> (b: Block)
        requires
            self.wf(),
            pos.in_chunk(),
        ensures
            b == self@.blocks[pos.index()],
    {
        self.blocks[pos.to_index()]
    }
}

/// The six face neighbours of a chunk, in face order, where loaded.
pub struct Neighbors<'a> {
    pub chunks: [Option<&'a DenseChunk>; 6],
}

impl<'a> Neighbors<'a> {
    /// Every loaded neighbour is well formed.
    pub open spec fn wf(&self) -> bool {
        forall|f: int|
            0 <= f < 6 ==> ((#[trigger] self.chunks@[f]) matches Some(n) ==> n.wf())
    }
}

/// What is known of the sky above a chunk when the chunk above is not loaded:
/// per column, the light entering the chunk's top face.
#[derive(Debug)]
pub struct ChunkLightInputs {
    pub top_sky: Vec<u8>,
}

impl ChunkLightInputs {
    /// One valid light level for every column.
    pub open spec fn wf(&self) -> bool {
        &&& self.top_sky@.len() == 1024
        &&& forall|i: int| 0 <= i < 1024 ==> #[trigger] self.top_sky@[i] <= 15
    }

    /// Light entering the top of column `(x, z)`.
    pub open spec fn top(&self, x: int, z: int) -> u8 {
        self.top_sky@[x + 32 * z]
    }

    pub fn top_sky_at(&self, x: u32, z: u32) -> (l: u8)
        requires
            self.wf(),
            x < 32,
            z < 32,
        ensures
            l == self.top(x as int, z as int),
    {
        self.top_sky[(x + z * 32) as usize]
    }

    /// Inputs for a chunk of which nothing is known above: no light enters.
    pub fn from_dense(_dense: &DenseChunk, _coord: ChunkCoord, _reg: &BlockRegistry) -> (s: Self)
        ensures
            s.wf(),
            forall|i: int| 0 <= i < 1024 ==> #[trigger] s.top_sky@[i] == 0,
    {
        ChunkLightInputs { top_sky: vec![0u8; 1024] }
    }

    /// Inputs from a surface-height lookup: a column whose surface lies below
    /// the cell on top of the chunk is open to the sky; a column of unknown
    /// surface is dark.
    pub fn from_dense_with_surface<F: Fn(i32, i32) -> Option<i32>>(
        _dense: &DenseChunk,
        coord: ChunkCoord,
        _reg: &BlockRegistry,
        surface: F,
    ) -> (s: Self)
        requires
            coord.addressable(),
            forall|wx: i32, wz: i32| call_requires(surface, (wx, wz)),
        ensures
            s.wf(),
            forall|x: int, z: int|
                #![trigger s.top(x, z)]
                0 <= x < 32 && 0 <= z < 32 ==> follows_surface(surface, coord, x, z, s.top(x, z)),
    {
        let base_x: i32 = coord.0.x * 32;
        let base_z: i32 = coord.0.z * 32;
        let ceiling: i64 = (coord.0.y as i64 + 1) * 32;
        let mut top_sky: Vec<u8> = Vec::new();
        let mut k: usize = 0;
        while k < 1024
            invariant
                k <= 1024,
                coord.addressable(),
                base_x == 32 * coord.0.x,
                base_z == 32 * coord.0.z,
                ceiling == 32 * (coord.0.y + 1),
                forall|wx: i32, wz: i32| call_requires(surface, (wx, wz)),
                top_sky@.len() == k,
                forall|i: int|
                    #![trigger top_sky@[i]]
                    0 <= i < k ==> follows_surface(surface, coord, i % 32, i / 32, top_sky@[i]),
            decreases 1024 - k,
        {
            let wx: i32 = base_x + (k % 32) as i32;
            let wz: i32 = base_z + (k / 32) as i32;
            let h = surface(wx, wz);
            let open = match h {
                Some(y) => (y as i64) < ceiling,
                None => false,
            };
            let level: u8 = if open {
                15
            } else {
                0
            };
            proof {
                let arg = ((32 * coord.0.x + k as int % 32) as i32, (32 * coord.0.z + k as int
                    / 32) as i32);
                assert(arg == (wx, wz));
                assert(call_ensures(surface, arg, h) && level == open_sky_level(coord, h));
                assert(follows_surface(surface, coord, k as int % 32, k as int / 32, level));
            }
            top_sky.push(level);
            k = k + 1;
        }
        let s = ChunkLightInputs { top_sky };
        proof {
            assert forall|x: int, z: int|
                #![trigger s.top(x, z)]
                0 <= x < 32 && 0 <= z < 32 implies follows_surface(
                surface,
                coord,
                x,
                z,
                s.top(x, z),
            ) by {
                let i = x + 32 * z;
                assert(i % 32 == x && i / 32 == z);
                assert(s.top(x, z) == s.top_sky@[i]);
            }
        }
        s
    }
}

/// `level` is the sky light that a surface lookup gives for column `(x, z)` of
/// a chunk.
pub open spec fn follows_surface<F: Fn(i32, i32) -> Option<i32>>(
    surface: F,
    coord: ChunkCoord,
    x: int,
    z: int,
    level: u8,
) -> bool {
    exists|h: Option<i32>|
        call_ensures(surface, ((32 * coord.0.x + x) as i32, (32 * coord.0.z + z) as i32), h)
            && level == open_sky_level(coord, h)
}

/// Sky light entering a chunk's top face in a column whose surface is at `h`.
pub open spec fn open_sky_level(coord: ChunkCoord, h: Option<i32>) -> u8 {
    match h {
        Some(y) => if y < 32 * (coord.0.y + 1) {
            15
        } else {
            0
        },
        None => 0,
    }
}

/// A chunk in stored form: each cell's block is an index into a palette of the
/// blocks that occur.
#[derive(Debug)]
pub struct PalettedChunk {
    palette: Vec<Block>,
    indices: Vec<u16>,
    sky_light: Vec<u8>,
    block_rgb: Vec<u16>,
}

impl View for PalettedChunk {
    type V = ChunkCells;

    closed spec fn view(&self) -> ChunkCells {
        ChunkCells {
            blocks: Seq::new(
                self.indices@.len(),
                |i: int| self.palette@[self.indices@[i] as int],
            ),
            sky: self.sky_light@,
            rgb: self.block_rgb@,
        }
    }
}

impl PalettedChunk {
    pub closed spec fn wf(&self) -> bool {
        &&& self@.full()
        &&& self.indices@.len() == CHUNK_VOLUME
        &&& self.sky_light@.len() == CHUNK_VOLUME
        &&& self.block_rgb@.len() == CHUNK_VOLUME
        &&& forall|i: int|
            0 <= i < CHUNK_VOLUME ==> (#[trigger] self.indices@[i]) < self.palette@.len()
    }

    /// A well-formed stored chunk holds something in every cell.
    pub proof fn lemma_full(&self)
        requires
            self.wf(),
        ensures
            self@.full(),
    {
    }

    /// The stored form of a chunk.
    pub fn compress(dense: &DenseChunk) -> (p: PalettedChunk)
        requires
            dense.wf(),
        ensures
            p.wf(),
            p@ == dense@,
    {
        let mut palette: Vec<Block> = Vec::new();
        let mut indices: Vec<u16> = Vec::new();
        let mut sky_light: Vec<u8> = Vec::new();
        let mut block_rgb: Vec<u16> = Vec::new();
        let mut i: usize = 0;
        while i < CHUNK_VOLUME
            invariant
                dense.wf(),
                i <= CHUNK_VOLUME,
                palette@.len() <= i,
                indices@.len() == i,
                forall|j: int| 0 <= j < i ==> (#[trigger] indices@[j]) < palette@.len(),
                forall|j: int|
                    0 <= j < i ==> palette@[(#[trigger] indices@[j]) as int] == dense.blocks@[j],
                sky_light@ == dense.sky_light@.take(i as int),
                block_rgb@ == dense.block_rgb@.take(i as int),
            decreases CHUNK_VOLUME - i,
        {
            let block = dense.blocks[i];
            let mut slot: usize = 0;
            while slot < palette.len() && palette[slot] != block
                invariant
                    slot <= palette@.len(),
                decreases palette@.len() - slot,
            {
                slot = slot + 1;
            }
            if slot == palette.len() {
                palette.push(block);
            }
            indices.push(slot as u16);
            sky_light.push(dense.sky_light[i]);
            block_rgb.push(dense.block_rgb[i]);
            i = i + 1;
        }
        let p = PalettedChunk { palette, indices, sky_light, block_rgb };
        assert(p@ =~= dense@);
        p
    }

    /// The dense form of a stored chunk.
    pub fn decompress(&self) -> (d: DenseChunk)
        requires
            self.wf(),
        ensures
            d.wf(),
            d@ == self@,
    {
        let mut d = DenseChunk {
            blocks: Vec::new(),
            sky_light: Vec::new(),
            block_rgb: Vec::new(),
        };
        let mut i: usize = 0;
        while i < CHUNK_VOLUME
            invariant
                self.wf(),
                i <= CHUNK_VOLUME,
                d.blocks@ == self@.blocks.take(i as int),
                d.sky_light@ == self@.sky.take(i as int),
                d.block_rgb@ == self@.rgb.take(i as int),
            decreases CHUNK_VOLUME - i,
        {
            let slot: u16 = self.indices[i];
            d.blocks.push(self.palette[slot as usize]);
            d.sky_light.push(self.sky_light[i]);
            d.block_rgb.push(self.block_rgb[i]);
            i = i + 1;
        }
        assert(d@ =~= self@);
        d
    }

    /// Block in the cell with array index `i`.
    pub fn block_at(&self, i: usize) -> (b: Block)
        requires
            self.wf(),
            i < CHUNK_VOLUME,
        ensures
            b == self@.blocks[i as int],
    {
        self.palette[self.indices[i] as usize]
    }

    /// Sky light of the cell with array index `i`.
    pub fn sky_light_at(&self, i: usize) -> (l: u8)
        requires
            self.wf(),
            i < CHUNK_VOLUME,
        ensures
            l == self@.sky[i as int],
    {
        self.sky_light[i]
    }
}

} // verus!
