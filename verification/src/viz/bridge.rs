//! A small fixed region as one mesh, and the columns of the height map.

use vstd::prelude::*;

use crate::viz::mesher::{
    emit_chunk_faces, indices_of, open_faces, vertices_of, Vertex, VizMesh, CHUNK_FACES,
};
use crate::voxel::chunk::{ChunkCells, DenseChunk};
use crate::voxel::coords::{ChunkCoord, IVec3};

verus! {

/// Number of chunks of the region.
pub const REGION_CHUNKS: usize = 45;

/// The `n`-th chunk of the region: three by three columns from chunk -1 up to
/// chunk 3; x runs fastest, then z, then y.
pub open spec fn region_chunk(n: int) -> ChunkCoord {
    ChunkCoord(
        IVec3 { x: (n % 3) as i32, y: (n / 9 - 1) as i32, z: ((n / 3) % 3) as i32 },
    )
}

/// The chunks of the region, in the order in which they are meshed.
pub fn region_coords() -> (out: Vec<ChunkCoord>)
    ensures
        out@ == Seq::new(45, |n: int| region_chunk(n)),
{
    let mut out: Vec<ChunkCoord> = Vec::new();
    let mut n: i32 = 0;
    while n < 45
        invariant
            0 <= n <= 45,
            out@.len() == n,
            forall|k: int| 0 <= k < n ==> #[trigger] out@[k] == region_chunk(k),
        decreases 45 - n,
    {
        out.push(ChunkCoord(IVec3 { x: n % 3, y: n / 9 - 1, z: (n / 3) % 3 }));
        n = n + 1;
    }
    assert(out@ =~= Seq::new(45, |n: int| region_chunk(n)));
    out
}

/// The vertices of the first `n` chunks of the region.
pub open spec fn region_vertices(cells: Seq<ChunkCells>, n: nat) -> Seq<Vertex>
    decreases n,
{
    if n == 0 {
        Seq::empty()
    } else {
        let k = n - 1;
        region_vertices(cells, (n - 1) as nat) + vertices_of(
            region_chunk(k),
            cells[k].blocks,
            open_faces(cells[k].blocks, CHUNK_FACES as nat),
        )
    }
}

/// The triangles of the first `n` chunks of the region.
pub open spec fn region_indices(cells: Seq<ChunkCells>, n: nat) -> Seq<u32>
    decreases n,
{
    if n == 0 {
        Seq::empty()
    } else {
        let k = n - 1;
        region_indices(cells, (n - 1) as nat) + indices_of(
            region_vertices(cells, (n - 1) as nat).len() as int,
            open_faces(cells[k].blocks, CHUNK_FACES as nat).len(),
        )
    }
}

/// Chunks as plain mathematical values.
pub open spec fn cells_of(chunks: Seq<DenseChunk>) -> Seq<ChunkCells> {
    chunks.map_values(|c: DenseChunk| c@)
}

/// The mesh of the region, from its filled chunks in order.
pub fn regen_region_mesh(chunks: &Vec<DenseChunk>) -> (mesh: VizMesh)
    requires
        chunks@.len() == REGION_CHUNKS,
        forall|i: int| 0 <= i < chunks@.len() ==> (#[trigger] chunks@[i]).wf(),
    ensures
        mesh.vertices@ == region_vertices(cells_of(chunks@), 45),
        mesh.indices@ == region_indices(cells_of(chunks@), 45),
{
    let coords: Vec<ChunkCoord> = region_coords();
    let mut mesh: VizMesh = VizMesh { vertices: Vec::new(), indices: Vec::new() };
    let ghost cells = cells_of(chunks@);
    let mut n: usize = 0;
    assert(mesh.vertices@ =~= region_vertices(cells, 0));
    assert(mesh.indices@ =~= region_indices(cells, 0));
    while n < 45
        invariant
            n <= 45,
            chunks@.len() == 45,
            forall|i: int| 0 <= i < chunks@.len() ==> (#[trigger] chunks@[i]).wf(),
            cells == cells_of(chunks@),
            coords@ == Seq::new(45, |n: int| region_chunk(n)),
            mesh.vertices@ == region_vertices(cells, n as nat),
            mesh.indices@ == region_indices(cells, n as nat),
            mesh.vertices@.len() <= n * 4 * CHUNK_FACES,
        decreases 45 - n,
    {
        assert(coords@[n as int] == region_chunk(n as int));
        assert(cells[n as int] == chunks@[n as int]@);
        proof {
            crate::viz::mesher::lemma_open_faces_len(cells[n as int].blocks, CHUNK_FACES as nat);
        }
        emit_chunk_faces(&chunks[n], coords[n], &mut mesh);
        n = n + 1;
    }
    mesh
}

/// Side of the height map, in pixels.
pub const CROSS_RES: i32 = 256;

/// Blocks per pixel of the height map.
pub const CROSS_BLOCKS_PER_PX: i32 = 4;

/// The column that a pixel of the height map stands for: the middle pixel
/// stands for the origin.
pub fn cross_column(ix: u32, iz: u32) -> (c: (i32, i32))
    requires
        ix < CROSS_RES,
        iz < CROSS_RES,
    ensures
        c.0 == (ix - 128) * 4,
        c.1 == (iz - 128) * 4,
{
    ((ix as i32 - 128) * CROSS_BLOCKS_PER_PX, (iz as i32 - 128) * CROSS_BLOCKS_PER_PX)
}

} // verus!
