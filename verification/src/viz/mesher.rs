//! Meshes of chunks: one quad per open face.

use vstd::prelude::*;

use crate::mesher::{face_at, Face};
use crate::voxel::block::Block;
use crate::voxel::chunk::DenseChunk;
use crate::voxel::coords::{law_cell_index_digits, ChunkCoord, LocalPos, CHUNK_VOLUME};

verus! {

/// A corner of a quad: where it stands, and the block and face it colours.
#[derive(Debug, Clone, Copy, PartialEq, Eq, Structural)]
pub struct Vertex {
    pub x: i64,
    pub y: i64,
    pub z: i64,
    pub block: Block,
    pub face: Face,
}

/// Vertices, and the triangles they form, three indices each.
#[derive(Debug, Clone)]
pub struct VizMesh {
    pub vertices: Vec<Vertex>,
    pub indices: Vec<u32>,
}

/// Blocks that are drawn and hide what is behind them.
pub open spec fn solid(b: Block) -> bool {
    b != Block::Air && b != Block::Water
}

pub fn is_solid(b: Block) -> (r: bool)
    ensures
        r == solid(b),
{
    b != Block::Air && b != Block::Water
}

/// The cell beyond face `f` of cell `i`, if it is in the same chunk.
pub open spec fn cell_beyond(i: int, f: int) -> Option<int> {
    let step = face_at(f).step();
    let x = i % 32 + step.0;
    let y = (i / 32) % 32 + step.1;
    let z = i / 1024 + step.2;
    if 0 <= x < 32 && 0 <= y < 32 && 0 <= z < 32 {
        Some(x + 32 * y + 1024 * z)
    } else {
        None
    }
}

/// Whether face `f` of cell `i` is drawn: the cell is solid and no solid cell
/// of the chunk lies beyond.
pub open spec fn open_face(blocks: Seq<Block>, i: int, f: int) -> bool {
    &&& solid(blocks[i])
    &&& match cell_beyond(i, f) {
        Some(j) => !solid(blocks[j]),
        None => true,
    }
}

/// Number of faces of all cells of a chunk.
pub const CHUNK_FACES: usize = 196_608;

/// The open faces among the first `n` faces, as pairs of cell and face: cells
/// in array order, the faces of a cell in index order.
pub open spec fn open_faces(blocks: Seq<Block>, n: nat) -> Seq<(int, int)>
    decreases n,
{
    if n == 0 {
        Seq::empty()
    } else {
        let k = n - 1;
        let before = open_faces(blocks, (n - 1) as nat);
        if open_face(blocks, k / 6, k % 6) {
            before.push((k / 6, k % 6))
        } else {
            before
        }
    }
}

/// Corner `k` of face `f` of the unit cube.
pub open spec fn corner(f: int, k: int) -> (int, int, int) {
    let along = if k == 1 || k == 2 {
        1int
    } else {
        0int
    };
    let up = if k == 2 || k == 3 {
        1int
    } else {
        0int
    };
    match face_at(f) {
        Face::PosX => (1, up, along),
        Face::NegX => (0, up, 1 - along),
        Face::PosY => (along, 1, up),
        Face::NegY => (along, 0, 1 - up),
        Face::PosZ => (1 - along, up, 1),
        Face::NegZ => (along, up, 0),
    }
}

/// Corner `k` of the quad drawn for a face of a chunk.
pub open spec fn vertex_at(coord: ChunkCoord, blocks: Seq<Block>, q: (int, int), k: int) -> Vertex {
    let at = corner(q.1, k);
    Vertex {
        x: (32 * coord.0.x + q.0 % 32 + at.0) as i64,
        y: (32 * coord.0.y + (q.0 / 32) % 32 + at.1) as i64,
        z: (32 * coord.0.z + q.0 / 1024 + at.2) as i64,
        block: blocks[q.0],
        face: face_at(q.1),
    }
}

/// Four vertices per quad.
pub open spec fn vertices_of(coord: ChunkCoord, blocks: Seq<Block>, qs: Seq<(int, int)>) -> Seq<
    Vertex,
> {
    Seq::new((4 * qs.len()) as nat, |v: int| vertex_at(coord, blocks, qs[v / 4], v % 4))
}

/// The corner that entry `k` of a quad's two triangles names.
pub open spec fn triangle_corner(k: int) -> int {
    if k == 0 || k == 3 {
        0
    } else if k == 1 {
        1
    } else if k == 2 || k == 4 {
        2
    } else {
        3
    }
}

/// Two triangles for each of `n` quads whose vertices start at `base`.
pub open spec fn indices_of(base: int, n: nat) -> Seq<u32> {
    Seq::new(6 * n, |v: int| (base + 4 * (v / 6) + triangle_corner(v % 6)) as u32)
}

pub proof fn lemma_open_faces_len(blocks: Seq<Block>, n: nat)
    ensures
        open_faces(blocks, n).len() <= n,
    decreases n,
{
    if n > 0 {
        lemma_open_faces_len(blocks, (n - 1) as nat);
    }
}

/// A corner of a face, as offsets.
fn corner_offset(face: Face, k: usize) -> (r: (i64, i64, i64))
    requires
        k < 4,
    ensures
        r.0 == corner(face.spec_index(), k as int).0,
        r.1 == corner(face.spec_index(), k as int).1,
        r.2 == corner(face.spec_index(), k as int).2,
        0 <= r.0 <= 1,
        0 <= r.1 <= 1,
        0 <= r.2 <= 1,
{
    let along: i64 = if k == 1 || k == 2 {
        1
    } else {
        0
    };
    let up: i64 = if k == 2 || k == 3 {
        1
    } else {
        0
    };
    match face {
        Face::PosX => (1, up, along),
        Face::NegX => (0, up, 1 - along),
        Face::PosY => (along, 1, up),
        Face::NegY => (along, 0, 1 - up),
        Face::PosZ => (1 - along, up, 1),
        Face::NegZ => (along, up, 0),
    }
}

/// Add the quad of face `face` of the cell at `(x, y, z)`.
fn emit_face(x: i64, y: i64, z: i64, block: Block, face: Face, mesh: &mut VizMesh)
    requires
        -0x1_0000_0000 <= x <= 0x1_0000_0000,
        -0x1_0000_0000 <= y <= 0x1_0000_0000,
        -0x1_0000_0000 <= z <= 0x1_0000_0000,
        old(mesh).vertices@.len() + 4 <= u32::MAX,
    ensures
        final(mesh).vertices@ == old(mesh).vertices@ + Seq::new(
            4,
            |k: int|
                Vertex {
                    x: (x + corner(face.spec_index(), k).0) as i64,
                    y: (y + corner(face.spec_index(), k).1) as i64,
                    z: (z + corner(face.spec_index(), k).2) as i64,
                    block,
                    face,
                },
        ),
        final(mesh).indices@ == old(mesh).indices@ + Seq::new(
            6,
            |k: int| (old(mesh).vertices@.len() + triangle_corner(k)) as u32,
        ),
{
    let base: u32 = mesh.vertices.len() as u32;
    let ghost added = Seq::new(
        4,
        |k: int|
            Vertex {
                x: (x + corner(face.spec_index(), k).0) as i64,
                y: (y + corner(face.spec_index(), k).1) as i64,
                z: (z + corner(face.spec_index(), k).2) as i64,
                block,
                face,
            },
    );
    let mut k: usize = 0;
    while k < 4
        invariant
            k <= 4,
            -0x1_0000_0000 <= x <= 0x1_0000_0000,
            -0x1_0000_0000 <= y <= 0x1_0000_0000,
            -0x1_0000_0000 <= z <= 0x1_0000_0000,
            added == Seq::new(
                4,
                |k: int|
                    Vertex {
                        x: (x + corner(face.spec_index(), k).0) as i64,
                        y: (y + corner(face.spec_index(), k).1) as i64,
                        z: (z + corner(face.spec_index(), k).2) as i64,
                        block,
                        face,
                    },
            ),
            mesh.vertices@ == old(mesh).vertices@ + added.take(k as int),
            mesh.indices@ == old(mesh).indices@,
        decreases 4 - k,
    {
        let at = corner_offset(face, k);
        mesh.vertices.push(Vertex { x: x + at.0, y: y + at.1, z: z + at.2, block, face });
        k = k + 1;
        assert(mesh.vertices@ =~= old(mesh).vertices@ + added.take(k as int));
    }
    assert(added.take(4) =~= added);
    mesh.indices.push(base);
    mesh.indices.push(base + 1);
    mesh.indices.push(base + 2);
    mesh.indices.push(base);
    mesh.indices.push(base + 2);
    mesh.indices.push(base + 3);
    assert(mesh.indices@ =~= old(mesh).indices@ + Seq::new(
        6,
        |k: int| (old(mesh).vertices@.len() + triangle_corner(k)) as u32,
    ));
}

/// Vertices of one more quad.
proof fn lemma_vertices_push(
    coord: ChunkCoord,
    blocks: Seq<Block>,
    qs: Seq<(int, int)>,
    q: (int, int),
)
    ensures
        vertices_of(coord, blocks, qs.push(q)) == vertices_of(coord, blocks, qs) + Seq::new(
            4,
            |k: int| vertex_at(coord, blocks, q, k),
        ),
{
    let n = qs.len() as int;
    let l = vertices_of(coord, blocks, qs.push(q));
    let r = vertices_of(coord, blocks, qs) + Seq::new(4, |k: int| vertex_at(coord, blocks, q, k));
    assert forall|v: int| 0 <= v < l.len() implies l[v] == r[v] by {
        if v < 4 * n {
            assert(qs.push(q)[v / 4] == qs[v / 4]);
        } else {
            assert(v / 4 == n && v % 4 == v - 4 * n);
        }
    }
    assert(l =~= r);
}

proof fn lemma_indices_push(base: int, n: nat)
    ensures
        indices_of(base, n + 1) == indices_of(base, n) + Seq::new(
            6,
            |k: int| (base + 4 * n + triangle_corner(k)) as u32,
        ),
{
    let l = indices_of(base, n + 1);
    let r = indices_of(base, n) + Seq::new(
        6,
        |k: int| (base + 4 * n + triangle_corner(k)) as u32,
    );
    assert forall|v: int| 0 <= v < l.len() implies l[v] == r[v] by {
        if v >= 6 * n {
            assert(v / 6 == n && v % 6 == v - 6 * n);
        }
    }
    assert(l =~= r);
}

/// Whether face `face` of a solid cell is drawn.
fn is_open(chunk: &DenseChunk, at: LocalPos, face: Face) -> (b: bool)
    requires
        chunk.wf(),
        at.in_chunk(),
        solid(chunk@.blocks[at.index()]),
    ensures
        b == open_face(chunk@.blocks, at.index(), face.spec_index()),
{
    proof {
        crate::mesher::law_face_index_round_trip(face, 0);
        law_cell_index_digits(at);
    }
    let n: [i32; 3] = face.normal();
    let x: i32 = at.0.x as i32 + n[0];
    let y: i32 = at.0.y as i32 + n[1];
    let z: i32 = at.0.z as i32 + n[2];
    if x < 0 || x >= 32 || y < 0 || y >= 32 || z < 0 || z >= 32 {
        assert(cell_beyond(at.index(), face.spec_index()) is None);
        true
    } else {
        let beyond: LocalPos = LocalPos(
            crate::voxel::coords::UVec3 { x: x as u32, y: y as u32, z: z as u32 },
        );
        assert(cell_beyond(at.index(), face.spec_index()) == Some(beyond.index()));
        !is_solid(chunk.get(beyond))
    }
}

/// Add the quads of a chunk's open faces to a mesh.
#[verifier::rlimit(40)]
pub fn emit_chunk_faces(chunk: &DenseChunk, coord: ChunkCoord, mesh: &mut VizMesh)
    requires
        chunk.wf(),
        coord.addressable(),
        old(mesh).vertices@.len() + 4 * CHUNK_FACES <= u32::MAX,
    ensures
        final(mesh).vertices@ == old(mesh).vertices@ + vertices_of(
            coord,
            chunk@.blocks,
            open_faces(chunk@.blocks, CHUNK_FACES as nat),
        ),
        final(mesh).indices@ == old(mesh).indices@ + indices_of(
            old(mesh).vertices@.len() as int,
            open_faces(chunk@.blocks, CHUNK_FACES as nat).len(),
        ),
{
    let origin = coord.origin();
    let ghost blocks = chunk@.blocks;
    let ghost start = mesh.vertices@.len() as int;
    let faces: [Face; 6] = Face::all();
    let mut i: usize = 0;
    let ghost mut n: nat = 0;
    assert(mesh.vertices@ =~= old(mesh).vertices@ + vertices_of(
        coord,
        blocks,
        open_faces(blocks, 0),
    ));
    assert(mesh.indices@ =~= old(mesh).indices@ + indices_of(start, 0));
    while i < CHUNK_VOLUME
        invariant
            i <= CHUNK_VOLUME,
            chunk.wf(),
            coord.addressable(),
            origin.0.x == 32 * coord.0.x,
            origin.0.y == 32 * coord.0.y,
            origin.0.z == 32 * coord.0.z,
            blocks == chunk@.blocks,
            start == old(mesh).vertices@.len(),
            start + 4 * CHUNK_FACES <= u32::MAX,
            forall|f: int| 0 <= f < 6 ==> #[trigger] faces@[f] == face_at(f),
            n == 6 * i,
            mesh.vertices@ == old(mesh).vertices@ + vertices_of(
                coord,
                blocks,
                open_faces(blocks, n),
            ),
            mesh.indices@ == old(mesh).indices@ + indices_of(start, open_faces(blocks, n).len()),
        decreases CHUNK_VOLUME - i,
    {
        let at: LocalPos = LocalPos::from_index(i);
        proof {
            law_cell_index_digits(at);
        }
        let block: Block = chunk.get(at);
        let mut f: usize = 0;
        while f < 6
            invariant
                f <= 6,
                i < CHUNK_VOLUME,
                chunk.wf(),
                coord.addressable(),
                at.in_chunk(),
                at.index() == i,
                i as int % 32 == at.0.x,
                (i as int / 32) % 32 == at.0.y,
                i as int / 1024 == at.0.z,
                block == chunk@.blocks[i as int],
                origin.0.x == 32 * coord.0.x,
                origin.0.y == 32 * coord.0.y,
                origin.0.z == 32 * coord.0.z,
                blocks == chunk@.blocks,
                start == old(mesh).vertices@.len(),
                start + 4 * CHUNK_FACES <= u32::MAX,
                forall|g: int| 0 <= g < 6 ==> #[trigger] faces@[g] == face_at(g),
                n == 6 * i + f,
                mesh.vertices@ == old(mesh).vertices@ + vertices_of(
                    coord,
                    blocks,
                    open_faces(blocks, n),
                ),
                mesh.indices@ == old(mesh).indices@ + indices_of(
                    start,
                    open_faces(blocks, n).len(),
                ),
            decreases 6 - f,
        {
            let face: Face = faces[f];
            assert(face == face_at(f as int));
            assert(face.spec_index() == f);
            let ghost qs = open_faces(blocks, n);
            let ghost q = (i as int, f as int);
            assert(n as int / 6 == i && n as int % 6 == f);
            if is_solid(block) && is_open(chunk, at, face) {
                proof {
                    lemma_open_faces_len(blocks, n);
                    lemma_vertices_push(coord, blocks, qs, q);
                    lemma_indices_push(start, qs.len());
                    assert(open_faces(blocks, n + 1) == qs.push(q));
                }
                let ghost vs = mesh.vertices@;
                let ghost xs = mesh.indices@;
                emit_face(
                    origin.0.x as i64 + at.0.x as i64,
                    origin.0.y as i64 + at.0.y as i64,
                    origin.0.z as i64 + at.0.z as i64,
                    block,
                    face,
                    mesh,
                );
                assert(mesh.vertices@ =~= vs + Seq::new(
                    4,
                    |k: int| vertex_at(coord, blocks, q, k),
                ));
                assert(mesh.vertices@ =~= old(mesh).vertices@ + vertices_of(
                    coord,
                    blocks,
                    qs.push(q),
                ));
                assert(mesh.indices@ =~= old(mesh).indices@ + indices_of(start, qs.len() + 1));
            }
            proof {
                n = n + 1;
            }
            f = f + 1;
        }
        i = i + 1;
    }
}

/// The mesh of a chunk on its own: faces at the chunk's border are drawn.
pub fn mesh_chunk(coord: ChunkCoord, chunk: &DenseChunk) -> (mesh: VizMesh)
    requires
        chunk.wf(),
        coord.addressable(),
    ensures
        mesh.vertices@ == vertices_of(
            coord,
            chunk@.blocks,
            open_faces(chunk@.blocks, CHUNK_FACES as nat),
        ),
        mesh.indices@ == indices_of(
            0,
            open_faces(chunk@.blocks, CHUNK_FACES as nat).len(),
        ),
{
    let mut mesh: VizMesh = VizMesh { vertices: Vec::new(), indices: Vec::new() };
    emit_chunk_faces(chunk, coord, &mut mesh);
    assert(mesh.vertices@ =~= vertices_of(
        coord,
        chunk@.blocks,
        open_faces(chunk@.blocks, CHUNK_FACES as nat),
    ));
    assert(mesh.indices@ =~= indices_of(
        0,
        open_faces(chunk@.blocks, CHUNK_FACES as nat).len(),
    ));
    mesh
}

proof fn lemma_listed_faces(blocks: Seq<Block>, n: nat, i: int, f: int)
    requires
        0 <= i,
        0 <= f < 6,
    ensures
        open_faces(blocks, n).contains((i, f)) == (6 * i + f < n && open_face(blocks, i, f)),
    decreases n,
{
    if n > 0 {
        let k = n - 1;
        let before = open_faces(blocks, (n - 1) as nat);
        lemma_listed_faces(blocks, (n - 1) as nat, i, f);
        let all = open_faces(blocks, n);
        if open_face(blocks, k / 6, k % 6) {
            assert(all.last() == (k / 6, k % 6));
            if before.contains((i, f)) {
                let j = before.index_of((i, f));
                assert(all[j] == (i, f));
            }
            if all.contains((i, f)) {
                let j = all.index_of((i, f));
                if j < before.len() {
                    assert(before[j] == (i, f));
                }
            }
            if 6 * i + f == k {
                assert(all[all.len() - 1] == (i, f));
            }
        }
    }
}

proof fn lemma_faces_rise(blocks: Seq<Block>, n: nat, a: int, b: int)
    requires
        0 <= a < b < open_faces(blocks, n).len(),
    ensures
        6 * open_faces(blocks, n)[a].0 + open_faces(blocks, n)[a].1 < 6 * open_faces(
            blocks,
            n,
        )[b].0 + open_faces(blocks, n)[b].1 < n,
    decreases n,
{
    if n > 0 {
        let before = open_faces(blocks, (n - 1) as nat);
        if b < before.len() {
            lemma_faces_rise(blocks, (n - 1) as nat, a, b);
        } else if a + 1 < before.len() {
            lemma_faces_rise(blocks, (n - 1) as nat, a, before.len() - 1);
        } else {
            lemma_faces_bounded(blocks, (n - 1) as nat, a);
        }
    }
}

proof fn lemma_faces_bounded(blocks: Seq<Block>, n: nat, a: int)
    requires
        0 <= a < open_faces(blocks, n).len(),
    ensures
        0 <= 6 * open_faces(blocks, n)[a].0 + open_faces(blocks, n)[a].1 < n,
        0 <= open_faces(blocks, n)[a].1 < 6,
    decreases n,
{
    if n > 0 {
        let before = open_faces(blocks, (n - 1) as nat);
        if a < before.len() {
            lemma_faces_bounded(blocks, (n - 1) as nat, a);
        }
    }
}

/// A quad is drawn for a face of a chunk exactly when the face is open, and
/// no face is drawn twice.
pub proof fn law_mesh_draws_open_faces_once(blocks: Seq<Block>, i: int, f: int, a: int, b: int)
    requires
        0 <= i < CHUNK_VOLUME,
        0 <= f < 6,
        0 <= a < b < open_faces(blocks, CHUNK_FACES as nat).len(),
    ensures
        open_faces(blocks, CHUNK_FACES as nat).contains((i, f)) == open_face(blocks, i, f),
        open_faces(blocks, CHUNK_FACES as nat)[a] != open_faces(blocks, CHUNK_FACES as nat)[b],
{
    lemma_listed_faces(blocks, CHUNK_FACES as nat, i, f);
    lemma_faces_rise(blocks, CHUNK_FACES as nat, a, b);
}

/// The face between two solid cells is drawn from neither side.
pub proof fn law_shared_faces_are_hidden(blocks: Seq<Block>, i: int, f: int)
    requires
        0 <= i < CHUNK_VOLUME,
        0 <= f < 6,
        cell_beyond(i, f) matches Some(j) && solid(blocks[i]) && solid(blocks[j]),
    ensures
        !open_face(blocks, i, f),
        cell_beyond(cell_beyond(i, f)->0, face_at(f).facing().spec_index()) == Some(i),
        !open_face(blocks, cell_beyond(i, f)->0, face_at(f).facing().spec_index()),
{
    let j = cell_beyond(i, f)->0;
    let step = face_at(f).step();
    let x = i % 32 + step.0;
    let y = (i / 32) % 32 + step.1;
    let z = i / 1024 + step.2;
    let at = LocalPos(crate::voxel::coords::UVec3 { x: x as u32, y: y as u32, z: z as u32 });
    law_cell_index_digits(at);
    assert(at.index() == j);
    let back = face_at(f).facing();
    crate::mesher::law_face_index_round_trip(back, 0);
    crate::mesher::law_opposite_face_undoes_step(face_at(f));
    assert(i == i % 32 + 32 * ((i / 32) % 32) + 1024 * (i / 1024));
}

/// The normal of two edges.
pub open spec fn normal(a: (int, int, int), b: (int, int, int)) -> (int, int, int) {
    (a.1 * b.2 - a.2 * b.1, a.2 * b.0 - a.0 * b.2, a.0 * b.1 - a.1 * b.0)
}

/// The edge from corner `k` of face `f` to the next.
pub open spec fn edge(f: int, k: int) -> (int, int, int) {
    let a = corner(f, k);
    let b = corner(f, (k + 1) % 4);
    (b.0 - a.0, b.1 - a.1, b.2 - a.2)
}

/// A quad lies in its face, and all quads run the same way round: every corner is a
/// corner of the unit cube on the side that the face looks to, each differs from the
/// next along one edge, and seen from outside the corners go clockwise.
pub proof fn law_quads_lie_in_their_faces(f: int, k: int)
    requires
        0 <= f < 6,
        0 <= k < 4,
    ensures
        ({
            let (sx, sy, sz) = face_at(f).step();
            let (x, y, z) = corner(f, k);
            let n = normal(edge(f, k), edge(f, (k + 1) % 4));
            &&& 0 <= x <= 1 && 0 <= y <= 1 && 0 <= z <= 1
            &&& sx != 0 ==> 2 * x - 1 == sx
            &&& sy != 0 ==> 2 * y - 1 == sy
            &&& sz != 0 ==> 2 * z - 1 == sz
            &&& n == (-sx, -sy, -sz)
        }),
{
    lemma_quad(f);
    assert(k == 0 || k == 1 || k == 2 || k == 3);
}

proof fn lemma_quad(f: int)
    requires
        0 <= f < 6,
    ensures
        ({
            let (sx, sy, sz) = face_at(f).step();
            &&& normal(edge(f, 0), edge(f, 1)) == (-sx, -sy, -sz)
            &&& normal(edge(f, 1), edge(f, 2)) == (-sx, -sy, -sz)
            &&& normal(edge(f, 2), edge(f, 3)) == (-sx, -sy, -sz)
            &&& normal(edge(f, 3), edge(f, 0)) == (-sx, -sy, -sz)
        }),
{
    lemma_products(edge(f, 0), edge(f, 1));
    lemma_products(edge(f, 1), edge(f, 2));
    lemma_products(edge(f, 2), edge(f, 3));
    lemma_products(edge(f, 3), edge(f, 0));
    if f == 0 {
        assert(edge(f, 0) == (0int, 0int, 1int) && edge(f, 1) == (0int, 1int, 0int));
        assert(edge(f, 2) == (0int, 0int, -1int) && edge(f, 3) == (0int, -1int, 0int));
    } else if f == 1 {
        assert(edge(f, 0) == (0int, 0int, -1int) && edge(f, 1) == (0int, 1int, 0int));
        assert(edge(f, 2) == (0int, 0int, 1int) && edge(f, 3) == (0int, -1int, 0int));
    } else if f == 2 {
        assert(edge(f, 0) == (1int, 0int, 0int) && edge(f, 1) == (0int, 0int, 1int));
        assert(edge(f, 2) == (-1int, 0int, 0int) && edge(f, 3) == (0int, 0int, -1int));
    } else if f == 3 {
        assert(edge(f, 0) == (1int, 0int, 0int) && edge(f, 1) == (0int, 0int, -1int));
        assert(edge(f, 2) == (-1int, 0int, 0int) && edge(f, 3) == (0int, 0int, 1int));
    } else if f == 4 {
        assert(edge(f, 0) == (-1int, 0int, 0int) && edge(f, 1) == (0int, 1int, 0int));
        assert(edge(f, 2) == (1int, 0int, 0int) && edge(f, 3) == (0int, -1int, 0int));
    } else {
        assert(edge(f, 0) == (1int, 0int, 0int) && edge(f, 1) == (0int, 1int, 0int));
        assert(edge(f, 2) == (-1int, 0int, 0int) && edge(f, 3) == (0int, -1int, 0int));
    }
}

proof fn lemma_product(x: int, y: int)
    ensures
        x == 0 || y == 0 ==> x * y == 0,
        x == 1 ==> x * y == y,
        x == -1 ==> x * y == -y,
{
    assert(x == 0 || y == 0 ==> x * y == 0) by (nonlinear_arith);
    assert(x == 1 ==> x * y == y) by (nonlinear_arith);
    assert(x == -1 ==> x * y == -y) by (nonlinear_arith);
}

/// The products in a normal, where the edges have lengths of one at most.
proof fn lemma_products(a: (int, int, int), b: (int, int, int))
    ensures
        a.1 == 0 || b.2 == 0 ==> a.1 * b.2 == 0,
        a.1 == 1 ==> a.1 * b.2 == b.2,
        a.1 == -1 ==> a.1 * b.2 == -b.2,
        a.2 == 0 || b.1 == 0 ==> a.2 * b.1 == 0,
        a.2 == 1 ==> a.2 * b.1 == b.1,
        a.2 == -1 ==> a.2 * b.1 == -b.1,
        a.2 == 0 || b.0 == 0 ==> a.2 * b.0 == 0,
        a.2 == 1 ==> a.2 * b.0 == b.0,
        a.2 == -1 ==> a.2 * b.0 == -b.0,
        a.0 == 0 || b.2 == 0 ==> a.0 * b.2 == 0,
        a.0 == 1 ==> a.0 * b.2 == b.2,
        a.0 == -1 ==> a.0 * b.2 == -b.2,
        a.0 == 0 || b.1 == 0 ==> a.0 * b.1 == 0,
        a.0 == 1 ==> a.0 * b.1 == b.1,
        a.0 == -1 ==> a.0 * b.1 == -b.1,
        a.1 == 0 || b.0 == 0 ==> a.1 * b.0 == 0,
        a.1 == 1 ==> a.1 * b.0 == b.0,
        a.1 == -1 ==> a.1 * b.0 == -b.0,
{
    lemma_product(a.1, b.2);
    lemma_product(a.2, b.1);
    lemma_product(a.2, b.0);
    lemma_product(a.0, b.2);
    lemma_product(a.0, b.1);
    lemma_product(a.1, b.0);
}

} // verus!
