//! Caches of filled and meshed chunks that drop what was used least recently.

use lru::LruCache;
use vstd::prelude::*;

use crate::viz::mesher::VizMesh;
use crate::voxel::chunk::DenseChunk;
use crate::voxel::coords::{ChunkCoord, IVec3};

verus! {

/// A cached chunk: its cells or its mesh.
#[derive(Debug)]
pub enum Held {
    Chunk(DenseChunk),
    Mesh(VizMesh),
}

/// `lru::LruCache`, seen only through the functions of this module.
#[verifier::external_type_specification]
#[verifier::external_body]
#[verifier::reject_recursive_types(K)]
#[verifier::reject_recursive_types(V)]
#[verifier::reject_recursive_types(S)]
pub struct ExLruCache<K, V, S>(LruCache<K, V, S>);

/// The hasher of `lru::LruCache`.
#[verifier::external_type_specification]
#[verifier::external_body]
pub struct ExDefaultHasher(lru::DefaultHasher);

/// What a cache holds, most recently used first.
pub uninterp spec fn recency(c: LruCache<(i32, i32, i32), Held>) -> Seq<
    ((i32, i32, i32), Held),
>;

/// How many entries a cache may hold.
pub uninterp spec fn limit(c: LruCache<(i32, i32, i32), Held>) -> usize;

/// Where a key stands, or the length if it is absent.
pub open spec fn position(s: Seq<((i32, i32, i32), Held)>, k: (i32, i32, i32), i: int) -> int
    decreases s.len() - i,
{
    if 0 <= i < s.len() && s[i].0 != k {
        position(s, k, i + 1)
    } else {
        i
    }
}

/// Whether a key is present.
pub open spec fn present(s: Seq<((i32, i32, i32), Held)>, k: (i32, i32, i32)) -> bool {
    position(s, k, 0) < s.len()
}

/// The contents once `k` has been used: it stands first.
pub open spec fn used(s: Seq<((i32, i32, i32), Held)>, k: (i32, i32, i32)) -> Seq<
    ((i32, i32, i32), Held),
> {
    if present(s, k) {
        seq![s[position(s, k, 0)]] + s.remove(position(s, k, 0))
    } else {
        s
    }
}

/// The contents once `v` has been stored under `k`: the entry stands first;
/// what was stored under `k` is gone, or, in a full cache without `k`, the
/// last entry.
pub open spec fn stored(
    s: Seq<((i32, i32, i32), Held)>,
    limit: usize,
    k: (i32, i32, i32),
    v: Held,
) -> Seq<((i32, i32, i32), Held)> {
    if present(s, k) {
        seq![(k, v)] + s.remove(position(s, k, 0))
    } else if s.len() == limit {
        seq![(k, v)] + s.drop_last()
    } else {
        seq![(k, v)] + s
    }
}

/// `lru::LruCache::new`: an empty cache with room for `cap` entries. It
/// reserves its hash table at once, and panics where the table's size in bytes
/// would not fit in memory; that does not happen up to the bound given here.
#[verifier::external_body]
fn lru_new(cap: usize) -> (c: LruCache<(i32, i32, i32), Held>)
    requires
        0 < cap <= usize::MAX / 128,
    ensures
        recency(c) == Seq::<((i32, i32, i32), Held)>::empty(),
        limit(c) == cap,
{
    LruCache::new(core::num::NonZeroUsize::new(cap).unwrap())
}

/// `lru::LruCache::put`: stores a value as the most recently used entry. A
/// full cache drops its least recently used entry for a new key.
#[verifier::external_body]
fn lru_put(c: &mut LruCache<(i32, i32, i32), Held>, k: (i32, i32, i32), v: Held)
    ensures
        recency(*final(c)) == stored(recency(*old(c)), limit(*old(c)), k, v),
        limit(*final(c)) == limit(*old(c)),
{
    c.put(k, v);
}

/// `lru::LruCache::get`: the value of a key, which becomes the most recently
/// used entry.
#[verifier::external_body]
fn lru_get<'a>(c: &'a mut LruCache<(i32, i32, i32), Held>, k: (i32, i32, i32)) -> (r: Option<
    &'a Held,
>)
    ensures
        r == (if present(recency(*old(c)), k) {
            Some(&recency(*old(c))[position(recency(*old(c)), k, 0)].1)
        } else {
            None
        }),
        recency(*final(c)) == used(recency(*old(c)), k),
        limit(*final(c)) == limit(*old(c)),
{
    c.get(&k)
}

/// `lru::LruCache::contains`: whether a key is present, without using it.
#[verifier::external_body]
fn lru_contains(c: &LruCache<(i32, i32, i32), Held>, k: (i32, i32, i32)) -> (b: bool)
    ensures
        b == present(recency(*c), k),
{
    c.contains(&k)
}

/// `lru::LruCache::clear`: drops every entry.
#[verifier::external_body]
fn lru_clear(c: &mut LruCache<(i32, i32, i32), Held>)
    ensures
        recency(*final(c)) == Seq::<((i32, i32, i32), Held)>::empty(),
        limit(*final(c)) == limit(*old(c)),
{
    c.clear();
}

/// `lru::LruCache::len`: the number of entries.
#[verifier::external_body]
fn lru_len(c: &LruCache<(i32, i32, i32), Held>) -> (n: usize)
    ensures
        n == recency(*c).len(),
{
    c.len()
}

/// `lru::LruCache::iter`: the entries, most recently used first; here their
/// keys.
#[verifier::external_body]
fn lru_keys(c: &LruCache<(i32, i32, i32), Held>) -> (keys: Vec<(i32, i32, i32)>)
    ensures
        keys@ == recency(*c).map_values(|e: ((i32, i32, i32), Held)| e.0),
{
    c.iter().map(|e| *e.0).collect()
}

/// The key of a chunk.
pub open spec fn key_of(coord: ChunkCoord) -> (i32, i32, i32) {
    (coord.0.x, coord.0.y, coord.0.z)
}

fn key(coord: ChunkCoord) -> (k: (i32, i32, i32))
    ensures
        k == key_of(coord),
{
    (coord.0.x, coord.0.y, coord.0.z)
}

/// No key is listed twice.
pub open spec fn keys_once(s: Seq<((i32, i32, i32), Held)>) -> bool {
    forall|i: int, j: int|
        0 <= i < j < s.len() ==> (#[trigger] s[i]).0 != (#[trigger] s[j]).0
}

/// Every entry is a chunk's cells.
pub open spec fn all_chunks(s: Seq<((i32, i32, i32), Held)>) -> bool {
    forall|i: int| 0 <= i < s.len() ==> (#[trigger] s[i]).1 is Chunk
}

/// Every entry is a chunk's mesh.
pub open spec fn all_meshes(s: Seq<((i32, i32, i32), Held)>) -> bool {
    forall|i: int| 0 <= i < s.len() ==> (#[trigger] s[i]).1 is Mesh
}

proof fn lemma_position(s: Seq<((i32, i32, i32), Held)>, k: (i32, i32, i32), i: int)
    requires
        0 <= i <= s.len(),
    ensures
        i <= position(s, k, i) <= s.len(),
        position(s, k, i) < s.len() ==> s[position(s, k, i)].0 == k,
        forall|j: int| i <= j < position(s, k, i) ==> (#[trigger] s[j]).0 != k,
    decreases s.len() - i,
{
    if i < s.len() && s[i].0 != k {
        lemma_position(s, k, i + 1);
    }
}

/// A key stands where it is, if keys are listed once.
proof fn lemma_position_is(s: Seq<((i32, i32, i32), Held)>, at: int)
    requires
        keys_once(s),
        0 <= at < s.len(),
    ensures
        position(s, s[at].0, 0) == at,
        present(s, s[at].0),
{
    lemma_position(s, s[at].0, 0);
    let p = position(s, s[at].0, 0);
    if p < at {
        assert(s[p].0 != s[at].0);
    }
}

proof fn lemma_used_keys_once(s: Seq<((i32, i32, i32), Held)>, k: (i32, i32, i32))
    requires
        keys_once(s),
    ensures
        keys_once(used(s, k)),
        used(s, k).len() == s.len(),
        all_chunks(s) ==> all_chunks(used(s, k)),
        all_meshes(s) ==> all_meshes(used(s, k)),
{
    lemma_position(s, k, 0);
    let p = position(s, k, 0);
    if present(s, k) {
        let t = used(s, k);
        assert forall|i: int| 0 <= i < t.len() implies (#[trigger] t[i]) == (if i == 0 {
            s[p]
        } else if i <= p {
            s[i - 1]
        } else {
            s[i]
        }) by {}
        assert forall|i: int, j: int| 0 <= i < j < t.len() implies (#[trigger] t[i]).0 != (
        #[trigger] t[j]).0 by {
            let a = if i == 0 {
                p
            } else if i <= p {
                i - 1
            } else {
                i
            };
            let b = if j <= p {
                j - 1
            } else {
                j
            };
            assert(t[i] == s[a] && t[j] == s[b]);
            assert(a != b);
            assert(s[a].0 != s[b].0);
        }
    }
}

proof fn lemma_stored_keys_once(
    s: Seq<((i32, i32, i32), Held)>,
    limit: usize,
    k: (i32, i32, i32),
    v: Held,
)
    requires
        keys_once(s),
        0 < limit,
        s.len() <= limit,
    ensures
        keys_once(stored(s, limit, k, v)),
        0 < stored(s, limit, k, v).len() <= limit,
        stored(s, limit, k, v)[0] == (k, v),
        all_chunks(s) && v is Chunk ==> all_chunks(stored(s, limit, k, v)),
        all_meshes(s) && v is Mesh ==> all_meshes(stored(s, limit, k, v)),
{
    lemma_position(s, k, 0);
    let p = position(s, k, 0);
    let t = stored(s, limit, k, v);
    assert forall|i: int| 0 < i < t.len() implies (#[trigger] t[i]) == (if p < i {
        s[i]
    } else {
        s[i - 1]
    }) by {}
    assert forall|i: int, j: int| 0 <= i < j < t.len() implies (#[trigger] t[i]).0 != (
    #[trigger] t[j]).0 by {
        let b = if p < j {
            j
        } else {
            j - 1
        };
        assert(t[j] == s[b]);
        if i == 0 {
            if b > p {
                assert(s[p].0 == k);
                assert(s[p].0 != s[b].0);
            }
        } else {
            let a = if p < i {
                i
            } else {
                i - 1
            };
            assert(t[i] == s[a]);
            assert(s[a].0 != s[b].0);
        }
    }
}

/// Filled chunks and their meshes, each kept up to a number of entries.
pub struct ChunkCache {
    chunks: LruCache<(i32, i32, i32), Held>,
    meshes: LruCache<(i32, i32, i32), Held>,
}

impl ChunkCache {
    /// The filled chunks, most recently used first.
    pub closed spec fn chunk_entries(&self) -> Seq<((i32, i32, i32), Held)> {
        recency(self.chunks)
    }

    /// The meshes, most recently used first.
    pub closed spec fn mesh_entries(&self) -> Seq<((i32, i32, i32), Held)> {
        recency(self.meshes)
    }

    /// How many chunks, and how many meshes, are kept.
    pub closed spec fn capacity(&self) -> usize {
        limit(self.chunks)
    }

    pub closed spec fn wf(&self) -> bool {
        &&& 0 < limit(self.chunks)
        &&& limit(self.meshes) == limit(self.chunks)
        &&& recency(self.chunks).len() <= limit(self.chunks)
        &&& recency(self.meshes).len() <= limit(self.chunks)
        &&& keys_once(recency(self.chunks))
        &&& keys_once(recency(self.meshes))
        &&& all_chunks(recency(self.chunks))
        &&& all_meshes(recency(self.meshes))
    }

    /// What well-formedness promises of the entries.
    pub proof fn lemma_wf(&self)
        requires
            self.wf(),
        ensures
            0 < self.capacity(),
            self.chunk_entries().len() <= self.capacity(),
            self.mesh_entries().len() <= self.capacity(),
            keys_once(self.chunk_entries()),
            keys_once(self.mesh_entries()),
            all_chunks(self.chunk_entries()),
            all_meshes(self.mesh_entries()),
    {
    }

    /// An empty cache for `capacity` chunks, at least one.
    pub fn new(capacity: usize) -> (c: Self)
        requires
            capacity <= usize::MAX / 128,
        ensures
            c.wf(),
            c.chunk_entries() == Seq::<((i32, i32, i32), Held)>::empty(),
            c.mesh_entries() == Seq::<((i32, i32, i32), Held)>::empty(),
            c.capacity() == (if capacity == 0 {
                1
            } else {
                capacity
            }),
    {
        let cap: usize = if capacity == 0 {
            1
        } else {
            capacity
        };
        ChunkCache { chunks: lru_new(cap), meshes: lru_new(cap) }
    }

    /// Keep a filled chunk.
    pub fn put_chunk(&mut self, coord: ChunkCoord, chunk: DenseChunk)
        requires
            old(self).wf(),
        ensures
            final(self).wf(),
            final(self).capacity() == old(self).capacity(),
            final(self).chunk_entries() == stored(
                old(self).chunk_entries(),
                old(self).capacity(),
                key_of(coord),
                Held::Chunk(chunk),
            ),
            final(self).mesh_entries() == old(self).mesh_entries(),
    {
        proof {
            lemma_stored_keys_once(
                recency(self.chunks),
                limit(self.chunks),
                key_of(coord),
                Held::Chunk(chunk),
            );
        }
        lru_put(&mut self.chunks, key(coord), Held::Chunk(chunk));
    }

    /// Keep a mesh.
    pub fn put_mesh(&mut self, coord: ChunkCoord, mesh: VizMesh)
        requires
            old(self).wf(),
        ensures
            final(self).wf(),
            final(self).capacity() == old(self).capacity(),
            final(self).mesh_entries() == stored(
                old(self).mesh_entries(),
                old(self).capacity(),
                key_of(coord),
                Held::Mesh(mesh),
            ),
            final(self).chunk_entries() == old(self).chunk_entries(),
    {
        proof {
            lemma_stored_keys_once(
                recency(self.meshes),
                limit(self.meshes),
                key_of(coord),
                Held::Mesh(mesh),
            );
        }
        lru_put(&mut self.meshes, key(coord), Held::Mesh(mesh));
    }

    /// The filled chunk at `coord`; it becomes the most recently used.
    pub fn get_chunk(&mut self, coord: ChunkCoord) -> (r: Option<&DenseChunk>)
        requires
            old(self).wf(),
        ensures
            final(self).wf(),
            final(self).capacity() == old(self).capacity(),
            final(self).chunk_entries() == used(old(self).chunk_entries(), key_of(coord)),
            final(self).mesh_entries() == old(self).mesh_entries(),
            match r {
                Some(c) => present(old(self).chunk_entries(), key_of(coord)) && old(
                    self,
                ).chunk_entries()[position(old(self).chunk_entries(), key_of(coord), 0)].1
                    == Held::Chunk(*c),
                None => !present(old(self).chunk_entries(), key_of(coord)),
            },
    {
        proof {
            lemma_used_keys_once(recency(self.chunks), key_of(coord));
            lemma_position(recency(self.chunks), key_of(coord), 0);
        }
        match lru_get(&mut self.chunks, key(coord)) {
            Some(Held::Chunk(c)) => Some(c),
            _ => None,
        }
    }

    /// The mesh at `coord`; it becomes the most recently used.
    pub fn get_mesh(&mut self, coord: ChunkCoord) -> (r: Option<&VizMesh>)
        requires
            old(self).wf(),
        ensures
            final(self).wf(),
            final(self).capacity() == old(self).capacity(),
            final(self).mesh_entries() == used(old(self).mesh_entries(), key_of(coord)),
            final(self).chunk_entries() == old(self).chunk_entries(),
            match r {
                Some(m) => present(old(self).mesh_entries(), key_of(coord)) && old(
                    self,
                ).mesh_entries()[position(old(self).mesh_entries(), key_of(coord), 0)].1
                    == Held::Mesh(*m),
                None => !present(old(self).mesh_entries(), key_of(coord)),
            },
    {
        proof {
            lemma_used_keys_once(recency(self.meshes), key_of(coord));
            lemma_position(recency(self.meshes), key_of(coord), 0);
        }
        match lru_get(&mut self.meshes, key(coord)) {
            Some(Held::Mesh(m)) => Some(m),
            _ => None,
        }
    }

    /// Whether the filled chunk at `coord` is kept.
    pub fn has_chunk(&self, coord: ChunkCoord) -> (b: bool)
        ensures
            b == present(self.chunk_entries(), key_of(coord)),
    {
        lru_contains(&self.chunks, key(coord))
    }

    /// Whether the mesh at `coord` is kept.
    pub fn has_mesh(&self, coord: ChunkCoord) -> (b: bool)
        ensures
            b == present(self.mesh_entries(), key_of(coord)),
    {
        lru_contains(&self.meshes, key(coord))
    }

    /// Drop everything.
    pub fn clear(&mut self)
        requires
            old(self).wf(),
        ensures
            final(self).wf(),
            final(self).capacity() == old(self).capacity(),
            final(self).chunk_entries() == Seq::<((i32, i32, i32), Held)>::empty(),
            final(self).mesh_entries() == Seq::<((i32, i32, i32), Held)>::empty(),
    {
        lru_clear(&mut self.chunks);
        lru_clear(&mut self.meshes);
    }

    /// How many chunks and meshes are kept.
    pub fn len(&self) -> (n: (usize, usize))
        ensures
            n.0 == self.chunk_entries().len(),
            n.1 == self.mesh_entries().len(),
    {
        (lru_len(&self.chunks), lru_len(&self.meshes))
    }

    /// Where the meshes are, most recently used first.
    pub fn meshed_coords(&self) -> (out: Vec<ChunkCoord>)
        ensures
            out@.len() == self.mesh_entries().len(),
            forall|i: int|
                0 <= i < out@.len() ==> key_of(#[trigger] out@[i]) == self.mesh_entries()[i].0,
    {
        let keys: Vec<(i32, i32, i32)> = lru_keys(&self.meshes);
        let mut out: Vec<ChunkCoord> = Vec::with_capacity(keys.len());
        let mut i: usize = 0;
        while i < keys.len()
            invariant
                i <= keys@.len(),
                keys@ == self.mesh_entries().map_values(|e: ((i32, i32, i32), Held)| e.0),
                out@.len() == i,
                forall|k: int|
                    0 <= k < i ==> key_of(#[trigger] out@[k]) == self.mesh_entries()[k].0,
            decreases keys@.len() - i,
        {
            let k: (i32, i32, i32) = keys[i];
            out.push(ChunkCoord(IVec3 { x: k.0, y: k.1, z: k.2 }));
            i = i + 1;
        }
        out
    }
}

/// What was just stored is read back, and is the most recently used.
pub proof fn law_stored_reads_back(
    s: Seq<((i32, i32, i32), Held)>,
    limit: usize,
    k: (i32, i32, i32),
    v: Held,
)
    requires
        keys_once(s),
        0 < limit,
        s.len() <= limit,
    ensures
        present(stored(s, limit, k, v), k),
        position(stored(s, limit, k, v), k, 0) == 0,
        stored(s, limit, k, v)[0] == (k, v),
        stored(s, limit, k, v).len() <= limit,
{
    lemma_stored_keys_once(s, limit, k, v);
    lemma_position_is(stored(s, limit, k, v), 0);
}

/// A full cache makes room for a new key by dropping the least recently used
/// entry, and no other.
pub proof fn law_full_cache_drops_least_recent(
    s: Seq<((i32, i32, i32), Held)>,
    limit: usize,
    k: (i32, i32, i32),
    v: Held,
    i: int,
)
    requires
        keys_once(s),
        0 < limit,
        s.len() == limit,
        !present(s, k),
        0 <= i < s.len(),
    ensures
        present(stored(s, limit, k, v), s[i].0) == (i < s.len() - 1),
{
    lemma_stored_keys_once(s, limit, k, v);
    lemma_position(s, k, 0);
    let t = stored(s, limit, k, v);
    if i < s.len() - 1 {
        assert(t[i + 1] == s[i]);
        lemma_position_is(t, i + 1);
    } else {
        lemma_position(t, s[i].0, 0);
        if present(t, s[i].0) {
            let p = position(t, s[i].0, 0);
            assert(s[i].0 != k);
            assert(t[p] == s[p - 1]);
        }
    }
}

/// Reading an entry keeps all entries and makes it the last to be dropped.
pub proof fn law_reading_keeps_entries(
    s: Seq<((i32, i32, i32), Held)>,
    k: (i32, i32, i32),
    i: int,
)
    requires
        keys_once(s),
        present(s, k),
        0 <= i < s.len(),
    ensures
        used(s, k)[0].0 == k,
        present(used(s, k), s[i].0),
        used(s, k)[position(used(s, k), s[i].0, 0)] == s[i],
{
    lemma_used_keys_once(s, k);
    lemma_position(s, k, 0);
    let p = position(s, k, 0);
    let t = used(s, k);
    let at = if i == p {
        0
    } else if i < p {
        i + 1
    } else {
        i
    };
    assert(t[at] == s[i]);
    lemma_position_is(t, at);
}

} // verus!
