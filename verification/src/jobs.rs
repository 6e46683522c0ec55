//! Background jobs: what they hand back, and how many threads run them.

use vstd::prelude::*;

use crate::voxel::chunk::{ChunkLightInputs, PalettedChunk};
use crate::voxel::coords::ChunkCoord;
use crate::voxel::world::{interior_chunk, light_in_range};

verus! {

/// The output of a completed job. `M` is a finished mesh and `B` a finished
/// light volume.
#[allow(inconsistent_fields)]
pub enum JobResult<M, B> {
    /// A chunk was generated.
    Generated { coord: ChunkCoord, data: PalettedChunk, light_inputs: ChunkLightInputs },
    /// A mesh is ready for upload. `version` is the chunk's mesh version when
    /// the job was started.
    Meshed { coord: ChunkCoord, lod: u8, mesh: M, version: u64, light_volume: Option<B> },
    /// A light volume is ready for upload.
    LightBlobReady { coord: ChunkCoord, blob: B },
    /// A chunk was relit. `version` is its light version when the job was
    /// started, `changed_faces` the faces along which its light changed.
    Relit {
        coord: ChunkCoord,
        version: u64,
        data: PalettedChunk,
        changed_faces: [bool; 6],
        unresolved_faces: [bool; 6],
        light_volume: B,
    },
    /// A chunk was read from disk, or none was found there.
    LoadedFromDisk { coord: ChunkCoord, data: Option<PalettedChunk> },
}

/// A stored chunk fit for the world.
pub open spec fn sound_data(data: PalettedChunk) -> bool {
    data.wf() && light_in_range(data@)
}

impl<M, B> JobResult<M, B> {
    /// The chunk the result is about.
    pub open spec fn subject(&self) -> ChunkCoord {
        match *self {
            JobResult::Generated { coord, .. } => coord,
            JobResult::Meshed { coord, .. } => coord,
            JobResult::LightBlobReady { coord, .. } => coord,
            JobResult::Relit { coord, .. } => coord,
            JobResult::LoadedFromDisk { coord, .. } => coord,
        }
    }

    /// The result is about a chunk inside the coordinate range, and carries
    /// sound data.
    pub open spec fn wf(&self) -> bool {
        &&& interior_chunk(self.subject())
        &&& match *self {
            JobResult::Generated { data, light_inputs, .. } => sound_data(data)
                && light_inputs.wf(),
            JobResult::Relit { data, .. } => sound_data(data),
            JobResult::LoadedFromDisk { data, .. } => data matches Some(d) ==> sound_data(d),
            _ => true,
        }
    }
}

/// Worker threads for `parallelism` logical CPUs: all but one, at least one. An
/// unknown number counts as four.
pub fn worker_thread_count(parallelism: Option<usize>) -> (n: usize)
    ensures
        n == workers(parallelism),
{
    let cpus: usize = match parallelism {
        Some(n) => n,
        None => 4,
    };
    if cpus <= 2 {
        1
    } else {
        cpus - 1
    }
}

/// Worker threads for `parallelism` logical CPUs.
pub open spec fn workers(parallelism: Option<usize>) -> int {
    let cpus = match parallelism {
        Some(n) => n as int,
        None => 4,
    };
    if cpus - 1 >= 1 {
        cpus - 1
    } else {
        1
    }
}

/// Split the worker threads between generation and meshing: the larger half
/// generates, and each side has at least one.
pub fn pool_thread_split(parallelism: Option<usize>) -> (r: (usize, usize))
    ensures
        r.0 == (workers(parallelism) + 1) / 2,
        r.1 == if workers(parallelism) / 2 >= 1 {
            workers(parallelism) / 2
        } else {
            1
        },
{
    let total: usize = worker_thread_count(parallelism);
    let half: usize = total / 2;
    let gen_threads: usize = total - half;
    let mesh_threads: usize = if half >= 1 {
        half
    } else {
        1
    };
    (gen_threads, mesh_threads)
}

/// With at least two workers, the split neither adds nor loses a thread, and the
/// sides differ by at most one.
pub proof fn law_split_shares_all_workers(parallelism: Option<usize>)
    requires
        workers(parallelism) >= 2,
    ensures
        (workers(parallelism) + 1) / 2 + workers(parallelism) / 2 == workers(parallelism),
        0 <= (workers(parallelism) + 1) / 2 - workers(parallelism) / 2 <= 1,
{
}

/// One CPU is left to the game: with three or more, all the others work; and with
/// fewer, or an unknown number, some still do.
pub proof fn law_one_cpu_is_left_to_the_game(cpus: usize)
    ensures
        cpus >= 3 ==> (workers(Some(cpus)) + 1) / 2 + workers(Some(cpus)) / 2 == cpus - 1,
        workers(Some(cpus)) >= 1,
        workers(Some(cpus)) < cpus || cpus <= 1,
        workers(None) == workers(Some(4)),
{
}

} // verus!
