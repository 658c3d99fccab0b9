//! One spatial cell of the world: coordinate, voxel payload, cached neighbor
//! links, and the opaque handles of its external render representation.

use vstd::prelude::*;

use crate::coords::{spec_in_bounds, spec_is_chunkpos, IVec3, VOLUME};

verus! {

/// One loaded chunk.
///
/// The voxel payload is a dense array of `VOLUME` cells; what one cell value
/// means is the collaborators' concern, the store never interprets it. The
/// neighbor links cache, per face, the coordinate of the adjacent chunk when
/// it is loaded; the store is the sole owner of chunks, so a link is a plain
/// coordinate resolved through the store, never an owning reference.
/// `entity` and `mesh_handle` are opaque handles to the external render and
/// physics representation; the store hands them back unchanged at teardown.
pub struct Chunk {
    pub chunkpos: IVec3,
    pub voxels: Vec<u32>,
    pub neighbor_chunks: Vec<Option<IVec3>>,
    pub entity: u64,
    pub mesh_handle: u64,
}

impl Chunk {
    /// Shape of a well-formed chunk: a valid, overflow-safe coordinate, a
    /// full voxel payload, and one neighbor slot per face.
    pub open spec fn wf(self) -> bool {
        &&& spec_is_chunkpos(self.chunkpos)
        &&& spec_in_bounds(self.chunkpos)
        &&& self.voxels@.len() == VOLUME
        &&& self.neighbor_chunks@.len() == 6
    }

    /// A fresh chunk at `chunkpos`: all voxels empty, no neighbor links, no
    /// external handles yet.
    pub fn new(chunkpos: IVec3) -> (r: Chunk)
        requires
            spec_is_chunkpos(chunkpos),
            spec_in_bounds(chunkpos),
        ensures
            r.wf(),
            r.chunkpos == chunkpos,
            r.voxels@ == Seq::<u32>::new(VOLUME as nat, |i: int| 0u32),
            r.neighbor_chunks@ == Seq::<Option<IVec3>>::new(6, |i: int| None::<IVec3>),
            r.entity == 0,
            r.mesh_handle == 0,
    {
        let mut voxels: Vec<u32> = Vec::new();
        let mut i: usize = 0;
        while i < VOLUME
            invariant
                i <= VOLUME,
                voxels@ == Seq::<u32>::new(i as nat, |j: int| 0u32),
            decreases VOLUME - i,
        {
            voxels.push(0);
            proof {
                assert(voxels@ =~= Seq::<u32>::new((i + 1) as nat, |j: int| 0u32));
            }
            i = i + 1;
        }
        let mut neighbor_chunks: Vec<Option<IVec3>> = Vec::new();
        let mut d: usize = 0;
        while d < 6
            invariant
                d <= 6,
                neighbor_chunks@ == Seq::<Option<IVec3>>::new(d as nat, |j: int| None::<IVec3>),
            decreases 6 - d,
        {
            neighbor_chunks.push(None);
            proof {
                assert(neighbor_chunks@ =~= Seq::<Option<IVec3>>::new(
                    (d + 1) as nat,
                    |j: int| None::<IVec3>,
                ));
            }
            d = d + 1;
        }
        Chunk { chunkpos, voxels, neighbor_chunks, entity: 0, mesh_handle: 0 }
    }

    /// A chunk built from a voxel payload supplied by a collaborator (world
    /// generation, or a `ChunkNew` message).
    pub fn from_cells(chunkpos: IVec3, cells: Vec<u32>) -> (r: Chunk)
        requires
            spec_is_chunkpos(chunkpos),
            spec_in_bounds(chunkpos),
            cells@.len() == VOLUME,
        ensures
            r.wf(),
            r.chunkpos == chunkpos,
            r.voxels@ == cells@,
            r.entity == 0,
            r.mesh_handle == 0,
    {
        let mut c = Chunk::new(chunkpos);
        c.voxels = cells;
        c
    }

    /// Dense index of the voxel at local coordinates `(x, y, z)`, each in
    /// `[0, SIZE)`.
    pub open spec fn spec_voxel_index(x: int, y: int, z: int) -> int {
        x * 1024 + y * 32 + z
    }

    pub fn voxel_index(x: usize, y: usize, z: usize) -> (r: usize)
        requires
            x < 32,
            y < 32,
            z < 32,
        ensures
            r == Chunk::spec_voxel_index(x as int, y as int, z as int),
            r < VOLUME,
    {
        x * 1024 + y * 32 + z
    }

    /// The cell value at local coordinates `(x, y, z)`.
    pub fn get_voxel(&self, x: usize, y: usize, z: usize) -> (r: u32)
        requires
            self.wf(),
            x < 32,
            y < 32,
            z < 32,
        ensures
            r == self.voxels@[Chunk::spec_voxel_index(x as int, y as int, z as int)],
    {
        let i = Chunk::voxel_index(x, y, z);
        self.voxels[i]
    }

    /// Overwrite the cell value at local coordinates `(x, y, z)`; every other
    /// cell and every other field keeps its value.
    pub fn set_voxel(&mut self, x: usize, y: usize, z: usize, v: u32)
        requires
            old(self).wf(),
            x < 32,
            y < 32,
            z < 32,
        ensures
            final(self).wf(),
            final(self).voxels@ == old(self).voxels@.update(
                Chunk::spec_voxel_index(x as int, y as int, z as int),
                v,
            ),
            final(self).chunkpos == old(self).chunkpos,
            final(self).neighbor_chunks == old(self).neighbor_chunks,
            final(self).entity == old(self).entity,
            final(self).mesh_handle == old(self).mesh_handle,
    {
        let i = Chunk::voxel_index(x, y, z);
        self.voxels.set(i, v);
    }
}

} // verus!
