//! The chunk store: owns the coordinate-to-chunk mapping, keeps the neighbor
//! graph consistent, and tracks the dirty set and in-flight remesh jobs.

use vstd::prelude::*;

use crate::chunk::Chunk;
use crate::coords::{
    neighbor_pos, opposite, lemma_neighbor_chunkpos, lemma_neighbor_opposite,
    lemma_neighbors_distinct, spec_is_chunkpos, spec_neighbor_pos, spec_opposite, IVec3,
};

verus! {

/// The chunk store.
///
/// `chunks` is the sole owner of all loaded chunks, keyed by coordinate.
/// `chunks_remesh` is the dirty set: coordinates whose surface is stale.
/// `chunks_meshing` maps a coordinate to the handle of its one in-flight
/// regeneration job. `entity` and `vox_mtl` are opaque handles of the render
/// collaborator (the store's container object and the shared terrain
/// material); the store never interprets them.
pub struct ChunkSystem {
    pub chunks: Vec<Chunk>,
    pub chunks_remesh: Vec<IVec3>,
    pub chunks_meshing: Vec<(IVec3, u64)>,
    pub view_distance: (i32, i32),
    pub entity: u64,
    pub vox_mtl: u64,
    pub dbg_remesh_all_chunks: bool,
}

impl ChunkSystem {
    /// A coordinate is loaded when some chunk in the store carries it.
    pub open spec fn spec_contains(self, p: IVec3) -> bool {
        exists|i: int|
            0 <= i < self.chunks@.len() && (#[trigger] self.chunks@[i]).chunkpos == p
    }

    /// The index in `chunks` of the chunk at `p` (meaningful when `p` is
    /// loaded and the store is well formed).
    pub open spec fn spec_index_of(self, p: IVec3) -> int {
        choose|i: int|
            0 <= i < self.chunks@.len() && (#[trigger] self.chunks@[i]).chunkpos == p
    }

    /// The chunk at coordinate `p` (meaningful when `p` is loaded).
    pub open spec fn spec_chunk_at(self, p: IVec3) -> Chunk {
        self.chunks@[self.spec_index_of(p)]
    }

    /// A coordinate is dirty when it sits in the remesh set.
    pub open spec fn spec_is_dirty(self, p: IVec3) -> bool {
        self.chunks_remesh@.contains(p)
    }

    /// Whether a regeneration job is in flight for `p`.
    pub open spec fn spec_has_pending(self, p: IVec3) -> bool {
        exists|i: int|
            0 <= i < self.chunks_meshing@.len() && (#[trigger] self.chunks_meshing@[i]).0 == p
    }

    /// The job handle in flight for `p`, if any.
    pub open spec fn spec_pending(self, p: IVec3) -> Option<u64> {
        if self.spec_has_pending(p) {
            let i = choose|i: int|
                0 <= i < self.chunks_meshing@.len() && (#[trigger] self.chunks_meshing@[i]).0
                    == p;
            Some(self.chunks_meshing@[i].1)
        } else {
            None
        }
    }

    /// What a well-formed store holds in the neighbor slot `d` of a chunk at
    /// `p`: the adjacent coordinate when that neighbor is loaded, else
    /// nothing. Links of a removed chunk are actively cleared, so a link
    /// never dangles.
    pub open spec fn spec_link_target(self, p: IVec3, d: int) -> Option<IVec3> {
        if self.spec_contains(spec_neighbor_pos(p, d)) {
            Some(spec_neighbor_pos(p, d))
        } else {
            None
        }
    }

    /// All six neighbor links of the chunk at index `i` agree with
    /// [`Self::spec_link_target`].
    pub open spec fn links_ok_at(self, i: int) -> bool {
        forall|d: int|
            0 <= d < 6 ==> (#[trigger] self.chunks@[i].neighbor_chunks@[d])
                == self.spec_link_target(self.chunks@[i].chunkpos, d)
    }

    /// The chunk table: one chunk per coordinate, each well formed, and every
    /// neighbor link present exactly when the neighbor is loaded (which gives
    /// link symmetry).
    pub open spec fn wf_chunks(self) -> bool {
        &&& forall|i: int, j: int|
            0 <= i < j < self.chunks@.len() ==> (#[trigger] self.chunks@[i]).chunkpos != (
            #[trigger] self.chunks@[j]).chunkpos
        &&& forall|i: int| 0 <= i < self.chunks@.len() ==> (#[trigger] self.chunks@[i]).wf()
        &&& forall|i: int| 0 <= i < self.chunks@.len() ==> #[trigger] self.links_ok_at(i)
    }

    /// The dirty set: no duplicate marks, only valid chunk coordinates.
    pub open spec fn wf_remesh(self) -> bool {
        &&& forall|i: int, j: int|
            0 <= i < j < self.chunks_remesh@.len() ==> (#[trigger] self.chunks_remesh@[i]) != (
            #[trigger] self.chunks_remesh@[j])
        &&& forall|i: int|
            0 <= i < self.chunks_remesh@.len() ==> spec_is_chunkpos(
                #[trigger] self.chunks_remesh@[i],
            )
    }

    /// The in-flight table: at most one job per coordinate, and only for
    /// loaded chunks.
    pub open spec fn wf_meshing(self) -> bool {
        &&& forall|i: int, j: int|
            0 <= i < j < self.chunks_meshing@.len() ==> (#[trigger] self.chunks_meshing@[i]).0 != (
            #[trigger] self.chunks_meshing@[j]).0
        &&& forall|i: int|
            0 <= i < self.chunks_meshing@.len() ==> self.spec_contains(
                (#[trigger] self.chunks_meshing@[i]).0,
            )
    }

    /// Well-formedness of the whole store.
    pub open spec fn wf(self) -> bool {
        &&& self.wf_chunks()
        &&& self.wf_remesh()
        &&& self.wf_meshing()
    }

    /// In a well-formed store the index of a loaded coordinate is the index
    /// of any entry that carries it.
    pub proof fn lemma_index_of(self, k: int)
        requires
            self.wf_chunks(),
            0 <= k < self.chunks@.len(),
        ensures
            self.spec_index_of(self.chunks@[k].chunkpos) == k,
            self.spec_chunk_at(self.chunks@[k].chunkpos) == self.chunks@[k],
    {
        let p = self.chunks@[k].chunkpos;
        assert(self.spec_contains(p));
        let i = self.spec_index_of(p);
        if i != k {
            if i < k {
                assert(self.chunks@[i].chunkpos != self.chunks@[k].chunkpos);
            } else {
                assert(self.chunks@[k].chunkpos != self.chunks@[i].chunkpos);
            }
        }
    }

    /// Two stores whose chunk tables carry the same coordinates agree on
    /// which coordinates are loaded.
    proof fn lemma_contains_same(a: ChunkSystem, b: ChunkSystem, p: IVec3)
        requires
            a.chunks@.len() == b.chunks@.len(),
            forall|i: int|
                0 <= i < a.chunks@.len() ==> (#[trigger] a.chunks@[i]).chunkpos == (
                #[trigger] b.chunks@[i]).chunkpos,
        ensures
            a.spec_contains(p) == b.spec_contains(p),
    {
        if a.spec_contains(p) {
            let i = choose|i: int|
                0 <= i < a.chunks@.len() && (#[trigger] a.chunks@[i]).chunkpos == p;
            assert(b.chunks@[i].chunkpos == p);
        }
        if b.spec_contains(p) {
            let i = choose|i: int|
                0 <= i < b.chunks@.len() && (#[trigger] b.chunks@[i]).chunkpos == p;
            assert(a.chunks@[i].chunkpos == p);
        }
    }

    /// Two stores with the same in-flight table (with unique coordinates)
    /// agree on the pending job of every coordinate.
    proof fn lemma_pending_same(a: ChunkSystem, b: ChunkSystem, p: IVec3)
        requires
            a.chunks_meshing@ == b.chunks_meshing@,
            forall|i: int, j: int|
                0 <= i < j < a.chunks_meshing@.len() ==> (#[trigger] a.chunks_meshing@[i]).0 != (
                #[trigger] a.chunks_meshing@[j]).0,
        ensures
            a.spec_has_pending(p) == b.spec_has_pending(p),
            a.spec_pending(p) == b.spec_pending(p),
    {
        if a.spec_has_pending(p) {
            let i = choose|i: int|
                0 <= i < a.chunks_meshing@.len() && (#[trigger] a.chunks_meshing@[i]).0 == p;
            assert(b.chunks_meshing@[i].0 == p);
            assert(b.spec_has_pending(p));
        }
        if b.spec_has_pending(p) {
            let i = choose|i: int|
                0 <= i < b.chunks_meshing@.len() && (#[trigger] b.chunks_meshing@[i]).0 == p;
            assert(a.chunks_meshing@[i].0 == p);
            assert(a.spec_has_pending(p));
        }
        if a.spec_has_pending(p) {
            let ia = choose|i: int|
                0 <= i < a.chunks_meshing@.len() && (#[trigger] a.chunks_meshing@[i]).0 == p;
            let ib = choose|i: int|
                0 <= i < b.chunks_meshing@.len() && (#[trigger] b.chunks_meshing@[i]).0 == p;
            if ia < ib {
                assert(a.chunks_meshing@[ia].0 != a.chunks_meshing@[ib].0);
            } else if ib < ia {
                assert(a.chunks_meshing@[ib].0 != a.chunks_meshing@[ia].0);
            }
        }
    }

    /// An empty store with the given horizontal/vertical view radius.
    pub fn new(view_distance: i32) -> (r: ChunkSystem)
        ensures
            r.wf(),
            r.chunks@.len() == 0,
            r.chunks_remesh@.len() == 0,
            r.chunks_meshing@.len() == 0,
            r.view_distance == (view_distance, view_distance),
            r.entity == 0,
            r.vox_mtl == 0,
            !r.dbg_remesh_all_chunks,
            forall|p: IVec3| !r.spec_contains(p),
            forall|p: IVec3| !r.spec_is_dirty(p),
            forall|p: IVec3| r.spec_pending(p) is None,
    {
        ChunkSystem {
            chunks: Vec::new(),
            chunks_remesh: Vec::new(),
            chunks_meshing: Vec::new(),
            view_distance: (view_distance, view_distance),
            entity: 0,
            vox_mtl: 0,
            dbg_remesh_all_chunks: false,
        }
    }

    /// Number of loaded chunks.
    pub fn num_chunks(&self) -> (r: usize)
        ensures
            r == self.chunks@.len(),
    {
        self.chunks.len()
    }

    /// The index in `chunks` of the chunk at `p`, if loaded.
    fn index_of(&self, p: IVec3) -> (r: Option<usize>)
        ensures
            match r {
                Some(k) => k < self.chunks@.len() && self.chunks@[k as int].chunkpos == p,
                None => !self.spec_contains(p),
            },
    {
        let n = self.chunks.len();
        let mut i: usize = 0;
        while i < n
            invariant
                i <= n,
                n == self.chunks@.len(),
                forall|j: int| 0 <= j < i ==> (#[trigger] self.chunks@[j]).chunkpos != p,
            decreases n - i,
        {
            if self.chunks[i].chunkpos == p {
                return Some(i);
            }
            i = i + 1;
        }
        None
    }

    /// Whether a chunk is loaded at `chunkpos`.
    pub fn has_chunk(&self, chunkpos: IVec3) -> (r: bool)
        requires
            spec_is_chunkpos(chunkpos),
        ensures
            r == self.spec_contains(chunkpos),
    {
        self.index_of(chunkpos).is_some()
    }

    /// The chunk loaded at `chunkpos`, if any; absence is not an error.
    pub fn get_chunk(&self, chunkpos: IVec3) -> (r: Option<&Chunk>)
        requires
            self.wf(),
            spec_is_chunkpos(chunkpos),
        ensures
            match r {
                Some(c) => self.spec_contains(chunkpos) && *c == self.spec_chunk_at(chunkpos),
                None => !self.spec_contains(chunkpos),
            },
    {
        match self.index_of(chunkpos) {
            Some(k) => {
                proof {
                    self.lemma_index_of(k as int);
                }
                Some(&self.chunks[k])
            },
            None => None,
        }
    }

    /// Point the neighbor slot `e` of the chunk loaded at `npos` (if any) at
    /// `target`. Everything else of the store keeps its value.
    fn set_link_at(&mut self, npos: IVec3, e: usize, target: Option<IVec3>) -> (hit: bool)
        requires
            e < 6,
            forall|i: int|
                0 <= i < old(self).chunks@.len() ==> (#[trigger] old(self).chunks@[i]).wf(),
            forall|i: int, j: int|
                0 <= i < j < old(self).chunks@.len() ==> (#[trigger] old(self).chunks@[i]).chunkpos
                    != (#[trigger] old(self).chunks@[j]).chunkpos,
        ensures
            hit == old(self).spec_contains(npos),
            final(self).chunks@.len() == old(self).chunks@.len(),
            forall|i: int|
                0 <= i < old(self).chunks@.len() ==> {
                    &&& (#[trigger] final(self).chunks@[i]).chunkpos == old(self).chunks@[i].chunkpos
                    &&& final(self).chunks@[i].voxels@ == old(self).chunks@[i].voxels@
                    &&& final(self).chunks@[i].entity == old(self).chunks@[i].entity
                    &&& final(self).chunks@[i].mesh_handle == old(self).chunks@[i].mesh_handle
                    &&& final(self).chunks@[i].wf()
                },
            forall|i: int, e2: int|
                0 <= i < old(self).chunks@.len() && 0 <= e2 < 6 ==> (#[trigger] final(self).chunks@[i].neighbor_chunks@[e2]) == (if old(self).chunks@[i].chunkpos == npos
                    && e2 == e {
                    target
                } else {
                    old(self).chunks@[i].neighbor_chunks@[e2]
                }),
            final(self).chunks_remesh == old(self).chunks_remesh,
            final(self).chunks_meshing == old(self).chunks_meshing,
            final(self).view_distance == old(self).view_distance,
            final(self).entity == old(self).entity,
            final(self).vox_mtl == old(self).vox_mtl,
            final(self).dbg_remesh_all_chunks == old(self).dbg_remesh_all_chunks,
    {
        match self.index_of(npos) {
            Some(k) => {
                self.chunks[k].neighbor_chunks.set(e, target);
                proof {
                    assert(old(self).spec_contains(npos));
                    assert forall|i: int, e2: int|
                        0 <= i < old(self).chunks@.len() && 0 <= e2 < 6 implies (#[trigger] self
                        .chunks@[i].neighbor_chunks@[e2]) == (if old(self).chunks@[i].chunkpos
                        == npos && e2 == e {
                        target
                    } else {
                        old(self).chunks@[i].neighbor_chunks@[e2]
                    }) by {
                        if i != k && old(self).chunks@[i].chunkpos == npos {
                            if i < k {
                                assert(old(self).chunks@[i].chunkpos != old(self).chunks@[k as int].chunkpos);
                            } else {
                                assert(old(self).chunks@[k as int].chunkpos != old(self).chunks@[i].chunkpos);
                            }
                        }
                    }
                }
                true
            },
            None => false,
        }
    }

    /// Load a new chunk.
    ///
    /// The coordinate must not be loaded yet: a double insert is a caller
    /// error, not a runtime condition. For each of the six faces the adjacent
    /// coordinate is marked dirty whether or not it is loaded; when it is
    /// loaded, the new chunk and the neighbor are linked both ways. The new
    /// chunk's payload and handles are stored unchanged; no other chunk's
    /// payload, the in-flight table or the configuration change.
    #[verifier::loop_isolation(false)]
    pub fn spawn_chunk(&mut self, chunk: Chunk)
        requires
            old(self).wf(),
            chunk.wf(),
            !old(self).spec_contains(chunk.chunkpos),
        ensures
            final(self).wf(),
            forall|p: IVec3|
                final(self).spec_contains(p) <==> (old(self).spec_contains(p) || p
                    == chunk.chunkpos),
            final(self).spec_chunk_at(chunk.chunkpos).chunkpos == chunk.chunkpos,
            final(self).spec_chunk_at(chunk.chunkpos).voxels@ == chunk.voxels@,
            final(self).spec_chunk_at(chunk.chunkpos).entity == chunk.entity,
            final(self).spec_chunk_at(chunk.chunkpos).mesh_handle == chunk.mesh_handle,
            forall|p: IVec3|
                old(self).spec_contains(p) ==> {
                    &&& (#[trigger] final(self).spec_chunk_at(p)).chunkpos == old(self).spec_chunk_at(p).chunkpos
                    &&& final(self).spec_chunk_at(p).voxels@ == old(self).spec_chunk_at(p).voxels@
                    &&& final(self).spec_chunk_at(p).entity == old(self).spec_chunk_at(p).entity
                    &&& final(self).spec_chunk_at(p).mesh_handle == old(self).spec_chunk_at(
                        p,
                    ).mesh_handle
                },
            forall|d: int|
                0 <= d < 6 ==> final(self).spec_is_dirty(
                    #[trigger] spec_neighbor_pos(chunk.chunkpos, d),
                ),
            forall|p: IVec3|
                final(self).spec_is_dirty(p) <==> (old(self).spec_is_dirty(p) || exists|d: int|
                    0 <= d < 6 && p == #[trigger] spec_neighbor_pos(chunk.chunkpos, d)),
            forall|p: IVec3| final(self).spec_pending(p) == old(self).spec_pending(p),
            final(self).view_distance == old(self).view_distance,
            final(self).entity == old(self).entity,
            final(self).vox_mtl == old(self).vox_mtl,
    {
        let chunkpos = chunk.chunkpos;
        let ghost chunk0 = chunk;
        let mut chunk = chunk;
        let mut d: usize = 0;
        while d < 6
            invariant
                d <= 6,
                self.chunks@.len() == old(self).chunks@.len(),
                forall|i: int|
                    0 <= i < self.chunks@.len() ==> {
                        &&& (#[trigger] self.chunks@[i]).chunkpos == old(self).chunks@[i].chunkpos
                        &&& self.chunks@[i].voxels@ == old(self).chunks@[i].voxels@
                        &&& self.chunks@[i].entity == old(self).chunks@[i].entity
                        &&& self.chunks@[i].mesh_handle == old(self).chunks@[i].mesh_handle
                        &&& self.chunks@[i].wf()
                    },
                forall|i: int, e: int|
                    0 <= i < self.chunks@.len() && 0 <= e < 6 ==> (#[trigger] self
                        .chunks@[i].neighbor_chunks@[e]) == (if spec_neighbor_pos(
                        self.chunks@[i].chunkpos,
                        e,
                    ) == chunkpos && spec_opposite(e) < d {
                        Some(chunkpos)
                    } else {
                        old(self).chunks@[i].neighbor_chunks@[e]
                    }),
                chunk.chunkpos == chunkpos,
                chunk.wf(),
                chunk.voxels@ == chunk0.voxels@,
                chunk.entity == chunk0.entity,
                chunk.mesh_handle == chunk0.mesh_handle,
                forall|e: int|
                    0 <= e < d ==> (#[trigger] chunk.neighbor_chunks@[e]) == old(self).spec_link_target(chunkpos, e),
                self.wf_remesh(),
                forall|p: IVec3|
                    self.spec_is_dirty(p) <==> (old(self).spec_is_dirty(p) || exists|dd: int|
                        0 <= dd < d && p == #[trigger] spec_neighbor_pos(chunkpos, dd)),
                self.chunks_meshing == old(self).chunks_meshing,
                self.view_distance == old(self).view_distance,
                self.entity == old(self).entity,
                self.vox_mtl == old(self).vox_mtl,
                self.dbg_remesh_all_chunks == old(self).dbg_remesh_all_chunks,
            decreases 6 - d,
        {
            let ghost pre = *self;
            let npos = neighbor_pos(chunkpos, d);
            proof {
                lemma_neighbor_chunkpos(chunkpos, d as int);
            }
            self.mark_chunk_remesh(npos);
            let ghost mid = *self;
            let e = opposite(d);
            let hit = self.set_link_at(npos, e, Some(chunkpos));
            proof {
                ChunkSystem::lemma_contains_same(mid, *old(self), npos);
                assert(hit == old(self).spec_contains(npos));
            }
            if hit {
                chunk.neighbor_chunks.set(d, Some(npos));
            } else {
                chunk.neighbor_chunks.set(d, None);
            }
            proof {
                assert forall|i: int, e2: int|
                    0 <= i < self.chunks@.len() && 0 <= e2 < 6 implies (#[trigger] self
                    .chunks@[i].neighbor_chunks@[e2]) == (if spec_neighbor_pos(
                    self.chunks@[i].chunkpos,
                    e2,
                ) == chunkpos && spec_opposite(e2) < d + 1 {
                    Some(chunkpos)
                } else {
                    old(self).chunks@[i].neighbor_chunks@[e2]
                }) by {
                    let q = self.chunks@[i].chunkpos;
                    lemma_neighbor_opposite(chunkpos, d as int);
                    if q == npos && e2 == e as int {
                        assert(spec_neighbor_pos(q, e2) == chunkpos);
                        assert(spec_opposite(e2) == d);
                    } else {
                        if spec_neighbor_pos(q, e2) == chunkpos && spec_opposite(e2) == d as int {
                            lemma_neighbor_opposite(q, e2);
                            assert(q == npos && e2 == e as int);
                        }
                    }
                }
                assert forall|p: IVec3|
                    self.spec_is_dirty(p) <==> (old(self).spec_is_dirty(p) || exists|dd: int|
                        0 <= dd < d + 1 && p == #[trigger] spec_neighbor_pos(chunkpos, dd)) by {
                    if p == npos {
                        assert(p == spec_neighbor_pos(chunkpos, d as int));
                    }
                    if self.spec_is_dirty(p) && !pre.spec_is_dirty(p) {
                        assert(p == npos);
                    }
                    if exists|dd: int|
                        0 <= dd < d + 1 && p == #[trigger] spec_neighbor_pos(chunkpos, dd) {
                        let dd = choose|dd: int|
                            0 <= dd < d + 1 && p == #[trigger] spec_neighbor_pos(chunkpos, dd);
                        if dd < d {
                            assert(pre.spec_is_dirty(p) || old(self).spec_is_dirty(p) || p
                                == npos);
                        }
                    }
                }
            }
            d = d + 1;
        }
        proof {
            assert(forall|e: int|
                0 <= e < 6 ==> (#[trigger] chunk.neighbor_chunks@[e]) == old(self).spec_link_target(chunkpos, e));
        }
        self.chunks.push(chunk);
        proof {
            let n = old(self).chunks@.len() as int;
            assert(self.chunks@[n] == chunk);
            assert(self.chunks@.len() == n + 1);
            // membership in the new store
            assert forall|p: IVec3|
                self.spec_contains(p) <==> (old(self).spec_contains(p) || p == chunkpos) by {
                if old(self).spec_contains(p) {
                    let i = choose|i: int|
                        0 <= i < old(self).chunks@.len() && (#[trigger] old(self).chunks@[i]).chunkpos == p;
                    assert(self.chunks@[i].chunkpos == p);
                }
                if self.spec_contains(p) {
                    let i = choose|i: int|
                        0 <= i < self.chunks@.len() && (#[trigger] self.chunks@[i]).chunkpos == p;
                    if i < n {
                        assert(old(self).chunks@[i].chunkpos == p);
                    }
                }
            }
            // uniqueness and well-formedness carry over; links are the crux
            assert forall|i: int| 0 <= i < self.chunks@.len() implies #[trigger] self.links_ok_at(
                i,
            ) by {
                assert forall|e: int|
                    0 <= e < 6 implies (#[trigger] self.chunks@[i].neighbor_chunks@[e])
                    == self.spec_link_target(self.chunks@[i].chunkpos, e) by {
                    let q = self.chunks@[i].chunkpos;
                    let nq = spec_neighbor_pos(q, e);
                    if i == n {
                        // the freshly pushed chunk
                        lemma_neighbors_distinct(
                            chunkpos,
                            e,
                            if e == 0 {
                                1
                            } else {
                                0
                            },
                        );
                        assert(nq != chunkpos);
                        assert(self.spec_contains(nq) <==> old(self).spec_contains(nq));
                    } else {
                        assert(self.chunks@[i].neighbor_chunks@[e] == (if spec_neighbor_pos(
                            q,
                            e,
                        ) == chunkpos && spec_opposite(e) < 6 {
                            Some(chunkpos)
                        } else {
                            old(self).chunks@[i].neighbor_chunks@[e]
                        }));
                        assert(0 <= spec_opposite(e) < 6);
                        if nq == chunkpos {
                            assert(self.spec_contains(nq));
                        } else {
                            assert(old(self).links_ok_at(i));
                            assert(old(self).chunks@[i].neighbor_chunks@[e] == old(self).spec_link_target(q, e));
                            assert(self.spec_contains(nq) <==> old(self).spec_contains(nq));
                        }
                    }
                }
            }
            assert(self.wf_chunks());
            // the pending table saw no change, and its coordinates stay loaded
            assert(self.wf_meshing());
            // locating the chunks mentioned in the contract
            self.lemma_index_of(n);
            assert forall|p: IVec3| old(self).spec_contains(p) implies {
                &&& (#[trigger] self.spec_chunk_at(p)).chunkpos == old(self).spec_chunk_at(
                    p,
                ).chunkpos
                &&& self.spec_chunk_at(p).voxels@ == old(self).spec_chunk_at(p).voxels@
                &&& self.spec_chunk_at(p).entity == old(self).spec_chunk_at(p).entity
                &&& self.spec_chunk_at(p).mesh_handle == old(self).spec_chunk_at(p).mesh_handle
            } by {
                let i = choose|i: int|
                    0 <= i < old(self).chunks@.len() && (#[trigger] old(self).chunks@[i]).chunkpos
                        == p;
                old(self).lemma_index_of(i);
                self.lemma_index_of(i);
            }
            assert(forall|p: IVec3|
                self.spec_is_dirty(p) <==> (old(self).spec_is_dirty(p) || exists|dd: int|
                    0 <= dd < 6 && p == #[trigger] spec_neighbor_pos(chunkpos, dd)));
            assert forall|dd: int| 0 <= dd < 6 implies self.spec_is_dirty(
                #[trigger] spec_neighbor_pos(chunkpos, dd),
            ) by {
                let p = spec_neighbor_pos(chunkpos, dd);
                assert(0 <= dd < 6 && p == spec_neighbor_pos(chunkpos, dd));
                assert(exists|dd2: int|
                    0 <= dd2 < 6 && p == #[trigger] spec_neighbor_pos(chunkpos, dd2));
            }
            assert forall|p: IVec3| self.spec_pending(p) == old(self).spec_pending(p) by {
                ChunkSystem::lemma_pending_same(*self, *old(self), p);
            }
        }
    }

    /// Unload the chunk at `chunkpos` and hand it back, so the caller can
    /// release its external render and physics resources.
    ///
    /// When nothing is loaded there the store is left untouched. Otherwise
    /// the six face-adjacent coordinates are marked dirty, every neighbor's
    /// link toward the removed chunk is actively cleared, and the removed
    /// coordinate's own dirty mark and pending job record are dropped.
    #[verifier::loop_isolation(false)]
    pub fn despawn_chunk(&mut self, chunkpos: IVec3) -> (r: Option<Chunk>)
        requires
            old(self).wf(),
            spec_is_chunkpos(chunkpos),
        ensures
            final(self).wf(),
            match r {
                Some(c) => {
                    &&& old(self).spec_contains(chunkpos)
                    &&& c.chunkpos == chunkpos
                    &&& c.voxels@ == old(self).spec_chunk_at(chunkpos).voxels@
                    &&& c.entity == old(self).spec_chunk_at(chunkpos).entity
                    &&& c.mesh_handle == old(self).spec_chunk_at(chunkpos).mesh_handle
                },
                None => !old(self).spec_contains(chunkpos) && *final(self) == *old(self),
            },
            forall|p: IVec3|
                final(self).spec_contains(p) <==> (old(self).spec_contains(p) && p != chunkpos),
            forall|p: IVec3|
                p != chunkpos && old(self).spec_contains(p) ==> {
                    &&& (#[trigger] final(self).spec_chunk_at(p)).chunkpos == old(self).spec_chunk_at(p).chunkpos
                    &&& final(self).spec_chunk_at(p).voxels@ == old(self).spec_chunk_at(p).voxels@
                    &&& final(self).spec_chunk_at(p).entity == old(self).spec_chunk_at(p).entity
                    &&& final(self).spec_chunk_at(p).mesh_handle == old(self).spec_chunk_at(
                        p,
                    ).mesh_handle
                },
            old(self).spec_contains(chunkpos) ==> forall|p: IVec3|
                final(self).spec_is_dirty(p) <==> ((old(self).spec_is_dirty(p) && p != chunkpos)
                    || exists|d: int| 0 <= d < 6 && p == #[trigger] spec_neighbor_pos(chunkpos, d)),
            !final(self).spec_has_pending(chunkpos) || !old(self).spec_contains(chunkpos),
            forall|p: IVec3|
                p != chunkpos ==> #[trigger] final(self).spec_pending(p) == old(self).spec_pending(
                    p,
                ),
            final(self).view_distance == old(self).view_distance,
            final(self).entity == old(self).entity,
            final(self).vox_mtl == old(self).vox_mtl,
    {
        let k = match self.index_of(chunkpos) {
            Some(k) => k,
            None => {
                return None;
            },
        };
        proof {
            old(self).lemma_index_of(k as int);
            assert(old(self).chunks@[k as int].wf());
        }
        let mut d: usize = 0;
        while d < 6
            invariant
                d <= 6,
                k < self.chunks@.len(),
                self.chunks@.len() == old(self).chunks@.len(),
                forall|i: int|
                    0 <= i < self.chunks@.len() ==> {
                        &&& (#[trigger] self.chunks@[i]).chunkpos == old(self).chunks@[i].chunkpos
                        &&& self.chunks@[i].voxels@ == old(self).chunks@[i].voxels@
                        &&& self.chunks@[i].entity == old(self).chunks@[i].entity
                        &&& self.chunks@[i].mesh_handle == old(self).chunks@[i].mesh_handle
                        &&& self.chunks@[i].wf()
                    },
                forall|i: int, e: int|
                    0 <= i < self.chunks@.len() && 0 <= e < 6 ==> (#[trigger] self
                        .chunks@[i].neighbor_chunks@[e]) == (if spec_neighbor_pos(
                        self.chunks@[i].chunkpos,
                        e,
                    ) == chunkpos && spec_opposite(e) < d {
                        None
                    } else {
                        old(self).chunks@[i].neighbor_chunks@[e]
                    }),
                self.wf_remesh(),
                forall|p: IVec3|
                    self.spec_is_dirty(p) <==> (old(self).spec_is_dirty(p) || exists|dd: int|
                        0 <= dd < d && p == #[trigger] spec_neighbor_pos(chunkpos, dd)),
                self.chunks_meshing == old(self).chunks_meshing,
                self.view_distance == old(self).view_distance,
                self.entity == old(self).entity,
                self.vox_mtl == old(self).vox_mtl,
                self.dbg_remesh_all_chunks == old(self).dbg_remesh_all_chunks,
            decreases 6 - d,
        {
            let npos = neighbor_pos(self.chunks[k].chunkpos, d);
            proof {
                lemma_neighbor_chunkpos(chunkpos, d as int);
            }
            self.mark_chunk_remesh(npos);
            let ghost mid = *self;
            let e = opposite(d);
            let _hit = self.set_link_at(npos, e, None);
            proof {
                assert forall|i: int, e2: int|
                    0 <= i < self.chunks@.len() && 0 <= e2 < 6 implies (#[trigger] self
                    .chunks@[i].neighbor_chunks@[e2]) == (if spec_neighbor_pos(
                    self.chunks@[i].chunkpos,
                    e2,
                ) == chunkpos && spec_opposite(e2) < d + 1 {
                    None
                } else {
                    old(self).chunks@[i].neighbor_chunks@[e2]
                }) by {
                    let q = self.chunks@[i].chunkpos;
                    lemma_neighbor_opposite(chunkpos, d as int);
                    if q == npos && e2 == e as int {
                        assert(spec_neighbor_pos(q, e2) == chunkpos);
                        assert(spec_opposite(e2) == d);
                    } else {
                        if spec_neighbor_pos(q, e2) == chunkpos && spec_opposite(e2) == d as int {
                            lemma_neighbor_opposite(q, e2);
                            assert(q == npos && e2 == e as int);
                        }
                    }
                }
                assert forall|p: IVec3|
                    self.spec_is_dirty(p) <==> (old(self).spec_is_dirty(p) || exists|dd: int|
                        0 <= dd < d + 1 && p == #[trigger] spec_neighbor_pos(chunkpos, dd)) by {
                    if p == npos {
                        assert(p == spec_neighbor_pos(chunkpos, d as int));
                    }
                    if exists|dd: int|
                        0 <= dd < d + 1 && p == #[trigger] spec_neighbor_pos(chunkpos, dd) {
                        let dd = choose|dd: int|
                            0 <= dd < d + 1 && p == #[trigger] spec_neighbor_pos(chunkpos, dd);
                        if dd < d {
                            assert(mid.spec_is_dirty(p));
                        }
                    }
                }
            }
            d = d + 1;
        }
        let ghost post_loop = *self;
        self.remove_remesh_mark(chunkpos);
        let ghost post_unmark = *self;
        self.remove_pending_job(chunkpos);
        let ghost mid = *self;
        let c = self.chunks.remove(k);
        proof {
            mid.chunks@.remove_ensures(k as int);
            let n = mid.chunks@.len() as int;
            // membership after the removal
            assert forall|p: IVec3|
                self.spec_contains(p) <==> (old(self).spec_contains(p) && p != chunkpos) by {
                if self.spec_contains(p) {
                    let i = choose|i: int|
                        0 <= i < self.chunks@.len() && (#[trigger] self.chunks@[i]).chunkpos == p;
                    let i0: int = if i < k { i } else { i + 1 };
                    assert(mid.chunks@[i0].chunkpos == p);
                    assert(old(self).chunks@[i0].chunkpos == p);
                    if p == chunkpos {
                        if i0 < k {
                            assert(old(self).chunks@[i0].chunkpos != old(self).chunks@[k as int].chunkpos);
                        } else {
                            assert(old(self).chunks@[k as int].chunkpos != old(self).chunks@[i0].chunkpos);
                        }
                    }
                }
                if old(self).spec_contains(p) && p != chunkpos {
                    let i = choose|i: int|
                        0 <= i < old(self).chunks@.len() && (#[trigger] old(self).chunks@[i]).chunkpos == p;
                    assert(i != k);
                    if i < k {
                        assert(self.chunks@[i].chunkpos == p);
                    } else {
                        assert(self.chunks@[i - 1].chunkpos == p);
                    }
                }
            }
            // the remaining chunks are unchanged but for cleared links
            assert forall|i: int| 0 <= i < self.chunks@.len() implies {
                &&& (#[trigger] self.chunks@[i]).wf()
                &&& self.chunks@[i].chunkpos == old(self).chunks@[if i < k {
                    i
                } else {
                    i + 1
                }].chunkpos
            } by {
                let i0: int = if i < k { i } else { i + 1 };
                assert(mid.chunks@[i0].wf());
            }
            assert(self.wf_chunks()) by {
                assert forall|i: int, j: int|
                    0 <= i < j < self.chunks@.len() implies (#[trigger] self.chunks@[i]).chunkpos
                    != (#[trigger] self.chunks@[j]).chunkpos by {
                    let i0: int = if i < k { i } else { i + 1 };
                    let j0: int = if j < k { j } else { j + 1 };
                    assert(old(self).chunks@[i0].chunkpos != old(self).chunks@[j0].chunkpos);
                }
                assert forall|i: int| 0 <= i < self.chunks@.len() implies #[trigger] self
                    .links_ok_at(i) by {
                    let i0: int = if i < k { i } else { i + 1 };
                    assert forall|e: int|
                        0 <= e < 6 implies (#[trigger] self.chunks@[i].neighbor_chunks@[e])
                        == self.spec_link_target(self.chunks@[i].chunkpos, e) by {
                        let q = self.chunks@[i].chunkpos;
                        let nq = spec_neighbor_pos(q, e);
                        assert(self.chunks@[i] == mid.chunks@[i0]);
                        assert(0 <= spec_opposite(e) < 6);
                        if nq == chunkpos {
                            assert(mid.chunks@[i0].neighbor_chunks@[e] is None);
                            assert(!self.spec_contains(nq));
                        } else {
                            assert(mid.chunks@[i0].neighbor_chunks@[e] == old(self).chunks@[i0].neighbor_chunks@[e]);
                            assert(old(self).links_ok_at(i0));
                            assert(self.spec_contains(nq) == old(self).spec_contains(nq));
                        }
                    }
                }
            }
            assert(self.wf_meshing()) by {
                assert forall|i: int| 0 <= i < self.chunks_meshing@.len() implies self
                    .spec_contains((#[trigger] self.chunks_meshing@[i]).0) by {
                    let q = self.chunks_meshing@[i].0;
                    assert(mid.chunks_meshing@[i].0 == q);
                    assert(q != chunkpos) by {
                        if q == chunkpos {
                            assert(mid.spec_has_pending(chunkpos));
                        }
                    }
                    assert(old(self).spec_has_pending(q)) by {
                        if !old(self).spec_has_pending(q) {
                            assert(!mid.spec_has_pending(q));
                            assert(mid.chunks_meshing@[i].0 == q);
                        }
                    }
                    let j = choose|j: int|
                        0 <= j < old(self).chunks_meshing@.len() && (#[trigger] old(self).chunks_meshing@[j]).0 == q;
                    assert(old(self).spec_contains(q));
                }
            }
            // the removed chunk's data
            old(self).lemma_index_of(k as int);
            assert(c.voxels@ == old(self).spec_chunk_at(chunkpos).voxels@);
            // data of the surviving chunks
            assert forall|p: IVec3| p != chunkpos && old(self).spec_contains(p) implies {
                &&& (#[trigger] self.spec_chunk_at(p)).chunkpos == old(self).spec_chunk_at(
                    p,
                ).chunkpos
                &&& self.spec_chunk_at(p).voxels@ == old(self).spec_chunk_at(p).voxels@
                &&& self.spec_chunk_at(p).entity == old(self).spec_chunk_at(p).entity
                &&& self.spec_chunk_at(p).mesh_handle == old(self).spec_chunk_at(p).mesh_handle
            } by {
                let i0 = choose|i: int|
                    0 <= i < old(self).chunks@.len() && (#[trigger] old(self).chunks@[i]).chunkpos
                        == p;
                old(self).lemma_index_of(i0);
                assert(i0 != k);
                let i: int = if i0 < k { i0 } else { i0 - 1 };
                assert(self.chunks@[i] == mid.chunks@[i0]);
                assert(self.chunks@[i].chunkpos == p);
                self.lemma_index_of(i);
            }
            // the dirty set: neighbors marked, own mark gone
            assert forall|p: IVec3|
                self.spec_is_dirty(p) <==> ((old(self).spec_is_dirty(p) && p != chunkpos)
                    || exists|dd: int| 0 <= dd < 6 && p == #[trigger] spec_neighbor_pos(
                    chunkpos,
                    dd,
                )) by {
                assert(self.spec_is_dirty(p) == post_unmark.spec_is_dirty(p));
                assert(post_unmark.spec_is_dirty(p) <==> (post_loop.spec_is_dirty(p) && p
                    != chunkpos));
                assert(post_loop.spec_is_dirty(p) <==> (old(self).spec_is_dirty(p) || exists|
                    dd: int,
                |
                    0 <= dd < 6 && p == #[trigger] spec_neighbor_pos(chunkpos, dd)));
                if exists|dd: int| 0 <= dd < 6 && p == #[trigger] spec_neighbor_pos(chunkpos, dd) {
                    let dd = choose|dd: int|
                        0 <= dd < 6 && p == #[trigger] spec_neighbor_pos(chunkpos, dd);
                    lemma_neighbors_distinct(
                        chunkpos,
                        dd,
                        if dd == 0 {
                            1
                        } else {
                            0
                        },
                    );
                    assert(p != chunkpos);
                }
            }
            // pending jobs of other coordinates survive unchanged
            assert forall|p: IVec3| p != chunkpos implies #[trigger] self.spec_pending(p) == old(self).spec_pending(p) by {
                ChunkSystem::lemma_pending_same(*self, mid, p);
            }
            assert(!self.spec_has_pending(chunkpos)) by {
                if self.spec_has_pending(chunkpos) {
                    let j = choose|j: int|
                        0 <= j < self.chunks_meshing@.len() && (
                        #[trigger] self.chunks_meshing@[j]).0 == chunkpos;
                    assert(mid.chunks_meshing@[j].0 == chunkpos);
                    assert(mid.spec_has_pending(chunkpos));
                }
            }
        }
        Some(c)
    }

    /// The index in `chunks_meshing` of the in-flight record for `p`, if any.
    fn pending_index_of(&self, p: IVec3) -> (r: Option<usize>)
        ensures
            match r {
                Some(k) => k < self.chunks_meshing@.len() && self.chunks_meshing@[k as int].0 == p,
                None => !self.spec_has_pending(p),
            },
    {
        let n = self.chunks_meshing.len();
        let mut i: usize = 0;
        while i < n
            invariant
                i <= n,
                n == self.chunks_meshing@.len(),
                forall|j: int| 0 <= j < i ==> (#[trigger] self.chunks_meshing@[j]).0 != p,
            decreases n - i,
        {
            if self.chunks_meshing[i].0 == p {
                return Some(i);
            }
            i = i + 1;
        }
        None
    }

    /// Whether a regeneration job is in flight for `chunkpos`.
    pub fn has_pending_job(&self, chunkpos: IVec3) -> (r: bool)
        ensures
            r == self.spec_has_pending(chunkpos),
    {
        self.pending_index_of(chunkpos).is_some()
    }

    /// Pick a coordinate worth remeshing now: dirty, loaded, and with no job
    /// already in flight. When none is returned, every dirty coordinate is
    /// either unloaded or already being worked on.
    pub fn next_remesh_target(&self) -> (r: Option<IVec3>)
        requires
            self.wf(),
        ensures
            match r {
                Some(p) => self.spec_is_dirty(p) && self.spec_contains(p)
                    && !self.spec_has_pending(p),
                None => forall|p: IVec3|
                    self.spec_is_dirty(p) ==> !self.spec_contains(p) || self.spec_has_pending(p),
            },
    {
        let n = self.chunks_remesh.len();
        let mut i: usize = 0;
        while i < n
            invariant
                i <= n,
                n == self.chunks_remesh@.len(),
                self.wf(),
                forall|j: int|
                    0 <= j < i ==> !self.spec_contains(#[trigger] self.chunks_remesh@[j])
                        || self.spec_has_pending(self.chunks_remesh@[j]),
            decreases n - i,
        {
            let p = self.chunks_remesh[i];
            proof {
                assert(self.chunks_remesh@.contains(p));
            }
            if self.has_chunk(p) && !self.has_pending_job(p) {
                return Some(p);
            }
            i = i + 1;
        }
        proof {
            assert forall|p: IVec3| self.spec_is_dirty(p) implies !self.spec_contains(p)
                || self.spec_has_pending(p) by {
                let j = choose|j: int|
                    0 <= j < self.chunks_remesh@.len() && self.chunks_remesh@[j] == p;
                assert(!self.spec_contains(self.chunks_remesh@[j]) || self.spec_has_pending(
                    self.chunks_remesh@[j],
                ));
            }
        }
        None
    }

    /// Record that a regeneration job `job` now runs for `chunkpos`: the
    /// coordinate leaves the dirty set and enters the in-flight table. At
    /// most one job may be in flight per coordinate, so a pending record must
    /// not exist yet.
    #[verifier::loop_isolation(false)]
    pub fn begin_remesh_job(&mut self, chunkpos: IVec3, job: u64)
        requires
            old(self).wf(),
            spec_is_chunkpos(chunkpos),
            old(self).spec_is_dirty(chunkpos),
            old(self).spec_contains(chunkpos),
            !old(self).spec_has_pending(chunkpos),
        ensures
            final(self).wf(),
            forall|p: IVec3|
                final(self).spec_is_dirty(p) <==> (old(self).spec_is_dirty(p) && p != chunkpos),
            final(self).spec_pending(chunkpos) == Some(job),
            forall|p: IVec3|
                p != chunkpos ==> #[trigger] final(self).spec_pending(p) == old(self).spec_pending(
                    p,
                ),
            final(self).chunks == old(self).chunks,
            final(self).view_distance == old(self).view_distance,
            final(self).entity == old(self).entity,
            final(self).vox_mtl == old(self).vox_mtl,
    {
        self.remove_remesh_mark(chunkpos);
        let ghost mid = *self;
        self.chunks_meshing.push((chunkpos, job));
        proof {
            let n = mid.chunks_meshing@.len() as int;
            assert(self.chunks_meshing@[n] == (chunkpos, job));
            // no record for `chunkpos` existed, so the table keys stay unique
            assert forall|i: int, j: int|
                0 <= i < j < self.chunks_meshing@.len() implies (
            #[trigger] self.chunks_meshing@[i]).0 != (#[trigger] self.chunks_meshing@[j]).0 by {
                if j == n && self.chunks_meshing@[i].0 == chunkpos {
                    assert(old(self).chunks_meshing@[i].0 == chunkpos);
                    assert(old(self).spec_has_pending(chunkpos));
                }
            }
            assert forall|i: int| 0 <= i < self.chunks_meshing@.len() implies self.spec_contains(
                (#[trigger] self.chunks_meshing@[i]).0,
            ) by {
                ChunkSystem::lemma_contains_same(*self, *old(self), self.chunks_meshing@[i].0);
                if i < n {
                    assert(self.chunks_meshing@[i] == old(self).chunks_meshing@[i]);
                    assert(old(self).spec_contains(old(self).chunks_meshing@[i].0));
                } else {
                    assert(self.chunks_meshing@[i].0 == chunkpos);
                }
            }
            assert forall|i: int| 0 <= i < self.chunks@.len() implies #[trigger] self.links_ok_at(
                i,
            ) by {
                assert(old(self).links_ok_at(i));
                assert forall|e: int|
                    0 <= e < 6 implies (#[trigger] self.chunks@[i].neighbor_chunks@[e])
                    == self.spec_link_target(self.chunks@[i].chunkpos, e) by {
                    ChunkSystem::lemma_contains_same(
                        *self,
                        *old(self),
                        spec_neighbor_pos(self.chunks@[i].chunkpos, e),
                    );
                }
            }
            assert(self.spec_has_pending(chunkpos));
            assert(self.spec_pending(chunkpos) == Some(job)) by {
                let i = choose|i: int|
                    0 <= i < self.chunks_meshing@.len() && (#[trigger] self.chunks_meshing@[i]).0
                        == chunkpos;
                if i < n {
                    assert(old(self).chunks_meshing@[i].0 == chunkpos);
                    assert(old(self).spec_has_pending(chunkpos));
                }
            }
            assert forall|p: IVec3| p != chunkpos implies #[trigger] self.spec_pending(p) == old(self).spec_pending(p) by {
                if old(self).spec_has_pending(p) {
                    let i = choose|i: int|
                        0 <= i < old(self).chunks_meshing@.len() && (#[trigger] old(self).chunks_meshing@[i]).0 == p;
                    assert(self.chunks_meshing@[i].0 == p);
                    assert(self.spec_has_pending(p));
                    let ia = choose|i: int|
                        0 <= i < self.chunks_meshing@.len() && (
                        #[trigger] self.chunks_meshing@[i]).0 == p;
                    if ia < i {
                        assert(self.chunks_meshing@[ia].0 != self.chunks_meshing@[i].0);
                    } else if i < ia {
                        assert(self.chunks_meshing@[i].0 != self.chunks_meshing@[ia].0);
                    }
                    assert(old(self).spec_pending(p) == Some(old(self).chunks_meshing@[i].1));
                }
                if self.spec_has_pending(p) {
                    let i = choose|i: int|
                        0 <= i < self.chunks_meshing@.len() && (
                        #[trigger] self.chunks_meshing@[i]).0 == p;
                    assert(i != n);
                    assert(old(self).chunks_meshing@[i].0 == p);
                    assert(old(self).spec_has_pending(p));
                }
            }
        }
    }

    /// Record the render collaborator's handles on the chunk loaded at
    /// `chunkpos`: the external object and its surface handle, stored for
    /// later lookup and teardown. Nothing else of the store changes; an
    /// unloaded coordinate leaves the store untouched.
    pub fn attach_render_handles(&mut self, chunkpos: IVec3, entity: u64, mesh_handle: u64) -> (r:
        bool)
        requires
            old(self).wf(),
            spec_is_chunkpos(chunkpos),
        ensures
            final(self).wf(),
            r == old(self).spec_contains(chunkpos),
            !r ==> *final(self) == *old(self),
            r ==> {
                &&& forall|p: IVec3|
                    final(self).spec_contains(p) == old(self).spec_contains(p)
                &&& final(self).spec_chunk_at(chunkpos).entity == entity
                &&& final(self).spec_chunk_at(chunkpos).mesh_handle == mesh_handle
                &&& final(self).spec_chunk_at(chunkpos).chunkpos == chunkpos
                &&& final(self).spec_chunk_at(chunkpos).voxels@ == old(self).spec_chunk_at(
                    chunkpos,
                ).voxels@
                &&& forall|p: IVec3|
                    p != chunkpos && old(self).spec_contains(p) ==> #[trigger] final(self).spec_chunk_at(p) == old(self).spec_chunk_at(p)
                &&& forall|p: IVec3|
                    final(self).spec_is_dirty(p) == old(self).spec_is_dirty(p)
                &&& forall|p: IVec3|
                    final(self).spec_pending(p) == old(self).spec_pending(p)
                &&& final(self).view_distance == old(self).view_distance
            },
    {
        let k = match self.index_of(chunkpos) {
            Some(k) => k,
            None => {
                return false;
            },
        };
        self.chunks[k].entity = entity;
        self.chunks[k].mesh_handle = mesh_handle;
        proof {
            old(self).lemma_index_of(k as int);
            assert forall|p: IVec3|
                self.spec_contains(p) == old(self).spec_contains(p) by {
                ChunkSystem::lemma_contains_same(*self, *old(self), p);
            }
            assert forall|i: int| 0 <= i < self.chunks@.len() implies #[trigger] self.links_ok_at(
                i,
            ) by {
                assert(old(self).links_ok_at(i));
                assert forall|e: int|
                    0 <= e < 6 implies (#[trigger] self.chunks@[i].neighbor_chunks@[e])
                    == self.spec_link_target(self.chunks@[i].chunkpos, e) by {
                    assert(self.chunks@[i].neighbor_chunks@ == old(self).chunks@[i].neighbor_chunks@);
                    ChunkSystem::lemma_contains_same(
                        *self,
                        *old(self),
                        spec_neighbor_pos(self.chunks@[i].chunkpos, e),
                    );
                }
            }
            assert(self.wf_chunks());
            assert(self.wf_meshing()) by {
                assert forall|i: int| 0 <= i < self.chunks_meshing@.len() implies self
                    .spec_contains((#[trigger] self.chunks_meshing@[i]).0) by {
                    assert(old(self).spec_contains(old(self).chunks_meshing@[i].0));
                    ChunkSystem::lemma_contains_same(
                        *self,
                        *old(self),
                        self.chunks_meshing@[i].0,
                    );
                }
            }
            self.lemma_index_of(k as int);
            assert forall|p: IVec3| p != chunkpos && old(self).spec_contains(p) implies
                #[trigger] self.spec_chunk_at(p) == old(self).spec_chunk_at(p) by {
                let i = choose|i: int|
                    0 <= i < old(self).chunks@.len() && (#[trigger] old(self).chunks@[i]).chunkpos
                        == p;
                old(self).lemma_index_of(i);
                self.lemma_index_of(i);
                assert(self.chunks@[i] == old(self).chunks@[i]);
            }
            assert forall|p: IVec3| self.spec_pending(p) == old(self).spec_pending(p) by {
                ChunkSystem::lemma_pending_same(*self, *old(self), p);
            }
        }
        true
    }

    /// Retire a finished regeneration job. The result is applied only when
    /// the job handed in is exactly the one on record for `chunkpos`: then
    /// the chunk's surface handle is replaced and the record leaves the
    /// in-flight table. A stale result — its chunk unloaded meanwhile, or a
    /// different job on record — is discarded and the store is untouched.
    #[verifier::loop_isolation(false)]
    pub fn complete_remesh_job(&mut self, chunkpos: IVec3, job: u64, mesh_handle: u64) -> (r: bool)
        requires
            old(self).wf(),
            spec_is_chunkpos(chunkpos),
        ensures
            final(self).wf(),
            r == (old(self).spec_pending(chunkpos) == Some(job)),
            !r ==> *final(self) == *old(self),
            r ==> {
                &&& old(self).spec_contains(chunkpos)
                &&& forall|p: IVec3|
                    final(self).spec_contains(p) == old(self).spec_contains(p)
                &&& final(self).spec_chunk_at(chunkpos).mesh_handle == mesh_handle
                &&& final(self).spec_chunk_at(chunkpos).chunkpos == chunkpos
                &&& final(self).spec_chunk_at(chunkpos).voxels@ == old(self).spec_chunk_at(
                    chunkpos,
                ).voxels@
                &&& final(self).spec_chunk_at(chunkpos).entity == old(self).spec_chunk_at(
                    chunkpos,
                ).entity
                &&& forall|p: IVec3|
                    p != chunkpos && old(self).spec_contains(p) ==> #[trigger] final(self).spec_chunk_at(p) == old(self).spec_chunk_at(p)
                &&& forall|p: IVec3|
                    final(self).spec_is_dirty(p) == old(self).spec_is_dirty(p)
                &&& !final(self).spec_has_pending(chunkpos)
                &&& forall|p: IVec3|
                    p != chunkpos ==> #[trigger] final(self).spec_pending(p) == old(self).spec_pending(p)
                &&& final(self).view_distance == old(self).view_distance
            },
    {
        let idx = match self.pending_index_of(chunkpos) {
            Some(idx) => idx,
            None => {
                proof {
                    assert(old(self).spec_pending(chunkpos) is None);
                }
                return false;
            },
        };
        proof {
            assert(self.spec_has_pending(chunkpos));
        }
        if self.chunks_meshing[idx].1 != job {
            proof {
                let i = choose|i: int|
                    0 <= i < self.chunks_meshing@.len() && (#[trigger] self.chunks_meshing@[i]).0
                        == chunkpos;
                if i < idx {
                    assert(self.chunks_meshing@[i].0 != self.chunks_meshing@[idx as int].0);
                } else if idx < i {
                    assert(self.chunks_meshing@[idx as int].0 != self.chunks_meshing@[i].0);
                }
            }
            return false;
        }
        proof {
            let i = choose|i: int|
                0 <= i < self.chunks_meshing@.len() && (#[trigger] self.chunks_meshing@[i]).0
                    == chunkpos;
            if i < idx {
                assert(self.chunks_meshing@[i].0 != self.chunks_meshing@[idx as int].0);
            } else if idx < i {
                assert(self.chunks_meshing@[idx as int].0 != self.chunks_meshing@[i].0);
            }
            assert(old(self).spec_pending(chunkpos) == Some(job));
        }
        let k = match self.index_of(chunkpos) {
            Some(k) => k,
            None => {
                proof {
                    assert(old(self).spec_contains(chunkpos));
                    assert(false);
                }
                return false;
            },
        };
        self.chunks[k].mesh_handle = mesh_handle;
        let ghost mid = *self;
        self.remove_pending_job(chunkpos);
        proof {
            old(self).lemma_index_of(k as int);
            // the chunk table: one surface handle replaced, nothing else
            assert forall|p: IVec3|
                self.spec_contains(p) == old(self).spec_contains(p) by {
                ChunkSystem::lemma_contains_same(*self, *old(self), p);
            }
            assert forall|i: int| 0 <= i < self.chunks@.len() implies #[trigger] self.links_ok_at(
                i,
            ) by {
                assert forall|e: int|
                    0 <= e < 6 implies (#[trigger] self.chunks@[i].neighbor_chunks@[e])
                    == self.spec_link_target(self.chunks@[i].chunkpos, e) by {
                    assert(old(self).links_ok_at(i));
                    assert(self.chunks@[i].neighbor_chunks@ == old(self).chunks@[i].neighbor_chunks@);
                    ChunkSystem::lemma_contains_same(
                        *self,
                        *old(self),
                        spec_neighbor_pos(self.chunks@[i].chunkpos, e),
                    );
                }
            }
            assert(self.wf_chunks());
            assert(self.wf_meshing()) by {
                assert forall|i: int| 0 <= i < self.chunks_meshing@.len() implies self
                    .spec_contains((#[trigger] self.chunks_meshing@[i]).0) by {
                    let q = self.chunks_meshing@[i].0;
                    assert(self.spec_has_pending(q));
                    assert(q != chunkpos);
                    assert(mid.spec_has_pending(q));
                    let j = choose|j: int|
                        0 <= j < mid.chunks_meshing@.len() && (#[trigger] mid.chunks_meshing@[j]).0
                            == q;
                    assert(old(self).chunks_meshing@[j].0 == q);
                    assert(old(self).spec_contains(q));
                    ChunkSystem::lemma_contains_same(*self, *old(self), q);
                }
            }
            self.lemma_index_of(k as int);
            assert(self.spec_chunk_at(chunkpos).mesh_handle == mesh_handle);
            assert forall|p: IVec3| p != chunkpos && old(self).spec_contains(p) implies
                #[trigger] self.spec_chunk_at(p) == old(self).spec_chunk_at(p) by {
                let i = choose|i: int|
                    0 <= i < old(self).chunks@.len() && (#[trigger] old(self).chunks@[i]).chunkpos
                        == p;
                old(self).lemma_index_of(i);
                self.lemma_index_of(i);
                assert(self.chunks@[i] == old(self).chunks@[i]);
            }
        }
        true
    }

    /// Retire a regeneration job that failed (a neighbor vanished mid-read,
    /// or the pool gave up): the record leaves the in-flight table and the
    /// coordinate is marked dirty again, so the next scheduling pass retries
    /// it. A stale or superseded failure report is discarded unchanged.
    pub fn fail_remesh_job(&mut self, chunkpos: IVec3, job: u64) -> (r: bool)
        requires
            old(self).wf(),
            spec_is_chunkpos(chunkpos),
        ensures
            final(self).wf(),
            r == (old(self).spec_pending(chunkpos) == Some(job)),
            !r ==> *final(self) == *old(self),
            r ==> {
                &&& final(self).chunks == old(self).chunks
                &&& !final(self).spec_has_pending(chunkpos)
                &&& forall|p: IVec3|
                    p != chunkpos ==> #[trigger] final(self).spec_pending(p) == old(self).spec_pending(p)
                &&& final(self).spec_is_dirty(chunkpos)
                &&& forall|p: IVec3|
                    final(self).spec_is_dirty(p) <==> (old(self).spec_is_dirty(p) || p
                        == chunkpos)
            },
    {
        let idx = match self.pending_index_of(chunkpos) {
            Some(idx) => idx,
            None => {
                proof {
                    assert(old(self).spec_pending(chunkpos) is None);
                }
                return false;
            },
        };
        proof {
            assert(self.spec_has_pending(chunkpos));
            let i = choose|i: int|
                0 <= i < self.chunks_meshing@.len() && (#[trigger] self.chunks_meshing@[i]).0
                    == chunkpos;
            if i < idx {
                assert(self.chunks_meshing@[i].0 != self.chunks_meshing@[idx as int].0);
            } else if idx < i {
                assert(self.chunks_meshing@[idx as int].0 != self.chunks_meshing@[i].0);
            }
        }
        if self.chunks_meshing[idx].1 != job {
            return false;
        }
        proof {
            assert(old(self).spec_pending(chunkpos) == Some(job));
        }
        self.remove_pending_job(chunkpos);
        let ghost mid = *self;
        self.mark_chunk_remesh(chunkpos);
        proof {
            assert(self.wf_meshing()) by {
                assert forall|i: int| 0 <= i < self.chunks_meshing@.len() implies self
                    .spec_contains((#[trigger] self.chunks_meshing@[i]).0) by {
                    let q = self.chunks_meshing@[i].0;
                    assert(mid.chunks_meshing@[i].0 == q);
                    assert(mid.spec_has_pending(q));
                    assert(q != chunkpos);
                    assert(old(self).spec_has_pending(q));
                    let j = choose|j: int|
                        0 <= j < old(self).chunks_meshing@.len() && (#[trigger] old(self).chunks_meshing@[j]).0 == q;
                    assert(old(self).spec_contains(q));
                }
            }
            assert(!self.spec_has_pending(chunkpos)) by {
                if self.spec_has_pending(chunkpos) {
                    let j = choose|j: int|
                        0 <= j < self.chunks_meshing@.len() && (
                        #[trigger] self.chunks_meshing@[j]).0 == chunkpos;
                    assert(mid.chunks_meshing@[j].0 == chunkpos);
                    assert(mid.spec_has_pending(chunkpos));
                }
            }
            assert forall|p: IVec3| p != chunkpos implies #[trigger] self.spec_pending(p) == old(self).spec_pending(p) by {
                ChunkSystem::lemma_pending_same(*self, mid, p);
            }
            assert forall|i: int| 0 <= i < self.chunks@.len() implies #[trigger] self.links_ok_at(
                i,
            ) by {
                assert(old(self).links_ok_at(i));
                assert forall|e: int|
                    0 <= e < 6 implies (#[trigger] self.chunks@[i].neighbor_chunks@[e])
                    == self.spec_link_target(self.chunks@[i].chunkpos, e) by {
                    ChunkSystem::lemma_contains_same(
                        *self,
                        *old(self),
                        spec_neighbor_pos(self.chunks@[i].chunkpos, e),
                    );
                }
            }
        }
        true
    }

    /// Drop `p` from the dirty set (a no-op when it is not dirty).
    #[verifier::loop_isolation(false)]
    fn remove_remesh_mark(&mut self, p: IVec3)
        requires
            old(self).wf_remesh(),
        ensures
            final(self).wf_remesh(),
            forall|q: IVec3|
                final(self).spec_is_dirty(q) <==> (old(self).spec_is_dirty(q) && q != p),
            final(self).chunks == old(self).chunks,
            final(self).chunks_meshing == old(self).chunks_meshing,
            final(self).view_distance == old(self).view_distance,
            final(self).entity == old(self).entity,
            final(self).vox_mtl == old(self).vox_mtl,
            final(self).dbg_remesh_all_chunks == old(self).dbg_remesh_all_chunks,
    {
        let n = self.chunks_remesh.len();
        let mut i: usize = 0;
        while i < n
            invariant
                i <= n,
                *self == *old(self),
                n == self.chunks_remesh@.len(),
                forall|j: int| 0 <= j < i ==> (#[trigger] self.chunks_remesh@[j]) != p,
            decreases n - i,
        {
            if self.chunks_remesh[i] == p {
                self.chunks_remesh.remove(i);
                proof {
                    old(self).chunks_remesh@.remove_ensures(i as int);
                    assert forall|q: IVec3|
                        self.spec_is_dirty(q) <==> (old(self).spec_is_dirty(q) && q != p) by {
                        if self.spec_is_dirty(q) {
                            let j = choose|j: int|
                                0 <= j < self.chunks_remesh@.len() && self.chunks_remesh@[j] == q;
                            if j < i {
                                assert(old(self).chunks_remesh@[j] == q);
                            } else {
                                assert(old(self).chunks_remesh@[j + 1] == q);
                            }
                            assert(q != p);
                        }
                        if old(self).spec_is_dirty(q) && q != p {
                            let j = choose|j: int|
                                0 <= j < old(self).chunks_remesh@.len() && old(self).chunks_remesh@[j] == q;
                            if j < i {
                                assert(self.chunks_remesh@[j] == q);
                            } else {
                                assert(j != i);
                                assert(self.chunks_remesh@[j - 1] == q);
                            }
                        }
                    }
                }
                return ;
            }
            i = i + 1;
        }
        proof {
            assert forall|q: IVec3|
                self.spec_is_dirty(q) <==> (old(self).spec_is_dirty(q) && q != p) by {
                if self.spec_is_dirty(q) && q == p {
                    let j = choose|j: int|
                        0 <= j < self.chunks_remesh@.len() && self.chunks_remesh@[j] == q;
                }
            }
        }
    }

    /// Drop the in-flight record of `p` (a no-op when no job is pending).
    #[verifier::loop_isolation(false)]
    fn remove_pending_job(&mut self, p: IVec3)
        requires
            forall|i: int, j: int|
                0 <= i < j < old(self).chunks_meshing@.len() ==> (#[trigger] old(self).chunks_meshing@[i]).0 != (#[trigger] old(self).chunks_meshing@[j]).0,
        ensures
            forall|i: int, j: int|
                0 <= i < j < final(self).chunks_meshing@.len() ==> (#[trigger] final(self).chunks_meshing@[i]).0 != (#[trigger] final(self).chunks_meshing@[j]).0,
            !final(self).spec_has_pending(p),
            forall|q: IVec3|
                q != p ==> #[trigger] final(self).spec_has_pending(q) == old(self).spec_has_pending(q),
            forall|q: IVec3|
                q != p ==> #[trigger] final(self).spec_pending(q) == old(self).spec_pending(q),
            final(self).chunks == old(self).chunks,
            final(self).chunks_remesh == old(self).chunks_remesh,
            final(self).view_distance == old(self).view_distance,
            final(self).entity == old(self).entity,
            final(self).vox_mtl == old(self).vox_mtl,
            final(self).dbg_remesh_all_chunks == old(self).dbg_remesh_all_chunks,
    {
        let n = self.chunks_meshing.len();
        let mut i: usize = 0;
        while i < n
            invariant
                i <= n,
                *self == *old(self),
                n == self.chunks_meshing@.len(),
                forall|j: int| 0 <= j < i ==> (#[trigger] self.chunks_meshing@[j]).0 != p,
            decreases n - i,
        {
            if self.chunks_meshing[i].0 == p {
                self.chunks_meshing.remove(i);
                proof {
                    old(self).chunks_meshing@.remove_ensures(i as int);
                    assert(!self.spec_has_pending(p)) by {
                        if self.spec_has_pending(p) {
                            let j = choose|j: int|
                                0 <= j < self.chunks_meshing@.len() && (
                                #[trigger] self.chunks_meshing@[j]).0 == p;
                            if j < i {
                                assert(old(self).chunks_meshing@[j].0 == p);
                            } else {
                                assert(old(self).chunks_meshing@[j + 1].0 == p);
                                assert(old(self).chunks_meshing@[i as int].0 == p);
                            }
                        }
                    }
                    assert forall|q: IVec3| q != p implies #[trigger] self.spec_has_pending(q)
                        == old(self).spec_has_pending(q) && self.spec_pending(q) == old(self).spec_pending(q) by {
                        if old(self).spec_has_pending(q) {
                            let j = choose|j: int|
                                0 <= j < old(self).chunks_meshing@.len() && (#[trigger] old(self).chunks_meshing@[j]).0 == q;
                            if j < i {
                                assert(self.chunks_meshing@[j].0 == q);
                            } else {
                                assert(j != i);
                                assert(self.chunks_meshing@[j - 1].0 == q);
                            }
                            assert(self.spec_has_pending(q));
                            let ja = choose|j: int|
                                0 <= j < old(self).chunks_meshing@.len() && (#[trigger] old(self).chunks_meshing@[j]).0 == q;
                            let jb = choose|j: int|
                                0 <= j < self.chunks_meshing@.len() && (
                                #[trigger] self.chunks_meshing@[j]).0 == q;
                            let jb0 = if jb < i { jb } else { jb + 1 };
                            assert(old(self).chunks_meshing@[jb0].0 == q);
                            if ja < jb0 {
                                assert(old(self).chunks_meshing@[ja].0 != old(self).chunks_meshing@[jb0].0);
                            } else if jb0 < ja {
                                assert(old(self).chunks_meshing@[jb0].0 != old(self).chunks_meshing@[ja].0);
                            }
                            assert(self.chunks_meshing@[jb].1 == old(self).chunks_meshing@[ja].1);
                        }
                        if self.spec_has_pending(q) {
                            let j = choose|j: int|
                                0 <= j < self.chunks_meshing@.len() && (
                                #[trigger] self.chunks_meshing@[j]).0 == q;
                            if j < i {
                                assert(old(self).chunks_meshing@[j].0 == q);
                            } else {
                                assert(old(self).chunks_meshing@[j + 1].0 == q);
                            }
                            assert(old(self).spec_has_pending(q));
                        }
                    }
                }
                return ;
            }
            i = i + 1;
        }
        proof {
            assert(!self.spec_has_pending(p)) by {
                if self.spec_has_pending(p) {
                    let j = choose|j: int|
                        0 <= j < self.chunks_meshing@.len() && (
                        #[trigger] self.chunks_meshing@[j]).0 == p;
                }
            }
        }
    }

    /// Idempotent insert into the dirty set: afterwards `chunkpos` is dirty
    /// and every other coordinate keeps its dirty state. Nothing else of the
    /// store changes.
    #[verifier::loop_isolation(false)]
    pub fn mark_chunk_remesh(&mut self, chunkpos: IVec3)
        requires
            old(self).wf_remesh(),
            spec_is_chunkpos(chunkpos),
        ensures
            final(self).wf_remesh(),
            forall|p: IVec3|
                final(self).spec_is_dirty(p) <==> (old(self).spec_is_dirty(p) || p == chunkpos),
            final(self).chunks == old(self).chunks,
            final(self).chunks_meshing == old(self).chunks_meshing,
            final(self).view_distance == old(self).view_distance,
            final(self).entity == old(self).entity,
            final(self).vox_mtl == old(self).vox_mtl,
            final(self).dbg_remesh_all_chunks == old(self).dbg_remesh_all_chunks,
    {
        let n = self.chunks_remesh.len();
        let mut i: usize = 0;
        while i < n
            invariant
                i <= n,
                *self == *old(self),
                n == self.chunks_remesh@.len(),
                forall|j: int| 0 <= j < i ==> (#[trigger] self.chunks_remesh@[j]) != chunkpos,
            decreases n - i,
        {
            if self.chunks_remesh[i] == chunkpos {
                proof {
                    assert(self.chunks_remesh@.contains(chunkpos));
                }
                return ;
            }
            i = i + 1;
        }
        self.chunks_remesh.push(chunkpos);
        proof {
            assert forall|p: IVec3|
                self.spec_is_dirty(p) <==> (old(self).spec_is_dirty(p)
                    || p == chunkpos) by {
                assert(self.chunks_remesh@[old(self).chunks_remesh@.len() as int] == chunkpos);
                if old(self).spec_is_dirty(p) {
                    let j = choose|j: int|
                        0 <= j < old(self).chunks_remesh@.len() && old(self).chunks_remesh@[j]
                            == p;
                    assert(self.chunks_remesh@[j] == p);
                }
                if self.spec_is_dirty(p) {
                    let j = choose|j: int|
                        0 <= j < self.chunks_remesh@.len() && self.chunks_remesh@[j] == p;
                    if j < old(self).chunks_remesh@.len() {
                        assert(old(self).chunks_remesh@[j] == p);
                    }
                }
            }
        }
    }
}

/// An empty store with a view radius of one chunk in each direction.
impl Default for ChunkSystem {
    fn default() -> (r: ChunkSystem)
        ensures
            r.wf(),
            r.chunks@.len() == 0,
            r.chunks_remesh@.len() == 0,
            r.chunks_meshing@.len() == 0,
            r.view_distance == (1i32, 1i32),
            r.entity == 0,
            r.vox_mtl == 0,
            !r.dbg_remesh_all_chunks,
    {
        ChunkSystem::new(1)
    }
}

/// Uniqueness: however the store was driven, it never holds two chunks with
/// the same coordinate — entries of the chunk table at the same coordinate
/// are the same entry.
pub proof fn lemma_chunk_uniqueness(s: ChunkSystem, i: int, j: int)
    requires
        s.wf(),
        0 <= i < s.chunks@.len(),
        0 <= j < s.chunks@.len(),
        s.chunks@[i].chunkpos == s.chunks@[j].chunkpos,
    ensures
        i == j,
{
    if i < j {
        assert(s.chunks@[i].chunkpos != s.chunks@[j].chunkpos);
    } else if j < i {
        assert(s.chunks@[j].chunkpos != s.chunks@[i].chunkpos);
    }
}

/// Link symmetry: in a well-formed store a chunk's link across face `d` is
/// present exactly when the adjacent chunk is loaded, and then the adjacent
/// chunk's link across the opposite face points back at it.
pub proof fn lemma_link_symmetry(s: ChunkSystem, p: IVec3, d: int)
    requires
        s.wf(),
        s.spec_contains(p),
        0 <= d < 6,
    ensures
        s.spec_chunk_at(p).neighbor_chunks@[d] == (if s.spec_contains(spec_neighbor_pos(p, d)) {
            Some(spec_neighbor_pos(p, d))
        } else {
            None::<IVec3>
        }),
        s.spec_contains(spec_neighbor_pos(p, d)) ==> s.spec_chunk_at(
            spec_neighbor_pos(p, d),
        ).neighbor_chunks@[spec_opposite(d)] == Some(p),
{
    let i = choose|i: int| 0 <= i < s.chunks@.len() && (#[trigger] s.chunks@[i]).chunkpos == p;
    s.lemma_index_of(i);
    assert(s.links_ok_at(i));
    let q = spec_neighbor_pos(p, d);
    if s.spec_contains(q) {
        let j = choose|j: int| 0 <= j < s.chunks@.len() && (#[trigger] s.chunks@[j]).chunkpos == q;
        s.lemma_index_of(j);
        assert(s.links_ok_at(j));
        assert(s.chunks@[i].wf());
        lemma_neighbor_opposite(p, d);
        assert(spec_neighbor_pos(q, spec_opposite(d)) == p);
        assert(0 <= spec_opposite(d) < 6);
        assert(s.spec_chunk_at(q).neighbor_chunks@[spec_opposite(d)] == s.spec_link_target(
            q,
            spec_opposite(d),
        ));
    }
}

/// A single job in flight per coordinate: records of the in-flight table at
/// the same coordinate are the same record, so no coordinate ever carries
/// two concurrently active regeneration jobs.
pub proof fn lemma_single_inflight_job(s: ChunkSystem, i: int, j: int)
    requires
        s.wf(),
        0 <= i < s.chunks_meshing@.len(),
        0 <= j < s.chunks_meshing@.len(),
        s.chunks_meshing@[i].0 == s.chunks_meshing@[j].0,
    ensures
        i == j,
        s.spec_pending(s.chunks_meshing@[i].0) == Some(s.chunks_meshing@[i].1),
{
    if i < j {
        assert(s.chunks_meshing@[i].0 != s.chunks_meshing@[j].0);
    } else if j < i {
        assert(s.chunks_meshing@[j].0 != s.chunks_meshing@[i].0);
    }
    let p = s.chunks_meshing@[i].0;
    assert(s.spec_has_pending(p));
    let ia = choose|a: int|
        0 <= a < s.chunks_meshing@.len() && (#[trigger] s.chunks_meshing@[a]).0 == p;
    if ia < i {
        assert(s.chunks_meshing@[ia].0 != s.chunks_meshing@[i].0);
    } else if i < ia {
        assert(s.chunks_meshing@[i].0 != s.chunks_meshing@[ia].0);
    }
}

} // verus!
