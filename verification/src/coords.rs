//! Chunk coordinates: integer 3-vectors aligned to the chunk edge length.

use vstd::prelude::*;

verus! {

/// Edge length, in voxels, of one cubic chunk.
pub const SIZE: i32 = 32;

/// Number of voxel cells in one chunk (`SIZE` cubed).
pub const VOLUME: usize = 32768;

/// An integer 3-vector. Used both for chunk coordinates (every component a
/// multiple of [`SIZE`]) and for quantized entity positions on the wire.
#[derive(Clone, Copy, Debug, PartialEq, Eq, Structural)]
pub struct IVec3 {
    pub x: i32,
    pub y: i32,
    pub z: i32,
}

impl IVec3 {
    pub fn new(x: i32, y: i32, z: i32) -> (r: IVec3)
        ensures
            r == (IVec3 { x, y, z }),
    {
        IVec3 { x, y, z }
    }
}

/// A valid chunk coordinate: every component is a multiple of the chunk edge
/// length. This is the identity key of a chunk.
pub open spec fn spec_is_chunkpos(p: IVec3) -> bool {
    &&& p.x as int % 32 == 0
    &&& p.y as int % 32 == 0
    &&& p.z as int % 32 == 0
}

/// Components far enough from the `i32` range ends that the six face-neighbor
/// coordinates can be computed without overflow (a machine limit, not a rule
/// of the world model).
pub open spec fn spec_in_bounds(p: IVec3) -> bool {
    &&& i32::MIN + 32 <= p.x <= i32::MAX - 32
    &&& i32::MIN + 32 <= p.y <= i32::MAX - 32
    &&& i32::MIN + 32 <= p.z <= i32::MAX - 32
}

fn rem32_is_zero(v: i32) -> (r: bool)
    ensures
        r == (v as int % 32 == 0),
{
    match v.checked_rem_euclid(32) {
        Some(m) => m == 0,
        None => false,
    }
}

/// Whether `p` is a valid chunk coordinate (every component a multiple of
/// [`SIZE`]).
pub fn is_chunkpos(p: IVec3) -> (r: bool)
    ensures
        r == spec_is_chunkpos(p),
{
    rem32_is_zero(p.x) && rem32_is_zero(p.y) && rem32_is_zero(p.z)
}

/// Whether the six face neighbors of `p` can be computed without `i32`
/// overflow.
pub fn in_bounds(p: IVec3) -> (r: bool)
    ensures
        r == spec_in_bounds(p),
{
    let lo: i32 = i32::MIN + 32;
    let hi: i32 = i32::MAX - 32;
    lo <= p.x && p.x <= hi && lo <= p.y && p.y <= hi && lo <= p.z && p.z <= hi
}

/// The number of face directions of a cubic chunk.
pub const NUM_FACES: usize = 6;

/// The unit direction of face `d`: the axes in the order -X, +X, -Y, +Y, -Z,
/// +Z.
pub open spec fn spec_face_dir(d: int) -> IVec3 {
    if d == 0 {
        IVec3 { x: -1i32, y: 0, z: 0 }
    } else if d == 1 {
        IVec3 { x: 1, y: 0, z: 0 }
    } else if d == 2 {
        IVec3 { x: 0, y: -1i32, z: 0 }
    } else if d == 3 {
        IVec3 { x: 0, y: 1, z: 0 }
    } else if d == 4 {
        IVec3 { x: 0, y: 0, z: -1i32 }
    } else {
        IVec3 { x: 0, y: 0, z: 1 }
    }
}

/// The face opposite to `d`: faces pair up as (0,1), (2,3), (4,5).
pub open spec fn spec_opposite(d: int) -> int {
    if d % 2 == 0 {
        d + 1
    } else {
        d - 1
    }
}

pub fn opposite(d: usize) -> (r: usize)
    requires
        d < 6,
    ensures
        r == spec_opposite(d as int),
        r < 6,
{
    if d % 2 == 0 {
        d + 1
    } else {
        d - 1
    }
}

/// The chunk coordinate adjacent to `p` across face `d`.
pub open spec fn spec_neighbor_pos(p: IVec3, d: int) -> IVec3 {
    let dir = spec_face_dir(d);
    IVec3 {
        x: (p.x + 32 * dir.x) as i32,
        y: (p.y + 32 * dir.y) as i32,
        z: (p.z + 32 * dir.z) as i32,
    }
}

pub fn neighbor_pos(p: IVec3, d: usize) -> (r: IVec3)
    requires
        d < 6,
        spec_in_bounds(p),
    ensures
        r == spec_neighbor_pos(p, d as int),
{
    if d == 0 {
        IVec3 { x: p.x - 32, y: p.y, z: p.z }
    } else if d == 1 {
        IVec3 { x: p.x + 32, y: p.y, z: p.z }
    } else if d == 2 {
        IVec3 { x: p.x, y: p.y - 32, z: p.z }
    } else if d == 3 {
        IVec3 { x: p.x, y: p.y + 32, z: p.z }
    } else if d == 4 {
        IVec3 { x: p.x, y: p.y, z: p.z - 32 }
    } else {
        IVec3 { x: p.x, y: p.y, z: p.z + 32 }
    }
}

/// Crossing a face and then its opposite face leads back to the start.
pub proof fn lemma_neighbor_opposite(p: IVec3, d: int)
    requires
        0 <= d < 6,
        spec_in_bounds(p),
    ensures
        spec_neighbor_pos(spec_neighbor_pos(p, d), spec_opposite(d)) == p,
{
}

/// A face neighbor of a valid chunk coordinate is itself a valid chunk
/// coordinate.
pub proof fn lemma_neighbor_chunkpos(p: IVec3, d: int)
    requires
        0 <= d < 6,
        spec_is_chunkpos(p),
        spec_in_bounds(p),
    ensures
        spec_is_chunkpos(spec_neighbor_pos(p, d)),
{
    vstd::arithmetic::div_mod::lemma_mod_multiples_vanish(1, p.x as int, 32);
    vstd::arithmetic::div_mod::lemma_mod_multiples_vanish(-1, p.x as int, 32);
    vstd::arithmetic::div_mod::lemma_mod_multiples_vanish(1, p.y as int, 32);
    vstd::arithmetic::div_mod::lemma_mod_multiples_vanish(-1, p.y as int, 32);
    vstd::arithmetic::div_mod::lemma_mod_multiples_vanish(1, p.z as int, 32);
    vstd::arithmetic::div_mod::lemma_mod_multiples_vanish(-1, p.z as int, 32);
}

/// Distinct faces lead to distinct neighbor coordinates, and never back to
/// the chunk itself.
pub proof fn lemma_neighbors_distinct(p: IVec3, d1: int, d2: int)
    requires
        0 <= d1 < 6,
        0 <= d2 < 6,
        d1 != d2,
        spec_in_bounds(p),
    ensures
        spec_neighbor_pos(p, d1) != spec_neighbor_pos(p, d2),
        spec_neighbor_pos(p, d1) != p,
{
}

} // verus!
