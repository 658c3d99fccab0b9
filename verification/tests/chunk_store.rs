//! The chunk store: lifecycle, neighbor links, dirty marks and remesh jobs.

use voxsync::chunk::Chunk;
use voxsync::chunk_system::ChunkSystem;
use voxsync::coords::{is_chunkpos, neighbor_pos, opposite, IVec3, SIZE, VOLUME};

fn v(x: i32, y: i32, z: i32) -> IVec3 {
    IVec3::new(x, y, z)
}

#[test]
fn chunkpos_validity() {
    assert!(is_chunkpos(v(0, 0, 0)));
    assert!(is_chunkpos(v(32, -64, 96)));
    assert!(!is_chunkpos(v(1, 0, 0)));
    assert!(!is_chunkpos(v(0, -31, 0)));
    assert_eq!(SIZE, 32);
}

#[test]
fn face_directions_pair_up() {
    for d in 0..6usize {
        let p = v(0, 0, 0);
        let n = neighbor_pos(p, d);
        assert_ne!(n, p);
        assert_eq!(neighbor_pos(n, opposite(d)), p);
    }
}

#[test]
fn voxel_addressing() {
    let mut c = Chunk::new(v(0, 0, 0));
    assert_eq!(c.voxels.len(), VOLUME);
    assert_eq!(c.get_voxel(0, 0, 0), 0);
    c.set_voxel(1, 2, 3, 77);
    assert_eq!(c.get_voxel(1, 2, 3), 77);
    assert_eq!(c.get_voxel(3, 2, 1), 0);
}

#[test]
fn insert_lookup_remove() {
    let mut sys = ChunkSystem::new(2);
    assert_eq!(sys.num_chunks(), 0);
    assert!(!sys.has_chunk(v(0, 0, 0)));
    sys.spawn_chunk(Chunk::new(v(0, 0, 0)));
    assert_eq!(sys.num_chunks(), 1);
    assert!(sys.has_chunk(v(0, 0, 0)));
    assert!(sys.get_chunk(v(0, 0, 0)).is_some());
    assert!(sys.get_chunk(v(32, 0, 0)).is_none());
    let removed = sys.despawn_chunk(v(0, 0, 0));
    assert!(removed.is_some());
    assert_eq!(removed.unwrap().chunkpos, v(0, 0, 0));
    assert_eq!(sys.num_chunks(), 0);
    assert!(sys.despawn_chunk(v(0, 0, 0)).is_none());
}

/// Inserting at the origin and then one chunk along +X links the pair both
/// ways, and each insert dirties the other's coordinate.
#[test]
fn adjacent_inserts_link_both_ways() {
    let mut sys = ChunkSystem::new(2);
    let a = v(0, 0, 0);
    let b = v(32, 0, 0);
    sys.spawn_chunk(Chunk::new(a));
    // the +X neighbor of the origin is already marked dirty
    assert!(sys.chunks_remesh.contains(&b));
    sys.spawn_chunk(Chunk::new(b));
    assert!(sys.chunks_remesh.contains(&a));
    // face order: -X, +X, -Y, +Y, -Z, +Z
    let ca = sys.get_chunk(a).unwrap();
    assert_eq!(ca.neighbor_chunks[1], Some(b));
    assert_eq!(ca.neighbor_chunks[0], None);
    let cb = sys.get_chunk(b).unwrap();
    assert_eq!(cb.neighbor_chunks[0], Some(a));
    assert_eq!(cb.neighbor_chunks[1], None);
}

#[test]
fn insert_marks_all_six_neighbors_dirty() {
    let mut sys = ChunkSystem::new(2);
    let p = v(0, 64, -32);
    sys.spawn_chunk(Chunk::new(p));
    for d in 0..6usize {
        assert!(sys.chunks_remesh.contains(&neighbor_pos(p, d)));
    }
    assert!(!sys.chunks_remesh.contains(&p));
}

#[test]
fn removal_clears_links_marks_and_jobs() {
    let mut sys = ChunkSystem::new(2);
    let a = v(0, 0, 0);
    let b = v(32, 0, 0);
    sys.spawn_chunk(Chunk::new(a));
    sys.spawn_chunk(Chunk::new(b));
    // put a job in flight for b, then unload b
    sys.mark_chunk_remesh(b);
    sys.begin_remesh_job(b, 11);
    assert!(sys.has_pending_job(b));
    let removed = sys.despawn_chunk(b);
    assert!(removed.is_some());
    // active invalidation: a's +X link is gone
    assert_eq!(sys.get_chunk(a).unwrap().neighbor_chunks[1], None);
    // b's own dirty mark and pending job are gone, its neighbors are dirty
    assert!(!sys.chunks_remesh.contains(&b));
    assert!(!sys.has_pending_job(b));
    assert!(sys.chunks_remesh.contains(&a));
}

#[test]
fn duplicate_dirty_marks_collapse() {
    let mut sys = ChunkSystem::new(2);
    let p = v(0, 0, 0);
    sys.mark_chunk_remesh(p);
    sys.mark_chunk_remesh(p);
    sys.mark_chunk_remesh(p);
    assert_eq!(sys.chunks_remesh.len(), 1);
}

#[test]
fn scheduler_runs_one_job_per_coordinate() {
    let mut sys = ChunkSystem::new(2);
    let p = v(0, 0, 0);
    sys.spawn_chunk(Chunk::new(p));
    sys.mark_chunk_remesh(p);
    let target = sys.next_remesh_target();
    assert_eq!(target, Some(p));
    sys.begin_remesh_job(p, 1);
    assert!(sys.has_pending_job(p));
    assert!(!sys.chunks_remesh.contains(&p));
    // while the job is in flight the coordinate is no longer offered
    assert_eq!(sys.next_remesh_target(), None);
    // completion applies the surface handle and retires the record
    assert!(sys.complete_remesh_job(p, 1, 900));
    assert!(!sys.has_pending_job(p));
    assert_eq!(sys.get_chunk(p).unwrap().mesh_handle, 900);
}

/// A dirty mark arriving while the job is in flight survives it, so the
/// coordinate is offered again once the job retires.
#[test]
fn remark_during_flight_is_kept() {
    let mut sys = ChunkSystem::new(2);
    let p = v(0, 0, 0);
    sys.spawn_chunk(Chunk::new(p));
    sys.mark_chunk_remesh(p);
    sys.begin_remesh_job(p, 1);
    sys.mark_chunk_remesh(p);
    assert_eq!(sys.next_remesh_target(), None);
    assert!(sys.complete_remesh_job(p, 1, 5));
    assert_eq!(sys.next_remesh_target(), Some(p));
}

/// Unloading a chunk while its job is in flight: the late result is
/// discarded and the store stays as it was.
#[test]
fn stale_job_result_is_discarded() {
    let mut sys = ChunkSystem::new(2);
    let p = v(0, 0, 0);
    sys.spawn_chunk(Chunk::new(p));
    sys.mark_chunk_remesh(p);
    sys.begin_remesh_job(p, 1);
    sys.despawn_chunk(p);
    let before = sys.num_chunks();
    assert!(!sys.complete_remesh_job(p, 1, 900));
    assert_eq!(sys.num_chunks(), before);
    assert!(!sys.has_chunk(p));
    assert!(!sys.has_pending_job(p));
}

/// A result from a superseded job (wrong handle) is also discarded.
#[test]
fn mismatched_job_handle_is_discarded() {
    let mut sys = ChunkSystem::new(2);
    let p = v(0, 0, 0);
    sys.spawn_chunk(Chunk::new(p));
    sys.mark_chunk_remesh(p);
    sys.begin_remesh_job(p, 1);
    assert!(!sys.complete_remesh_job(p, 2, 900));
    assert!(sys.has_pending_job(p));
    assert_eq!(sys.get_chunk(p).unwrap().mesh_handle, 0);
}

#[test]
fn payload_survives_insert() {
    let mut sys = ChunkSystem::new(2);
    let mut cells = vec![0u32; VOLUME];
    cells[0] = 7;
    cells[VOLUME - 1] = 9;
    sys.spawn_chunk(Chunk::from_cells(v(0, 0, 0), cells));
    let c = sys.get_chunk(v(0, 0, 0)).unwrap();
    assert_eq!(c.voxels[0], 7);
    assert_eq!(c.voxels[VOLUME - 1], 9);
}

#[test]
fn default_store_is_empty() {
    let sys = ChunkSystem::default();
    assert_eq!(sys.num_chunks(), 0);
    assert_eq!(sys.view_distance, (1, 1));
    assert_eq!((sys.entity, sys.vox_mtl), (0, 0));
    assert!(!sys.dbg_remesh_all_chunks);
    let sys = ChunkSystem::new(3);
    assert_eq!(sys.view_distance, (3, 3));
    assert_eq!((sys.entity, sys.vox_mtl), (0, 0));
    assert!(!sys.dbg_remesh_all_chunks);
}

/// A failed job retires its record and leaves the coordinate dirty for the
/// next scheduling pass.
#[test]
fn failed_job_is_retried() {
    let mut sys = ChunkSystem::new(2);
    let p = v(0, 0, 0);
    sys.spawn_chunk(Chunk::new(p));
    sys.mark_chunk_remesh(p);
    sys.begin_remesh_job(p, 1);
    assert!(sys.fail_remesh_job(p, 1));
    assert!(!sys.has_pending_job(p));
    assert_eq!(sys.next_remesh_target(), Some(p));
    // a stale failure report changes nothing
    assert!(!sys.fail_remesh_job(p, 1));
    // the untouched chunk kept its empty surface handle
    assert_eq!(sys.get_chunk(p).unwrap().mesh_handle, 0);
}

/// However the store is driven, it holds at most one chunk per coordinate
/// and at most one in-flight job per coordinate.
#[test]
fn no_duplicate_coordinates_or_jobs() {
    let mut sys = ChunkSystem::new(2);
    let coords = [v(0, 0, 0), v(32, 0, 0), v(0, 32, 0), v(0, 0, 32)];
    for c in coords {
        sys.spawn_chunk(Chunk::new(c));
    }
    sys.despawn_chunk(v(32, 0, 0));
    sys.spawn_chunk(Chunk::new(v(32, 0, 0)));
    for c in [v(0, 0, 0), v(32, 0, 0)] {
        sys.mark_chunk_remesh(c);
    }
    sys.begin_remesh_job(v(0, 0, 0), 1);
    sys.begin_remesh_job(v(32, 0, 0), 2);
    for i in 0..sys.chunks.len() {
        for j in (i + 1)..sys.chunks.len() {
            assert_ne!(sys.chunks[i].chunkpos, sys.chunks[j].chunkpos);
        }
    }
    for i in 0..sys.chunks_meshing.len() {
        for j in (i + 1)..sys.chunks_meshing.len() {
            assert_ne!(sys.chunks_meshing[i].0, sys.chunks_meshing[j].0);
        }
    }
}
