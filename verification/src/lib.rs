//! Core state engine of a chunked voxel world.
//!
//! The library keeps the loaded portion of a 3D voxel world as fixed-size
//! cubic chunks, maintains the neighbor-link graph between loaded chunks,
//! tracks which chunks need their surface regenerated and which regeneration
//! jobs are in flight, and defines the wire protocol that keeps a remote
//! peer's copy of the world (chunks and entities) in sync.
//!
//! Rendering, physics, terrain generation and the network transport are
//! external collaborators: the library stores the opaque handles they hand
//! back and decides what to do, while the surrounding application performs
//! the actual I/O.

pub mod chunk;
pub mod chunk_system;
pub mod client_handler;
pub mod codec;
pub mod coords;
pub mod packet;
pub mod server_handler;
