//! Procedural world core: chunked terrain streaming and meshing, a spatial hash
//! over placed objects, and a generation-indexed object store with
//! overlap-aware placement, all over exact fixed-point coordinates.

pub mod bounds;
pub mod catalog;
pub mod chunks;
pub mod collision;
pub mod coords;
pub mod handle;
pub mod heightfield;
pub mod interaction;
pub mod mesh;
pub mod objects;
pub mod raycast;
pub mod raycast_laws;
pub mod registry;
pub mod seqs;
pub mod spatial;
pub mod stream_laws;
pub mod terrain;
pub mod tile_objects;
pub mod tiles;
pub mod units;
