//! Terrain dump decoding, page-addressed elevation maps, and per-texture
//! mesh generation.
//!
//! The library parses a line-oriented terrain dump format into typed
//! patch records, merges the patches into a sparse collection of dense
//! 128 x 128 pages, and walks the assembled grid to emit welded,
//! per-texture triangle meshes.

pub mod lex;
pub mod entry;
pub mod map;
pub mod dump;
pub mod mesh;

pub use dump::{ElevDump, ElevDumpError};
pub use entry::{ElevEntry, ElevEntryError};
pub use map::{ElevCell, ElevMap, ElevPage, Rotation};
