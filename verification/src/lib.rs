//! Aurora: an offline renderer built around a uniform-grid ray acceleration
//! structure and a tile-based parallel rendering scheduler.
//!
//! This crate holds the verified core: frame partitioning into tiles, grid
//! cell indexing and enumeration, grid traversal stepping, ray-id
//! de-duplication, pixel assembly, and the scene-asset parsers. The
//! floating-point geometry kernels (plane clipping, slab tests, shading) and
//! all I/O live with the unverified front end that drives this library.

pub mod cli;
pub mod grid;
pub mod mesh;
pub mod obj;
pub mod parse;
pub mod pointer;
pub mod ray;
pub mod render;

use vstd::prelude::*;

verus! {

/// Edge length, in pixels, of a full square tile of the frame partition.
pub const BLOCK_SIZE: u32 = 8;

} // verus!
