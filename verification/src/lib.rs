//! An approximate nearest-neighbor vector search engine built around a
//! hierarchical navigable small world (HNSW) graph, with a quantized coarse
//! search stage, an exact rerank stage, and a self-describing binary index
//! format protected by a CRC32 checksum.
//!
//! Vector components are exact fixed-point integers throughout: a raw
//! component is an `i64` in units of `2^-16`, and a normalized component is
//! an `i32` in units of `2^-30`. All distances are computed exactly.

use vstd::prelude::*;

pub mod diagnostics;
pub mod distance;
pub mod format;
pub mod hardware;
pub mod hnsw;
pub mod math;
pub mod mmap;
pub mod quant;
pub mod runtime;

verus! {

/// Scale of a raw vector component: one unit is `2^-16`.
pub const RAW_SCALE: i64 = 65536;

/// Largest magnitude allowed for a raw vector component (`2^40` units,
/// about sixteen million after scaling). Keeps every squared distance
/// within `u128`.
pub const RAW_COMP_MAX: i64 = 0x100_0000_0000;

/// Scale of a normalized vector component: one unit is `2^-30`.
pub const UNIT_SCALE: i64 = 1073741824;

} // verus!
