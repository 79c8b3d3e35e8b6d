//! The cache and tile extents that the selection rules read.
use vstd::prelude::*;

verus! {

/// Bytes of the first-level data cache that one slab may be weighed against.
pub const L1_BYTES: usize = 32768;

/// Bytes of the second-level cache that a stack of slabs may be weighed against.
pub const L2_BYTES: usize = 262144;

/// Rows of one cache block of activations.
pub const MC: usize = 64;

/// Reduction depth of one page of decoded weights.
pub const KC: usize = 256;

/// Rows that one dense micro-kernel tile covers.
pub const KERNEL_ROWS: usize = 4;

/// Products that the dense micro-kernel issues per step.
pub const KERNEL_PRODUCTS_PER_STEP: usize = 16;

/// Codes at the head of a column that its hash reads.
pub const COLUMN_HASH_PREFIX: usize = 16;

} // verus!
