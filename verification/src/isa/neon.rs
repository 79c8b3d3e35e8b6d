//! Kernels written for 128-bit registers: eight products at once, each widened
//! before it is added.
use crate::isa::kernel::{reference_tile, tile_is, Factorization, KernelSpec};
use crate::sequence::Backend;
use vstd::prelude::*;

verus! {

/// Rows of the tile.
pub const MR: usize = 4;

/// Columns of the tile.
pub const NR: usize = 8;

/// Steps that one instruction consumes.
pub const K_GROUP: usize = 8;

/// The declaration of the kernel.
pub fn spec() -> (r: KernelSpec)
    ensures
        r == (KernelSpec {
                backend: Backend::Neon,
                factorization: Factorization::Exact,
                mr: MR,
                nr: NR,
                k_group: K_GROUP,
                lane_cap: 0x7fff_ffff,
                max_bound: u128::MAX,
            }),
{
    KernelSpec {
        backend: Backend::Neon,
        factorization: Factorization::Exact,
        mr: MR,
        nr: NR,
        k_group: K_GROUP,
        lane_cap: 0x7fff_ffff,
        max_bound: u128::MAX,
    }
}

/// Whether the host has it: the registers belong to every host of the family.
pub fn is_available() -> (r: bool)
    ensures
        r,
{
    true
}

/// A tile of 4 rows and 8 columns.
pub fn mac_tile(kc: usize, pa: &[i8], pb: &[i8], acc: &mut [i32])
    requires
        MR * kc <= pa@.len(),
        NR * kc <= pb@.len(),
        old(acc)@.len() == MR * NR,
    ensures
        final(acc)@.len() == MR * NR,
        tile_is(final(acc)@, pa@, pb@, MR as int, NR as int, kc as int),
{
    neon(kc, pa, pb, acc)
}

/// A tile step by step, every product widened to 32 bits before it is added.
pub fn neon(kc: usize, pa: &[i8], pb: &[i8], acc: &mut [i32])
    requires
        MR * kc <= pa@.len(),
        NR * kc <= pb@.len(),
        old(acc)@.len() == MR * NR,
    ensures
        final(acc)@.len() == MR * NR,
        tile_is(final(acc)@, pa@, pb@, MR as int, NR as int, kc as int),
{
    reference_tile(MR, NR, kc, pa, pb, acc)
}

} // verus!
