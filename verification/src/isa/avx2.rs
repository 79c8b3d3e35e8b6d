//! Kernels written for 256-bit registers: pairs of steps are multiplied and added
//! at once.
use crate::isa::grouped::{grouped_tile};
use crate::isa::kernel::{tile_is, Factorization, KernelSpec};
use crate::sequence::{Backend, Host};
use vstd::prelude::*;

verus! {

/// Rows of the tile.
pub const MR: usize = 6;

/// Columns of the tile.
pub const NR: usize = 16;

/// Steps that one instruction consumes.
pub const K_GROUP: usize = 2;

/// The declaration of the kernel.
pub fn spec() -> (r: KernelSpec)
    ensures
        r == (KernelSpec {
                backend: Backend::Avx2,
                factorization: Factorization::Exact,
                mr: MR,
                nr: NR,
                k_group: K_GROUP,
                lane_cap: 0x7fff_ffff,
                max_bound: u128::MAX,
            }),
{
    KernelSpec {
        backend: Backend::Avx2,
        factorization: Factorization::Exact,
        mr: MR,
        nr: NR,
        k_group: K_GROUP,
        lane_cap: 0x7fff_ffff,
        max_bound: u128::MAX,
    }
}

/// Whether the host has it.
pub fn is_available(host: &Host) -> (r: bool)
    ensures
        r == (host.avx2),
{
    host.avx2
}

/// A tile of 6 rows and 16 columns.
pub fn mac_tile(kc: usize, pa: &[i8], pb: &[i8], acc: &mut [i32])
    requires
        MR * kc <= pa@.len(),
        NR * kc <= pb@.len(),
        old(acc)@.len() == MR * NR,
    ensures
        final(acc)@.len() == MR * NR,
        tile_is(final(acc)@, pa@, pb@, MR as int, NR as int, kc as int),
{
    mac_tile_avx2(kc, pa, pb, acc)
}

/// A tile by pairs of steps, widened to 16 bits and interleaved by column, and an
/// odd last step by itself.
pub fn mac_tile_avx2(kc: usize, pa: &[i8], pb: &[i8], acc: &mut [i32])
    requires
        MR * kc <= pa@.len(),
        NR * kc <= pb@.len(),
        old(acc)@.len() == MR * NR,
    ensures
        final(acc)@.len() == MR * NR,
        tile_is(final(acc)@, pa@, pb@, MR as int, NR as int, kc as int),
{
    grouped_tile(MR, NR, K_GROUP, kc, pa, pb, acc)
}

} // verus!
