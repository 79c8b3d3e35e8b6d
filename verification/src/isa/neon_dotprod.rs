//! Kernels written for 128-bit registers with the integer dot product: four steps
//! of a column at once.
use crate::isa::grouped::{grouped_tile};
use crate::isa::kernel::{tile_is, Factorization, KernelSpec};
use crate::sequence::{Backend, Host};
use vstd::prelude::*;

verus! {

/// Rows of the tile.
pub const MR: usize = 8;

/// Columns of the tile.
pub const NR: usize = 12;

/// Steps that one instruction consumes.
pub const K_GROUP: usize = 4;

/// The declaration of the kernel.
pub fn spec() -> (r: KernelSpec)
    ensures
        r == (KernelSpec {
                backend: Backend::NeonDotprod,
                factorization: Factorization::Exact,
                mr: MR,
                nr: NR,
                k_group: K_GROUP,
                lane_cap: 0x7fff_ffff,
                max_bound: u128::MAX,
            }),
{
    KernelSpec {
        backend: Backend::NeonDotprod,
        factorization: Factorization::Exact,
        mr: MR,
        nr: NR,
        k_group: K_GROUP,
        lane_cap: 0x7fff_ffff,
        max_bound: u128::MAX,
    }
}

/// Whether the host has it.
pub fn is_available(host: &Host) -> (r: bool)
    ensures
        r == (host.dotprod),
{
    host.dotprod
}

/// A tile of 8 rows and 12 columns.
pub fn mac_tile(kc: usize, pa: &[i8], pb: &[i8], acc: &mut [i32])
    requires
        MR * kc <= pa@.len(),
        NR * kc <= pb@.len(),
        old(acc)@.len() == MR * NR,
    ensures
        final(acc)@.len() == MR * NR,
        tile_is(final(acc)@, pa@, pb@, MR as int, NR as int, kc as int),
{
    dotprod(kc, pa, pb, acc)
}

/// A tile by fours of steps, and then the steps that are left.
pub fn dotprod(kc: usize, pa: &[i8], pb: &[i8], acc: &mut [i32])
    requires
        MR * kc <= pa@.len(),
        NR * kc <= pb@.len(),
        old(acc)@.len() == MR * NR,
    ensures
        final(acc)@.len() == MR * NR,
        tile_is(final(acc)@, pa@, pb@, MR as int, NR as int, kc as int),
{
    grouped_tile(MR, NR, K_GROUP, kc, pa, pb, acc)
}

} // verus!
