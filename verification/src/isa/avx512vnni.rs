//! Kernels written for 512-bit registers with the integer dot product: signed words
//! by pairs of steps, or biased bytes by fours with the bias taken out at the end.
use crate::isa::grouped::{biased_tile, grouped_tile};
use crate::isa::kernel::{tile_is, Factorization, KernelSpec};
use crate::sequence::{Backend, Host};
use vstd::prelude::*;

verus! {

/// Rows of the tile.
pub const MR: usize = 8;

/// Columns of the tile.
pub const NR: usize = 16;

/// Steps that one instruction consumes.
pub const K_GROUP: usize = 2;

/// Steps that one instruction of bytes consumes.
pub const BYTE_GROUP: usize = 4;

/// The largest magnitude that a lane of biased bytes takes.
pub const BYTE_LANE_CAP: u128 = 0x7fff_ffff / 255 * 128;

/// The declaration of the sequence of signed words.
pub fn spec_dpwssd() -> (r: KernelSpec)
    ensures
        r == (KernelSpec {
                backend: Backend::Avx512Vnni,
                factorization: Factorization::Exact,
                mr: MR,
                nr: NR,
                k_group: K_GROUP,
                lane_cap: 0x7fff_ffff,
                max_bound: u128::MAX,
            }),
{
    KernelSpec {
        backend: Backend::Avx512Vnni,
        factorization: Factorization::Exact,
        mr: MR,
        nr: NR,
        k_group: K_GROUP,
        lane_cap: 0x7fff_ffff,
        max_bound: u128::MAX,
    }
}

/// The declaration of the sequence of biased bytes: a biased product reaches
/// `255 * 128`, so its lanes fill sooner.
pub fn spec_dpbusd() -> (r: KernelSpec)
    ensures
        r == (KernelSpec {
                backend: Backend::Avx512Vnni,
                factorization: Factorization::Exact,
                mr: MR,
                nr: NR,
                k_group: BYTE_GROUP,
                lane_cap: BYTE_LANE_CAP,
                max_bound: u128::MAX,
            }),
{
    KernelSpec {
        backend: Backend::Avx512Vnni,
        factorization: Factorization::Exact,
        mr: MR,
        nr: NR,
        k_group: BYTE_GROUP,
        lane_cap: BYTE_LANE_CAP,
        max_bound: u128::MAX,
    }
}

/// Whether the host has it.
pub fn is_available(host: &Host) -> (r: bool)
    ensures
        r == (host.avx512f && host.avx512bw && host.avx512vnni),
{
    host.avx512f && host.avx512bw && host.avx512vnni
}

/// A tile by signed words.
pub fn mac_tile_dpwssd(kc: usize, pa: &[i8], pb: &[i8], acc: &mut [i32])
    requires
        MR * kc <= pa@.len(),
        NR * kc <= pb@.len(),
        old(acc)@.len() == MR * NR,
    ensures
        final(acc)@.len() == MR * NR,
        tile_is(final(acc)@, pa@, pb@, MR as int, NR as int, kc as int),
{
    dpwssd(kc, pa, pb, acc)
}

/// A tile by pairs of signed words.
pub fn dpwssd(kc: usize, pa: &[i8], pb: &[i8], acc: &mut [i32])
    requires
        MR * kc <= pa@.len(),
        NR * kc <= pb@.len(),
        old(acc)@.len() == MR * NR,
    ensures
        final(acc)@.len() == MR * NR,
        tile_is(final(acc)@, pa@, pb@, MR as int, NR as int, kc as int),
{
    grouped_tile(MR, NR, K_GROUP, kc, pa, pb, acc)
}

/// A tile by biased bytes.
pub fn mac_tile_dpbusd(kc: usize, pa: &[i8], pb: &[i8], acc: &mut [i32])
    requires
        MR * kc <= pa@.len(),
        NR * kc <= pb@.len(),
        old(acc)@.len() == MR * NR,
    ensures
        final(acc)@.len() == MR * NR,
        tile_is(final(acc)@, pa@, pb@, MR as int, NR as int, kc as int),
{
    dpbusd(kc, pa, pb, acc)
}

/// A tile by fours of biased bytes: `128` times the total of each column is taken
/// out of every row at the end.
pub fn dpbusd(kc: usize, pa: &[i8], pb: &[i8], acc: &mut [i32])
    requires
        MR * kc <= pa@.len(),
        NR * kc <= pb@.len(),
        old(acc)@.len() == MR * NR,
    ensures
        final(acc)@.len() == MR * NR,
        tile_is(final(acc)@, pa@, pb@, MR as int, NR as int, kc as int),
{
    biased_tile(MR, NR, BYTE_GROUP, kc, pa, pb, acc)
}

} // verus!
