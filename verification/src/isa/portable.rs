//! The reference kernels: widen, multiply, add.
use crate::element::lemma_wrapped;
use crate::isa::kernel::{
    reference_tile, tile_is, Factorization, Fuse, KernelSpec, KernelWord,
};
use crate::lane::{lemma_cropped, lemma_placed_same};
use crate::sequence::Backend;
use vstd::prelude::*;

verus! {

/// Rows of a tile.
pub const MR: usize = 4;

/// Columns of a tile.
pub const NR: usize = 4;

/// What a reference kernel declares.
pub open spec fn reference_of(factorization: Factorization, lane_cap: u128) -> KernelSpec {
    KernelSpec {
        backend: Backend::Portable,
        factorization,
        mr: MR,
        nr: NR,
        k_group: 1,
        lane_cap,
        max_bound: u128::MAX,
    }
}

fn reference_spec(factorization: Factorization, lane_cap: u128) -> (r: KernelSpec)
    ensures
        r == reference_of(factorization, lane_cap),
{
    KernelSpec {
        backend: Backend::Portable,
        factorization,
        mr: MR,
        nr: NR,
        k_group: 1,
        lane_cap,
        max_bound: u128::MAX,
    }
}

impl Fuse<i8> for i32 {
    fn fuse(self, a: i8, b: i8) -> (r: Self) {
        assert(-0x4000 <= a * b <= 0x4000) by (nonlinear_arith)
            requires
                -0x80 <= a <= 0x80,
                -0x80 <= b <= 0x80,
        ;
        let product: i32 = (a as i32) * (b as i32);
        let r: i32 = self.wrapping_add(product);
        proof {
            lemma_wrapped(self + a * b, r as int, <i32 as KernelWord>::extent());
        }
        r
    }
}

impl Fuse<i16> for i64 {
    fn fuse(self, a: i16, b: i16) -> (r: Self) {
        assert(-0x4000_0000 <= a * b <= 0x4000_0000) by (nonlinear_arith)
            requires
                -0x8000 <= a <= 0x8000,
                -0x8000 <= b <= 0x8000,
        ;
        let product: i64 = (a as i64) * (b as i64);
        let r: i64 = self.wrapping_add(product);
        proof {
            lemma_wrapped(self + a * b, r as int, <i64 as KernelWord>::extent());
        }
        r
    }
}

impl Fuse<i16> for i32 {
    fn fuse(self, a: i16, b: i16) -> (r: Self) {
        assert(-0x4000_0000 <= a * b <= 0x4000_0000) by (nonlinear_arith)
            requires
                -0x8000 <= a <= 0x8000,
                -0x8000 <= b <= 0x8000,
        ;
        let product: i32 = (a as i32) * (b as i32);
        let r: i32 = self.wrapping_add(product);
        proof {
            lemma_wrapped(self + a * b, r as int, <i32 as KernelWord>::extent());
        }
        r
    }
}

impl Fuse<i32> for i64 {
    fn fuse(self, a: i32, b: i32) -> (r: Self) {
        assert(-0x4000_0000_0000_0000 <= a * b <= 0x4000_0000_0000_0000) by (nonlinear_arith)
            requires
                -0x8000_0000 <= a <= 0x8000_0000,
                -0x8000_0000 <= b <= 0x8000_0000,
        ;
        let product: i64 = (a as i64) * (b as i64);
        let r: i64 = self.wrapping_add(product);
        proof {
            lemma_wrapped(self + a * b, r as int, <i64 as KernelWord>::extent());
        }
        r
    }
}

impl Fuse<i64> for i128 {
    fn fuse(self, a: i64, b: i64) -> (r: Self) {
        assert(-0x4000_0000_0000_0000_0000_0000_0000_0000int <= a * b
            <= 0x4000_0000_0000_0000_0000_0000_0000_0000int) by (nonlinear_arith)
            requires
                -0x8000_0000_0000_0000 <= a <= 0x8000_0000_0000_0000,
                -0x8000_0000_0000_0000 <= b <= 0x8000_0000_0000_0000,
        ;
        let product: i128 = (a as i128) * (b as i128);
        let r: i128 = self.wrapping_add(product);
        proof {
            lemma_wrapped(self + a * b, r as int, <i128 as KernelWord>::extent());
        }
        r
    }
}

impl Fuse<i32> for i32 {
    fn fuse(self, a: i32, b: i32) -> (r: Self) {
        let product: i32 = a.wrapping_mul(b);
        let r: i32 = self.wrapping_add(product);
        proof {
            let m = <i32 as KernelWord>::extent();
            lemma_cropped(a * b, product as int, m);
            lemma_wrapped(self + product, r as int, m);
            lemma_placed_same(r as int, self as int, product as int, a * b, m);
        }
        r
    }
}

impl Fuse<i64> for i64 {
    fn fuse(self, a: i64, b: i64) -> (r: Self) {
        let product: i64 = a.wrapping_mul(b);
        let r: i64 = self.wrapping_add(product);
        proof {
            let m = <i64 as KernelWord>::extent();
            lemma_cropped(a * b, product as int, m);
            lemma_wrapped(self + product, r as int, m);
            lemma_placed_same(r as int, self as int, product as int, a * b, m);
        }
        r
    }
}

/// The declaration of exact sums of 8-bit products in 32-bit lanes.
pub fn i8_i32() -> (r: KernelSpec)
    ensures
        r == reference_of(Factorization::Exact, 0x7fff_ffff),
{
    reference_spec(Factorization::Exact, 0x7fff_ffff)
}

/// Exact sums of 8-bit products in 32-bit lanes.
pub fn mac_i8_i32(kc: usize, pa: &[i8], pb: &[i8], acc: &mut [i32])
    requires
        MR * kc <= pa@.len(),
        NR * kc <= pb@.len(),
        old(acc)@.len() == MR * NR,
    ensures
        final(acc)@.len() == MR * NR,
        tile_is(final(acc)@, pa@, pb@, MR as int, NR as int, kc as int),
{
    reference_tile(MR, NR, kc, pa, pb, acc)
}

/// The declaration of exact sums of 16-bit products in 64-bit lanes.
pub fn i16_i64() -> (r: KernelSpec)
    ensures
        r == reference_of(Factorization::Exact, 0x7fff_ffff_ffff_ffff),
{
    reference_spec(Factorization::Exact, 0x7fff_ffff_ffff_ffff)
}

/// Exact sums of 16-bit products in 64-bit lanes.
pub fn mac_i16_i64(kc: usize, pa: &[i16], pb: &[i16], acc: &mut [i64])
    requires
        MR * kc <= pa@.len(),
        NR * kc <= pb@.len(),
        old(acc)@.len() == MR * NR,
    ensures
        final(acc)@.len() == MR * NR,
        tile_is(final(acc)@, pa@, pb@, MR as int, NR as int, kc as int),
{
    reference_tile(MR, NR, kc, pa, pb, acc)
}

/// The declaration of exact sums of 32-bit products in 64-bit lanes.
pub fn i32_i64() -> (r: KernelSpec)
    ensures
        r == reference_of(Factorization::Exact, 0x7fff_ffff_ffff_ffff),
{
    reference_spec(Factorization::Exact, 0x7fff_ffff_ffff_ffff)
}

/// Exact sums of 32-bit products in 64-bit lanes.
pub fn mac_i32_i64(kc: usize, pa: &[i32], pb: &[i32], acc: &mut [i64])
    requires
        MR * kc <= pa@.len(),
        NR * kc <= pb@.len(),
        old(acc)@.len() == MR * NR,
    ensures
        final(acc)@.len() == MR * NR,
        tile_is(final(acc)@, pa@, pb@, MR as int, NR as int, kc as int),
{
    reference_tile(MR, NR, kc, pa, pb, acc)
}

/// The declaration of sums of 32-bit products modulo the extent of 32-bit lanes.
pub fn i32_mod() -> (r: KernelSpec)
    ensures
        r == reference_of(Factorization::Modular, 0),
{
    reference_spec(Factorization::Modular, 0)
}

/// Sums of 32-bit products modulo the extent of 32-bit lanes.
pub fn mac_i32_mod(kc: usize, pa: &[i32], pb: &[i32], acc: &mut [i32])
    requires
        MR * kc <= pa@.len(),
        NR * kc <= pb@.len(),
        old(acc)@.len() == MR * NR,
    ensures
        final(acc)@.len() == MR * NR,
        tile_is(final(acc)@, pa@, pb@, MR as int, NR as int, kc as int),
{
    reference_tile(MR, NR, kc, pa, pb, acc)
}

/// The declaration of sums of 64-bit products modulo the extent of 64-bit lanes.
pub fn i64_mod() -> (r: KernelSpec)
    ensures
        r == reference_of(Factorization::Modular, 0),
{
    reference_spec(Factorization::Modular, 0)
}

/// Sums of 64-bit products modulo the extent of 64-bit lanes.
pub fn mac_i64_mod(kc: usize, pa: &[i64], pb: &[i64], acc: &mut [i64])
    requires
        MR * kc <= pa@.len(),
        NR * kc <= pb@.len(),
        old(acc)@.len() == MR * NR,
    ensures
        final(acc)@.len() == MR * NR,
        tile_is(final(acc)@, pa@, pb@, MR as int, NR as int, kc as int),
{
    reference_tile(MR, NR, kc, pa, pb, acc)
}

/// The declaration of exact sums of 64-bit products in 128-bit lanes.
pub fn i64_i128() -> (r: KernelSpec)
    ensures
        r == reference_of(Factorization::Exact, 0x7fff_ffff_ffff_ffff_ffff_ffff_ffff_ffff),
{
    reference_spec(Factorization::Exact, 0x7fff_ffff_ffff_ffff_ffff_ffff_ffff_ffff)
}

/// Exact sums of 64-bit products in 128-bit lanes.
pub fn mac_i64_i128(kc: usize, pa: &[i64], pb: &[i64], acc: &mut [i128])
    requires
        MR * kc <= pa@.len(),
        NR * kc <= pb@.len(),
        old(acc)@.len() == MR * NR,
    ensures
        final(acc)@.len() == MR * NR,
        tile_is(final(acc)@, pa@, pb@, MR as int, NR as int, kc as int),
{
    reference_tile(MR, NR, kc, pa, pb, acc)
}

/// The declaration of sums of 16-bit products modulo the extent of 32-bit lanes.
pub fn i16_mod() -> (r: KernelSpec)
    ensures
        r == reference_of(Factorization::Modular, 0),
{
    reference_spec(Factorization::Modular, 0)
}

/// Sums of 16-bit products modulo the extent of 32-bit lanes.
pub fn mac_i16_mod(kc: usize, pa: &[i16], pb: &[i16], acc: &mut [i32])
    requires
        MR * kc <= pa@.len(),
        NR * kc <= pb@.len(),
        old(acc)@.len() == MR * NR,
    ensures
        final(acc)@.len() == MR * NR,
        tile_is(final(acc)@, pa@, pb@, MR as int, NR as int, kc as int),
{
    reference_tile(MR, NR, kc, pa, pb, acc)
}

} // verus!
