//! Sequences written for 128-bit registers.
use crate::isa::kernel::{
    reference_tile, tile_is, Factorization, KernelSpec, LaneLayout, VectorKernel,
};
use crate::isa::packed::{DOT_MR, DOT_NR};
use crate::isa::reduce::{neon_dotprod_r_i8_inner, neon_r_i8_inner, rows_reduced};
use crate::sequence::{Backend, Host, Sequence, TableSpec};
use vstd::prelude::*;

verus! {

/// Lanes of 32 bits in one register.
pub const NEON_TABLE_LANES: usize = 4;

/// Lanes of 64 bits in one register.
pub const NEON_TABLE_LANES64: usize = 2;

/// The tiles that a gather is written for.
pub open spec fn neon_tile(rows: int, group: int) -> bool {
    (rows == 16 || rows == 8) && (group == 1 || group == 2)
}

/// The table sequence of 8-bit products: products are looked up, so the build
/// adds.
pub open spec fn neon_i8_of(rows: usize, group: usize) -> TableSpec {
    TableSpec {
        backend: Backend::Neon,
        rows,
        group,
        k_group: 1,
        lanes_per_add: NEON_TABLE_LANES,
        build_products_per_step: 1,
        lane_cap: 0x7fff_ffff,
        max_bound: u128::MAX,
        build_multiplies: false,
        sequence: Sequence::Lookup,
    }
}

/// The table sequence of 8-bit products with signs.
pub open spec fn neon_i8_bound1_of(rows: usize, group: usize) -> TableSpec {
    TableSpec {
        backend: Backend::Neon,
        rows,
        group,
        k_group: 1,
        lanes_per_add: NEON_TABLE_LANES,
        build_products_per_step: NEON_TABLE_LANES,
        lane_cap: 0x7fff_ffff,
        max_bound: 1,
        build_multiplies: false,
        sequence: Sequence::SignMask,
    }
}

/// The table sequence of 16-bit products.
pub open spec fn neon_i16_of(rows: usize, group: usize) -> TableSpec {
    TableSpec {
        backend: Backend::Neon,
        rows,
        group,
        k_group: 1,
        lanes_per_add: NEON_TABLE_LANES64,
        build_products_per_step: 2,
        lane_cap: 0x7fff_ffff_ffff_ffff,
        max_bound: u128::MAX,
        build_multiplies: true,
        sequence: Sequence::Product,
    }
}

/// The table sequence of 8-bit products, where the tile is one it is written
/// for.
pub fn neon_table_i8_i32(rows: usize, group: usize) -> (r: Option<TableSpec>)
    ensures
        neon_tile(rows as int, group as int) ==> r == Some(neon_i8_of(rows, group)),
        !neon_tile(rows as int, group as int) ==> r is None,
{
    if (rows == 16 || rows == 8) && (group == 1 || group == 2) {
        Some(
            TableSpec {
                backend: Backend::Neon,
                rows,
                group,
                k_group: 1,
                lanes_per_add: NEON_TABLE_LANES,
                build_products_per_step: 1,
                lane_cap: 0x7fff_ffff,
                max_bound: u128::MAX,
                build_multiplies: false,
                sequence: Sequence::Lookup,
            },
        )
    } else {
        None
    }
}

/// The table sequence of products with signs, where the tile is one it is
/// written for.
pub fn neon_table_i8_i32_bound1(rows: usize, group: usize) -> (r: Option<TableSpec>)
    ensures
        neon_tile(rows as int, group as int) ==> r == Some(neon_i8_bound1_of(rows, group)),
        !neon_tile(rows as int, group as int) ==> r is None,
{
    if (rows == 16 || rows == 8) && (group == 1 || group == 2) {
        Some(
            TableSpec {
                backend: Backend::Neon,
                rows,
                group,
                k_group: 1,
                lanes_per_add: NEON_TABLE_LANES,
                build_products_per_step: NEON_TABLE_LANES,
                lane_cap: 0x7fff_ffff,
                max_bound: 1,
                build_multiplies: false,
                sequence: Sequence::SignMask,
            },
        )
    } else {
        None
    }
}

/// The table sequence of 16-bit products, where the tile is one it is written
/// for.
pub fn neon_table_i16_i64(rows: usize, group: usize) -> (r: Option<TableSpec>)
    ensures
        neon_tile(rows as int, group as int) ==> r == Some(neon_i16_of(rows, group)),
        !neon_tile(rows as int, group as int) ==> r is None,
{
    if (rows == 16 || rows == 8) && (group == 1 || group == 2) {
        Some(
            TableSpec {
                backend: Backend::Neon,
                rows,
                group,
                k_group: 1,
                lanes_per_add: NEON_TABLE_LANES64,
                build_products_per_step: 2,
                lane_cap: 0x7fff_ffff_ffff_ffff,
                max_bound: u128::MAX,
                build_multiplies: true,
                sequence: Sequence::Product,
            },
        )
    } else {
        None
    }
}

/// Whether 128-bit registers are available: they belong to every host of the
/// family.
pub fn neon_available() -> (r: bool)
    ensures
        r,
{
    true
}

/// Whether the 128-bit dot product is available.
pub fn dotprod_available(host: &Host) -> (r: bool)
    ensures
        r == host.dotprod,
{
    host.dotprod
}

/// Rows of a tile.
pub const NEON_MR: usize = 4;

/// Columns of a tile.
pub const NEON_NR: usize = 8;

/// Rows of a reduction.
pub const R_MR: usize = 4;

/// What a kernel of 128-bit registers declares.
pub open spec fn vector_of(
    backend: Backend,
    mr: usize,
    nr: usize,
    lane_layout: LaneLayout,
    k_group: usize,
    products_per_step: usize,
    lane_cap: u128,
) -> VectorKernel {
    VectorKernel {
        kernel: KernelSpec {
            backend,
            factorization: Factorization::Exact,
            mr,
            nr,
            k_group,
            lane_cap,
            max_bound: u128::MAX,
        },
        lane_layout,
        products_per_step,
    }
}

fn vector_spec(
    backend: Backend,
    mr: usize,
    nr: usize,
    lane_layout: LaneLayout,
    k_group: usize,
    products_per_step: usize,
    lane_cap: u128,
) -> (r: VectorKernel)
    ensures
        r == vector_of(backend, mr, nr, lane_layout, k_group, products_per_step, lane_cap),
{
    VectorKernel {
        kernel: KernelSpec {
            backend,
            factorization: Factorization::Exact,
            mr,
            nr,
            k_group,
            lane_cap,
            max_bound: u128::MAX,
        },
        lane_layout,
        products_per_step,
    }
}

/// The declaration of 8-bit products by widening multiplications.
pub fn neon_i8_i32() -> (r: VectorKernel)
    ensures
        r == vector_of(
            Backend::Neon,
            NEON_MR,
            NEON_NR,
            LaneLayout::Interleaved,
            1,
            8,
            0x7fff_ffff,
        ),
{
    vector_spec(
        Backend::Neon,
        NEON_MR,
        NEON_NR,
        LaneLayout::Interleaved,
        1,
        8,
        0x7fff_ffff,
    )
}

/// The declaration of 8-bit products by the dot product.
pub fn neon_dotprod_i8_i32() -> (r: VectorKernel)
    ensures
        r == vector_of(
            Backend::NeonDotprod,
            DOT_MR,
            DOT_NR,
            LaneLayout::Interleaved,
            4,
            16,
            0x7fff_ffff,
        ),
{
    vector_spec(
        Backend::NeonDotprod,
        DOT_MR,
        DOT_NR,
        LaneLayout::Interleaved,
        4,
        16,
        0x7fff_ffff,
    )
}

/// The declaration of 32-bit products in 64-bit lanes.
pub fn neon_i32_i64() -> (r: VectorKernel)
    ensures
        r == vector_of(
            Backend::Neon,
            NEON_MR,
            NEON_NR,
            LaneLayout::Interleaved,
            1,
            2,
            0x7fff_ffff_ffff_ffff,
        ),
{
    vector_spec(
        Backend::Neon,
        NEON_MR,
        NEON_NR,
        LaneLayout::Interleaved,
        1,
        2,
        0x7fff_ffff_ffff_ffff,
    )
}

/// The same at one row.
pub fn neon_i32_i64_m1() -> (r: VectorKernel)
    ensures
        r == vector_of(
            Backend::Neon,
            1,
            NEON_NR,
            LaneLayout::Interleaved,
            1,
            2,
            0x7fff_ffff_ffff_ffff,
        ),
{
    vector_spec(
        Backend::Neon,
        1,
        NEON_NR,
        LaneLayout::Interleaved,
        1,
        2,
        0x7fff_ffff_ffff_ffff,
    )
}

/// The declaration of reductions by widening multiplications.
pub fn neon_r_i8_i32() -> (r: VectorKernel)
    ensures
        r == vector_of(
            Backend::Neon,
            R_MR,
            1,
            LaneLayout::Contiguous,
            16,
            8,
            0x7fff_ffff,
        ),
{
    vector_spec(
        Backend::Neon,
        R_MR,
        1,
        LaneLayout::Contiguous,
        16,
        8,
        0x7fff_ffff,
    )
}

/// The same at one row.
pub fn neon_r_i8_i32_1() -> (r: VectorKernel)
    ensures
        r == vector_of(
            Backend::Neon,
            1,
            1,
            LaneLayout::Contiguous,
            16,
            8,
            0x7fff_ffff,
        ),
{
    vector_spec(
        Backend::Neon,
        1,
        1,
        LaneLayout::Contiguous,
        16,
        8,
        0x7fff_ffff,
    )
}

/// The declaration of reductions by the dot product.
pub fn neon_dotprod_r_i8_i32() -> (r: VectorKernel)
    ensures
        r == vector_of(
            Backend::NeonDotprod,
            R_MR,
            1,
            LaneLayout::Contiguous,
            16,
            16,
            0x7fff_ffff,
        ),
{
    vector_spec(
        Backend::NeonDotprod,
        R_MR,
        1,
        LaneLayout::Contiguous,
        16,
        16,
        0x7fff_ffff,
    )
}

/// The same at one row.
pub fn neon_dotprod_r_i8_i32_1() -> (r: VectorKernel)
    ensures
        r == vector_of(
            Backend::NeonDotprod,
            1,
            1,
            LaneLayout::Contiguous,
            16,
            16,
            0x7fff_ffff,
        ),
{
    vector_spec(
        Backend::NeonDotprod,
        1,
        1,
        LaneLayout::Contiguous,
        16,
        16,
        0x7fff_ffff,
    )
}

/// The declaration of products looked up, for a tile of `MR` rows and `NR`
/// columns.
pub fn neon_lookup_spec<const MR: usize, const NR: usize>(backend: Backend) -> (r: VectorKernel)
    ensures
        r == vector_of(backend, MR, NR, LaneLayout::Interleaved, 1, NR, 0x7fff_ffff),
{
    vector_spec(backend, MR, NR, LaneLayout::Interleaved, 1, NR, 0x7fff_ffff)
}

/// The declaration of products looked up, for a reduction of `MR` rows.
pub fn neon_lookup_reduce_spec<const MR: usize>(backend: Backend) -> (r: VectorKernel)
    ensures
        r == vector_of(backend, MR, 1, LaneLayout::Contiguous, 1, MR, 0x7fff_ffff),
{
    vector_spec(backend, MR, 1, LaneLayout::Contiguous, 1, MR, 0x7fff_ffff)
}

/// A tile of 4 rows and 8 columns.
pub fn neon_i8(kc: usize, pa: &[i8], pb: &[i8], acc: &mut [i32])
    requires
        NEON_MR * kc <= pa@.len(),
        NEON_NR * kc <= pb@.len(),
        old(acc)@.len() == NEON_MR * NEON_NR,
    ensures
        final(acc)@.len() == old(acc)@.len(),
        tile_is(final(acc)@, pa@, pb@, NEON_MR as int, NEON_NR as int, kc as int),
{
    neon_i8_inner(kc, pa, pb, acc)
}

/// A tile step by step: eight products at once, each widened before it is added.
pub fn neon_i8_inner(kc: usize, pa: &[i8], pb: &[i8], acc: &mut [i32])
    requires
        NEON_MR * kc <= pa@.len(),
        NEON_NR * kc <= pb@.len(),
        old(acc)@.len() == NEON_MR * NEON_NR,
    ensures
        final(acc)@.len() == old(acc)@.len(),
        tile_is(final(acc)@, pa@, pb@, NEON_MR as int, NEON_NR as int, kc as int),
{
    reference_tile(NEON_MR, NEON_NR, kc, pa, pb, acc)
}

/// A tile of 4 rows and 8 columns in 64-bit lanes.
pub fn neon_i32_exact(kc: usize, pa: &[i32], pb: &[i32], acc: &mut [i64])
    requires
        NEON_MR * kc <= pa@.len(),
        NEON_NR * kc <= pb@.len(),
        old(acc)@.len() == NEON_MR * NEON_NR,
    ensures
        final(acc)@.len() == old(acc)@.len(),
        tile_is(final(acc)@, pa@, pb@, NEON_MR as int, NEON_NR as int, kc as int),
{
    neon_i32_exact_inner::<4>(kc, pa, pb, acc)
}

/// A tile of one row and 8 columns in 64-bit lanes.
pub fn neon_i32_exact_one(kc: usize, pa: &[i32], pb: &[i32], acc: &mut [i64])
    requires
        1 * kc <= pa@.len(),
        NEON_NR * kc <= pb@.len(),
        old(acc)@.len() == 1 * NEON_NR,
    ensures
        final(acc)@.len() == old(acc)@.len(),
        tile_is(final(acc)@, pa@, pb@, 1 as int, NEON_NR as int, kc as int),
{
    neon_i32_exact_inner::<1>(kc, pa, pb, acc)
}

/// A tile of 64-bit lanes: two products at once, each added at its full width.
pub fn neon_i32_exact_inner<const MR: usize>(kc: usize, pa: &[i32], pb: &[i32], acc: &mut [i64])
    requires
        MR * kc <= pa@.len(),
        NEON_NR * kc <= pb@.len(),
        old(acc)@.len() == MR * NEON_NR,
    ensures
        final(acc)@.len() == old(acc)@.len(),
        tile_is(final(acc)@, pa@, pb@, MR as int, NEON_NR as int, kc as int),
{
    reference_tile(MR, NEON_NR, kc, pa, pb, acc)
}

/// Four rows against one column, by widening multiplications.
pub fn neon_r_i8(kc: usize, pa: &[i8], pb: &[i8], acc: &mut [i32])
    requires
        kc % 16 == 0,
        R_MR * kc <= pa@.len(),
        kc <= pb@.len(),
        old(acc)@.len() == R_MR,
    ensures
        final(acc)@.len() == R_MR,
        rows_reduced(final(acc)@, pa@, pb@, kc as int, R_MR as int),
{
    neon_r_i8_inner::<4>(kc, pa, pb, acc)
}

/// One row against one column, by widening multiplications.
pub fn neon_r_i8_one(kc: usize, pa: &[i8], pb: &[i8], acc: &mut [i32])
    requires
        kc % 16 == 0,
        1 * kc <= pa@.len(),
        kc <= pb@.len(),
        old(acc)@.len() == 1,
    ensures
        final(acc)@.len() == 1,
        rows_reduced(final(acc)@, pa@, pb@, kc as int, 1 as int),
{
    neon_r_i8_inner::<1>(kc, pa, pb, acc)
}

/// Four rows against one column, by the dot product.
pub fn neon_dotprod_r_i8(kc: usize, pa: &[i8], pb: &[i8], acc: &mut [i32])
    requires
        kc % 16 == 0,
        R_MR * kc <= pa@.len(),
        kc <= pb@.len(),
        old(acc)@.len() == R_MR,
    ensures
        final(acc)@.len() == R_MR,
        rows_reduced(final(acc)@, pa@, pb@, kc as int, R_MR as int),
{
    neon_dotprod_r_i8_inner::<4>(kc, pa, pb, acc)
}

/// One row against one column, by the dot product.
pub fn neon_dotprod_r_i8_one(kc: usize, pa: &[i8], pb: &[i8], acc: &mut [i32])
    requires
        kc % 16 == 0,
        1 * kc <= pa@.len(),
        kc <= pb@.len(),
        old(acc)@.len() == 1,
    ensures
        final(acc)@.len() == 1,
        rows_reduced(final(acc)@, pa@, pb@, kc as int, 1 as int),
{
    neon_dotprod_r_i8_inner::<1>(kc, pa, pb, acc)
}

} // verus!
