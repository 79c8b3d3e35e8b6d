//! The family of the virtual machine on a host that is none.
use crate::sequence::TableSpec;
use vstd::prelude::*;

verus! {

/// Whether its registers are available: not here.
pub fn simd128_available() -> (r: bool)
    ensures
        !r,
{
    false
}

/// The table sequence of 8-bit products: there is none, so the reference runs.
pub fn simd128_table_i8_i32(_rows: usize, _group: usize) -> (r: Option<TableSpec>)
    ensures
        r is None,
{
    None
}

/// The table sequence of 16-bit products: there is none, so the reference runs.
pub fn simd128_table_i16_i64(_rows: usize, _group: usize) -> (r: Option<TableSpec>)
    ensures
        r is None,
{
    None
}

} // verus!
