//! The 256-bit and 512-bit families on a host that is of neither.
use vstd::prelude::*;

verus! {

/// Whether 256-bit registers are available: not here.
pub fn avx2_available() -> (r: bool)
    ensures
        !r,
{
    false
}

/// Whether the 512-bit dot product is available: not here.
pub fn avx512vnni_available() -> (r: bool)
    ensures
        !r,
{
    false
}

} // verus!
