//! The 128-bit families on a host that is of neither.
use vstd::prelude::*;

verus! {

/// Whether 128-bit registers are available: not here.
pub fn neon_available() -> (r: bool)
    ensures
        !r,
{
    false
}

/// Whether the 128-bit dot product is available: not here.
pub fn dotprod_available() -> (r: bool)
    ensures
        !r,
{
    false
}

} // verus!
