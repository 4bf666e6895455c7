//! The arithmetic of the example programs that run on the ledger's machine.
use vstd::prelude::*;

verus! {

/// The sum of `a` and `b`, which must fit in 32 bits.
pub fn add(a: u32, b: u32) -> (r: u32)
    requires
        a + b <= u32::MAX,
    ensures
        r == a + b,
{
    a + b
}

} // verus!
