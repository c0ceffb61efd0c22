use vstd::prelude::*;

verus! {

/// Adds two signed 32-bit integers.
pub fn add(x: i32, y: i32) -> (sum: i32)
    requires
        i32::MIN <= x + y <= i32::MAX,
    ensures
        sum == x + y,
{
    x + y
}

} // verus!
