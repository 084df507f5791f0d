use vstd::prelude::*;

verus! {

/// A function whose body is a single tail expression: it returns five.
pub fn five() -> (r: i32)
    ensures
        r == 5,
{
    5
}

} // verus!
