use vstd::prelude::*;

verus! {

/// Adds the given values `a` and `b` together.
pub fn add(a: i8, b: i8) -> (c: i8)
    requires
        i8::MIN <= a + b <= i8::MAX,
    ensures
        c == a + b,
{
    a + b
}

/// Subtracts the given value `b` from `a`.
pub fn subtract(a: i8, b: i8) -> (c: i8)
    requires
        i8::MIN <= a - b <= i8::MAX,
    ensures
        c == a - b,
{
    a - b
}

} // verus!
