//! The fixed-point number format shared by the whole library.

use vstd::prelude::*;

verus! {

/// How many units make up one: numbers carry six decimal places.
pub const SCALE: i64 = 1_000_000;

/// The largest magnitude, in units, that counts as a number
/// (a million millions with six decimals).
pub const LIMIT: i64 = 1_000_000_000_000_000_000;

/// The value that stands for "not a number". Every value whose magnitude
/// exceeds [`LIMIT`] is treated alike; this is the one the library itself
/// produces.
pub const NOT_A_NUMBER: i64 = i64::MIN;

/// Total centroid movement, in units, below which clustering stops: one
/// ten-thousandth.
pub const THRESHOLD: u128 = 100;

/// A value is a number when its magnitude does not exceed [`LIMIT`].
pub open spec fn spec_is_number(v: i64) -> bool {
    -LIMIT <= v <= LIMIT
}

/// Tells whether `v` is a number.
#[verifier::when_used_as_spec(spec_is_number)]
pub fn is_number(v: i64) -> (r: bool)
    ensures
        r == spec_is_number(v),
{
    -LIMIT <= v && v <= LIMIT
}

/// The magnitude of `v`.
pub open spec fn magnitude(v: int) -> int {
    if v < 0 {
        -v
    } else {
        v
    }
}

/// `n / d` rounded toward zero, for a positive `d`.
pub open spec fn quotient_toward_zero(n: int, d: int) -> int {
    if n >= 0 {
        n / d
    } else {
        -((-n) / d)
    }
}

} // verus!
