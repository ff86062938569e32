use vstd::prelude::*;

verus! {

/// Grid steps in one drawing unit.
pub const GRID_PER_UNIT: i64 = 1_000_000_000;

/// Tolerance of `close_equal` when the caller gives none: a millionth of a
/// drawing unit.
pub const CLOSE_TOLERANCE: i64 = 1_000;

/// The distance between two numbers.
pub open spec fn gap(a: int, b: int) -> int {
    if a <= b {
        b - a
    } else {
        a - b
    }
}

/// Two numbers are closer to each other than `tolerance`.
pub open spec fn close(a: int, b: int, tolerance: int) -> bool {
    gap(a, b) < tolerance
}

/// The tolerance in force: the caller's, or `fallback` when there is none.
pub open spec fn tolerance_or(tolerance: Option<i64>, fallback: i64) -> i64 {
    match tolerance {
        Some(t) => t,
        None => fallback,
    }
}

/// Whether `a` and `b` differ by less than the tolerance (by less than
/// `CLOSE_TOLERANCE` when none is given).
pub fn close_equal(a: i64, b: i64, tolerance: Option<i64>) -> (r: bool)
    ensures
        r == close(a as int, b as int, tolerance_or(tolerance, CLOSE_TOLERANCE) as int),
{
    let limit: i64 = match tolerance {
        Some(t) => t,
        None => CLOSE_TOLERANCE,
    };
    let wide_a: i128 = a as i128;
    let wide_b: i128 = b as i128;
    let distance: i128 = if wide_a <= wide_b {
        wide_b - wide_a
    } else {
        wide_a - wide_b
    };
    distance < limit as i128
}

/// Closeness does not depend on the order of the two numbers.
pub proof fn lemma_close_symmetric(a: int, b: int, tolerance: int)
    ensures
        close(a, b, tolerance) == close(b, a, tolerance),
{
}

} // verus!
