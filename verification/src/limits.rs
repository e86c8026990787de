//! The sizes up to which the arithmetic of this crate is exact.

use vstd::prelude::*;

verus! {

/// The longest series that can be analysed. Scores are compared as exact
/// fractions in 128-bit integers, and this is the largest power of two up to
/// which the cross products of two scores stay in that range.
pub const MAX_SERIES_LEN: usize = 16384;

/// The largest product of the sizes of the two sides of a split: a quarter
/// of the square of [`MAX_SERIES_LEN`].
pub const MAX_SIDES_PRODUCT: i128 = 67108864;

/// The largest distance between two samples: `i32::MAX - i32::MIN`.
pub const MAX_DIFFERENCE: i64 = 4294967295;

/// The largest sum over any region of a distance matrix:
/// `MAX_SERIES_LEN * MAX_SERIES_LEN * MAX_DIFFERENCE`.
pub const MAX_TERM: i64 = 1152921504338411520;

} // verus!
