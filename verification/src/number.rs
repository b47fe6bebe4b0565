//! The arithmetic that column sizing is stated in.

use vstd::prelude::*;

verus! {

/// A kind of number, with the operations that column sizing uses.
///
/// Column sizing is stated once, over any kind of number: its results for
/// [`Binary32`](crate::binary32::Binary32) are what the library computes, and
/// its results for the real numbers are what they would be without rounding.
pub trait Number: Sized {
    /// Nothing.
    spec fn zero() -> Self;

    /// The whole.
    spec fn one() -> Self;

    /// A hundredth: the difference in width that passes for none.
    spec fn slack() -> Self;

    /// The number of a collection's items.
    spec fn count(n: int) -> Self;

    spec fn sum(self, other: Self) -> Self;

    spec fn difference(self, other: Self) -> Self;

    spec fn product(self, other: Self) -> Self;

    spec fn quotient(self, other: Self) -> Self;

    /// The larger of the two.
    spec fn larger(self, other: Self) -> Self;

    /// The smaller of the two.
    spec fn smaller(self, other: Self) -> Self;

    /// Whether `self` is less than `other`.
    spec fn less(self, other: Self) -> bool;

    /// Whether `self` is less than `other` or equal to it.
    spec fn at_most(self, other: Self) -> bool;

    /// Whether `self` equals zero.
    spec fn is_zero(self) -> bool;
}

/// The sum of all items, added up from the first to the last.
pub open spec fn total<N: Number>(s: Seq<N>) -> N
    decreases s.len(),
{
    if s.len() == 0 {
        N::zero()
    } else {
        total(s.drop_last()).sum(s.last())
    }
}

}
