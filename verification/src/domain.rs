//! The domain of points.
use vstd::prelude::*;

verus! {

/// A totally ordered point type.
///
/// The order is given by `rank`, an order embedding into the integers: a
/// point comes before another exactly if its rank is smaller, and distinct
/// points have distinct ranks. The integer types rank by their value.
pub trait Domain: Copy {
    /// The place of the point in the order.
    spec fn rank(&self) -> int;

    /// Points of equal rank are equal.
    proof fn rank_determines(a: Self, b: Self)
        requires
            a.rank() == b.rank(),
        ensures
            a == b,
    ;

    /// Whether `self` comes strictly before `other`.
    fn precedes(&self, other: &Self) -> (r: bool)
        ensures
            r == (self.rank() < other.rank()),
    ;

    /// Whether `self` and `other` are the same point.
    fn coincides(&self, other: &Self) -> (r: bool)
        ensures
            r == (self.rank() == other.rank()),
    ;
}

/// The site of a point on the doubled number line.
///
/// Sets of points are modelled as sets of sites. The point of rank `k` sits
/// at the even site `2k`; the odd site `2k + 1` stands for the open gap
/// between the points of rank `k` and `k + 1`. Keeping the gaps apart from
/// the points lets the model tell `(0, 1)` from the empty set even where the
/// domain has no point between `0` and `1`.
pub open spec fn site<T: Domain>(p: T) -> int {
    2 * p.rank()
}

impl Domain for i8 {
    open spec fn rank(&self) -> int {
        *self as int
    }

    proof fn rank_determines(a: Self, b: Self) {
    }

    fn precedes(&self, other: &Self) -> (r: bool) {
        *self < *other
    }

    fn coincides(&self, other: &Self) -> (r: bool) {
        *self == *other
    }
}

impl Domain for i16 {
    open spec fn rank(&self) -> int {
        *self as int
    }

    proof fn rank_determines(a: Self, b: Self) {
    }

    fn precedes(&self, other: &Self) -> (r: bool) {
        *self < *other
    }

    fn coincides(&self, other: &Self) -> (r: bool) {
        *self == *other
    }
}

impl Domain for i32 {
    open spec fn rank(&self) -> int {
        *self as int
    }

    proof fn rank_determines(a: Self, b: Self) {
    }

    fn precedes(&self, other: &Self) -> (r: bool) {
        *self < *other
    }

    fn coincides(&self, other: &Self) -> (r: bool) {
        *self == *other
    }
}

impl Domain for i64 {
    open spec fn rank(&self) -> int {
        *self as int
    }

    proof fn rank_determines(a: Self, b: Self) {
    }

    fn precedes(&self, other: &Self) -> (r: bool) {
        *self < *other
    }

    fn coincides(&self, other: &Self) -> (r: bool) {
        *self == *other
    }
}

impl Domain for i128 {
    open spec fn rank(&self) -> int {
        *self as int
    }

    proof fn rank_determines(a: Self, b: Self) {
    }

    fn precedes(&self, other: &Self) -> (r: bool) {
        *self < *other
    }

    fn coincides(&self, other: &Self) -> (r: bool) {
        *self == *other
    }
}

impl Domain for isize {
    open spec fn rank(&self) -> int {
        *self as int
    }

    proof fn rank_determines(a: Self, b: Self) {
    }

    fn precedes(&self, other: &Self) -> (r: bool) {
        *self < *other
    }

    fn coincides(&self, other: &Self) -> (r: bool) {
        *self == *other
    }
}

impl Domain for u8 {
    open spec fn rank(&self) -> int {
        *self as int
    }

    proof fn rank_determines(a: Self, b: Self) {
    }

    fn precedes(&self, other: &Self) -> (r: bool) {
        *self < *other
    }

    fn coincides(&self, other: &Self) -> (r: bool) {
        *self == *other
    }
}

impl Domain for u16 {
    open spec fn rank(&self) -> int {
        *self as int
    }

    proof fn rank_determines(a: Self, b: Self) {
    }

    fn precedes(&self, other: &Self) -> (r: bool) {
        *self < *other
    }

    fn coincides(&self, other: &Self) -> (r: bool) {
        *self == *other
    }
}

impl Domain for u32 {
    open spec fn rank(&self) -> int {
        *self as int
    }

    proof fn rank_determines(a: Self, b: Self) {
    }

    fn precedes(&self, other: &Self) -> (r: bool) {
        *self < *other
    }

    fn coincides(&self, other: &Self) -> (r: bool) {
        *self == *other
    }
}

impl Domain for u64 {
    open spec fn rank(&self) -> int {
        *self as int
    }

    proof fn rank_determines(a: Self, b: Self) {
    }

    fn precedes(&self, other: &Self) -> (r: bool) {
        *self < *other
    }

    fn coincides(&self, other: &Self) -> (r: bool) {
        *self == *other
    }
}

impl Domain for u128 {
    open spec fn rank(&self) -> int {
        *self as int
    }

    proof fn rank_determines(a: Self, b: Self) {
    }

    fn precedes(&self, other: &Self) -> (r: bool) {
        *self < *other
    }

    fn coincides(&self, other: &Self) -> (r: bool) {
        *self == *other
    }
}

impl Domain for usize {
    open spec fn rank(&self) -> int {
        *self as int
    }

    proof fn rank_determines(a: Self, b: Self) {
    }

    fn precedes(&self, other: &Self) -> (r: bool) {
        *self < *other
    }

    fn coincides(&self, other: &Self) -> (r: bool) {
        *self == *other
    }
}

} // verus!
