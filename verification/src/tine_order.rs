//! The order of tines.
use crate::bound::Bound;
use crate::domain::Domain;
use crate::tine::Tine;
use core::cmp::Ordering;
use vstd::prelude::*;
use vstd::std_specs::cmp::PartialOrdSpecImpl;

verus! {

impl<T: Domain> Tine<T> {
    /// Returns `true` unless the tine is a point at infinity.
    pub fn is_valid(&self) -> (r: bool)
        ensures
            r == self.valid(),
    {
        match self {
            Tine::Point(Bound::Infinite) => false,
            _ => true,
        }
    }

    /// Compares two valid tines by place alone.
    pub fn cmp(&self, other: &Self) -> (r: Ordering)
        requires
            self.valid(),
            other.valid(),
        ensures
            r == (if self.before(*other) {
                Ordering::Less
            } else if other.before(*self) {
                Ordering::Greater
            } else {
                Ordering::Equal
            }),
    {
        if self.precedes(other) {
            Ordering::Less
        } else if other.precedes(self) {
            Ordering::Greater
        } else {
            Ordering::Equal
        }
    }
}

impl<T: Domain + PartialEq> PartialOrd for Tine<T> {
    /// Compares two tines by place alone: the lower infinity comes first,
    /// the upper infinity last, and tines at one point compare equal
    /// whatever their kind. A point at infinity compares with nothing.
    fn partial_cmp(&self, other: &Self) -> (r: Option<Ordering>) {
        if !self.is_valid() || !other.is_valid() {
            None
        } else {
            Some(Tine::cmp(self, other))
        }
    }
}

impl<T: Domain + PartialEq> PartialOrdSpecImpl for Tine<T> {
    open spec fn obeys_partial_cmp_spec() -> bool {
        true
    }

    open spec fn partial_cmp_spec(&self, other: &Self) -> Option<Ordering> {
        if !self.valid() || !other.valid() {
            None
        } else if self.before(*other) {
            Some(Ordering::Less)
        } else if other.before(*self) {
            Some(Ordering::Greater)
        } else {
            Some(Ordering::Equal)
        }
    }
}

/// The order of valid tines is total: of two tines one stands before the
/// other, or both stand at one place.
pub proof fn law_tine_order_total<T: Domain>(a: Tine<T>, b: Tine<T>)
    requires
        a.valid(),
        b.valid(),
    ensures
        a.before(b) || b.before(a) || a.same_place(b),
        !(a.before(b) && b.before(a)),
        a.same_place(b) ==> !a.before(b) && !b.before(a),
{
    reveal(Tine::level);
    reveal(Tine::place);
}

} // verus!
