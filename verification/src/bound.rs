//! One endpoint of an interval.
use crate::domain::{site, Domain};
use vstd::prelude::*;

verus! {

/// One endpoint: a point that belongs to the interval, a point that does
/// not, or no point at all (the interval has no end on that side).
#[derive(Debug, Clone, Copy, PartialEq, Eq, Hash)]
pub enum Bound<T> {
    /// The endpoint is part of the interval.
    Include(T),
    /// The endpoint is not part of the interval.
    Exclude(T),
    /// The interval is unbounded on this side.
    Infinite,
}

impl<T> Bound<T> {
    /// The point of a finite bound.
    pub open spec fn point(self) -> Option<T> {
        match self {
            Bound::Include(p) => Some(p),
            Bound::Exclude(p) => Some(p),
            Bound::Infinite => None,
        }
    }

    /// Returns a reference to the point of the bound, or `None` if the
    /// bound is `Infinite`.
    pub fn as_ref(&self) -> (r: Option<&T>)
        ensures
            match r {
                Some(p) => self.point() == Some(*p),
                None => self.point().is_none(),
            },
    {
        match self {
            Bound::Include(p) => Some(p),
            Bound::Exclude(p) => Some(p),
            Bound::Infinite => None,
        }
    }

    /// Applies `f` to the point of the bound and keeps the kind of bound.
    pub fn map<U, F: FnOnce(T) -> U>(self, f: F) -> (r: Bound<U>)
        requires
            match self {
                Bound::Include(p) => f.requires((p,)),
                Bound::Exclude(p) => f.requires((p,)),
                Bound::Infinite => true,
            },
        ensures
            match self {
                Bound::Include(p) => r is Include && f.ensures((p,), r->Include_0),
                Bound::Exclude(p) => r is Exclude && f.ensures((p,), r->Exclude_0),
                Bound::Infinite => r is Infinite,
            },
    {
        match self {
            Bound::Include(p) => Bound::Include(f(p)),
            Bound::Exclude(p) => Bound::Exclude(f(p)),
            Bound::Infinite => Bound::Infinite,
        }
    }
}

impl<T: Domain> Bound<T> {
    /// Returns `true` if the two bounds are of one kind and hold the same
    /// point.
    pub fn same(&self, other: &Self) -> (r: bool)
        ensures
            r == (*self == *other),
    {
        match (self, other) {
            (Bound::Include(p), Bound::Include(q)) => {
                proof {
                    if p.rank() == q.rank() {
                        T::rank_determines(*p, *q);
                    }
                }
                p.coincides(q)
            },
            (Bound::Exclude(p), Bound::Exclude(q)) => {
                proof {
                    if p.rank() == q.rank() {
                        T::rank_determines(*p, *q);
                    }
                }
                p.coincides(q)
            },
            (Bound::Infinite, Bound::Infinite) => true,
            _ => false,
        }
    }

    /// Whether the site `x` lies on the inner side of `self` taken as the
    /// lower end of an interval.
    pub open spec fn bounds_below(self, x: int) -> bool {
        match self {
            Bound::Include(p) => site(p) <= x,
            Bound::Exclude(p) => site(p) < x,
            Bound::Infinite => true,
        }
    }

    /// Whether the site `x` lies on the inner side of `self` taken as the
    /// upper end of an interval.
    pub open spec fn bounds_above(self, x: int) -> bool {
        match self {
            Bound::Include(p) => x <= site(p),
            Bound::Exclude(p) => x < site(p),
            Bound::Infinite => true,
        }
    }
}

} // verus!
