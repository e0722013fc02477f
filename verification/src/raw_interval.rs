//! A single interval in canonical shape.
use crate::bound::Bound;
use crate::domain::{site, Domain};
use vstd::prelude::*;

verus! {

/// One interval. Each shape names which ends exist and whether they belong
/// to the interval.
#[derive(Debug, Clone, Copy, PartialEq, Eq, Hash)]
pub enum RawInterval<T> {
    /// No point at all.
    Empty,
    /// The single point `p`.
    Point(T),
    /// `(l, r)`.
    Open(T, T),
    /// `(l, r]`.
    LeftOpen(T, T),
    /// `[l, r)`.
    RightOpen(T, T),
    /// `[l, r]`.
    Closed(T, T),
    /// `(-inf, r)`.
    UpTo(T),
    /// `(l, +inf)`.
    UpFrom(T),
    /// `(-inf, r]`.
    To(T),
    /// `[l, +inf)`.
    From(T),
    /// Every point.
    Full,
}

impl<T: Domain> RawInterval<T> {
    /// The shape is canonical: an interval with two ends has its left end
    /// strictly before its right end.
    pub open spec fn wf(self) -> bool {
        match self {
            RawInterval::Open(l, r) => l.rank() < r.rank(),
            RawInterval::LeftOpen(l, r) => l.rank() < r.rank(),
            RawInterval::RightOpen(l, r) => l.rank() < r.rank(),
            RawInterval::Closed(l, r) => l.rank() < r.rank(),
            _ => true,
        }
    }

    /// The lower end, or `None` for the empty interval.
    pub open spec fn lower(self) -> Option<Bound<T>> {
        match self {
            RawInterval::Empty => None,
            RawInterval::Point(p) => Some(Bound::Include(p)),
            RawInterval::Open(l, _) => Some(Bound::Exclude(l)),
            RawInterval::LeftOpen(l, _) => Some(Bound::Exclude(l)),
            RawInterval::RightOpen(l, _) => Some(Bound::Include(l)),
            RawInterval::Closed(l, _) => Some(Bound::Include(l)),
            RawInterval::UpTo(_) => Some(Bound::Infinite),
            RawInterval::UpFrom(l) => Some(Bound::Exclude(l)),
            RawInterval::To(_) => Some(Bound::Infinite),
            RawInterval::From(l) => Some(Bound::Include(l)),
            RawInterval::Full => Some(Bound::Infinite),
        }
    }

    /// The upper end, or `None` for the empty interval.
    pub open spec fn upper(self) -> Option<Bound<T>> {
        match self {
            RawInterval::Empty => None,
            RawInterval::Point(p) => Some(Bound::Include(p)),
            RawInterval::Open(_, r) => Some(Bound::Exclude(r)),
            RawInterval::LeftOpen(_, r) => Some(Bound::Include(r)),
            RawInterval::RightOpen(_, r) => Some(Bound::Exclude(r)),
            RawInterval::Closed(_, r) => Some(Bound::Include(r)),
            RawInterval::UpTo(r) => Some(Bound::Exclude(r)),
            RawInterval::UpFrom(_) => Some(Bound::Infinite),
            RawInterval::To(r) => Some(Bound::Include(r)),
            RawInterval::From(_) => Some(Bound::Infinite),
            RawInterval::Full => Some(Bound::Infinite),
        }
    }

    /// Whether the site `x` belongs to the interval.
    pub open spec fn covers(self, x: int) -> bool {
        match (self.lower(), self.upper()) {
            (Some(lb), Some(ub)) => lb.bounds_below(x) && ub.bounds_above(x),
            _ => false,
        }
    }

    /// The sites of the interval.
    pub open spec fn view(self) -> Set<int> {
        Set::new(|x: int| self.covers(x))
    }

    /// Whether the point `p` belongs to the interval.
    pub open spec fn has(self, p: T) -> bool {
        self.covers(site(p))
    }

    /// The interval with the given ends, for ends of which the lower one
    /// lies before the upper one.
    pub open spec fn with_ends(lb: Bound<T>, ub: Bound<T>) -> Self {
        match (lb, ub) {
            (Bound::Include(l), Bound::Include(u)) => RawInterval::Closed(l, u),
            (Bound::Include(l), Bound::Exclude(u)) => RawInterval::RightOpen(l, u),
            (Bound::Include(l), Bound::Infinite) => RawInterval::From(l),
            (Bound::Exclude(l), Bound::Include(u)) => RawInterval::LeftOpen(l, u),
            (Bound::Exclude(l), Bound::Exclude(u)) => RawInterval::Open(l, u),
            (Bound::Exclude(l), Bound::Infinite) => RawInterval::UpFrom(l),
            (Bound::Infinite, Bound::Include(u)) => RawInterval::To(u),
            (Bound::Infinite, Bound::Exclude(u)) => RawInterval::UpTo(u),
            (Bound::Infinite, Bound::Infinite) => RawInterval::Full,
        }
    }

    /// The lower bound lies strictly before the upper bound, or one of the
    /// two is infinite.
    pub open spec fn apart(lb: Bound<T>, ub: Bound<T>) -> bool {
        match (lb.point(), ub.point()) {
            (Some(l), Some(u)) => l.rank() < u.rank(),
            _ => true,
        }
    }

    /// The interval between two bounds, in canonical shape. Bounds that
    /// enclose nothing give `Empty`; two inclusive bounds at one point give
    /// `Point`.
    pub fn new(lb: Bound<T>, ub: Bound<T>) -> (r: Self)
        ensures
            r.wf(),
            forall|x: int| r.covers(x) == (lb.bounds_below(x) && ub.bounds_above(x)),
            Self::apart(lb, ub) ==> r == Self::with_ends(lb, ub),
    {
        match (lb, ub) {
            (Bound::Include(l), Bound::Include(u)) => {
                if l.precedes(&u) {
                    RawInterval::Closed(l, u)
                } else if l.coincides(&u) {
                    RawInterval::Point(l)
                } else {
                    RawInterval::Empty
                }
            },
            (Bound::Include(l), Bound::Exclude(u)) => {
                if l.precedes(&u) {
                    RawInterval::RightOpen(l, u)
                } else {
                    RawInterval::Empty
                }
            },
            (Bound::Include(l), Bound::Infinite) => RawInterval::From(l),
            (Bound::Exclude(l), Bound::Include(u)) => {
                if l.precedes(&u) {
                    RawInterval::LeftOpen(l, u)
                } else {
                    RawInterval::Empty
                }
            },
            (Bound::Exclude(l), Bound::Exclude(u)) => {
                if l.precedes(&u) {
                    RawInterval::Open(l, u)
                } else {
                    RawInterval::Empty
                }
            },
            (Bound::Exclude(l), Bound::Infinite) => RawInterval::UpFrom(l),
            (Bound::Infinite, Bound::Include(u)) => RawInterval::To(u),
            (Bound::Infinite, Bound::Exclude(u)) => RawInterval::UpTo(u),
            (Bound::Infinite, Bound::Infinite) => RawInterval::Full,
        }
    }

    /// Returns `true` if the interval is `Empty`.
    pub fn is_empty(&self) -> (r: bool)
        ensures
            r == (*self is Empty),
    {
        match self {
            RawInterval::Empty => true,
            _ => false,
        }
    }

    /// Returns `true` if the interval is `Full`.
    pub fn is_full(&self) -> (r: bool)
        ensures
            r == (*self is Full),
    {
        match self {
            RawInterval::Full => true,
            _ => false,
        }
    }

    /// Returns the lower end of the interval, or `None` if it is empty.
    pub fn lower_bound(&self) -> (r: Option<Bound<T>>)
        ensures
            r == self.lower(),
    {
        match *self {
            RawInterval::Empty => None,
            RawInterval::Point(p) => Some(Bound::Include(p)),
            RawInterval::Open(l, _) => Some(Bound::Exclude(l)),
            RawInterval::LeftOpen(l, _) => Some(Bound::Exclude(l)),
            RawInterval::RightOpen(l, _) => Some(Bound::Include(l)),
            RawInterval::Closed(l, _) => Some(Bound::Include(l)),
            RawInterval::UpTo(_) => Some(Bound::Infinite),
            RawInterval::UpFrom(l) => Some(Bound::Exclude(l)),
            RawInterval::To(_) => Some(Bound::Infinite),
            RawInterval::From(l) => Some(Bound::Include(l)),
            RawInterval::Full => Some(Bound::Infinite),
        }
    }

    /// Returns the upper end of the interval, or `None` if it is empty.
    pub fn upper_bound(&self) -> (r: Option<Bound<T>>)
        ensures
            r == self.upper(),
    {
        match *self {
            RawInterval::Empty => None,
            RawInterval::Point(p) => Some(Bound::Include(p)),
            RawInterval::Open(_, r) => Some(Bound::Exclude(r)),
            RawInterval::LeftOpen(_, r) => Some(Bound::Include(r)),
            RawInterval::RightOpen(_, r) => Some(Bound::Exclude(r)),
            RawInterval::Closed(_, r) => Some(Bound::Include(r)),
            RawInterval::UpTo(r) => Some(Bound::Exclude(r)),
            RawInterval::UpFrom(_) => Some(Bound::Infinite),
            RawInterval::To(r) => Some(Bound::Include(r)),
            RawInterval::From(_) => Some(Bound::Infinite),
            RawInterval::Full => Some(Bound::Infinite),
        }
    }

    /// Returns `true` if the interval contains the point.
    pub fn contains(&self, point: &T) -> (r: bool)
        ensures
            r == self.has(*point),
    {
        match (self.lower_bound(), self.upper_bound()) {
            (Some(lb), Some(ub)) => {
                let above = match lb {
                    Bound::Include(l) => !point.precedes(&l),
                    Bound::Exclude(l) => l.precedes(point),
                    Bound::Infinite => true,
                };
                let below = match ub {
                    Bound::Include(u) => !u.precedes(point),
                    Bound::Exclude(u) => point.precedes(&u),
                    Bound::Infinite => true,
                };
                above && below
            },
            _ => false,
        }
    }

    /// Returns the intersection of two intervals, which is one interval.
    /// Intervals that do not meet give `Empty`.
    pub fn intersect(&self, other: &Self) -> (r: Self)
        ensures
            r.wf(),
            forall|x: int| r.covers(x) == (self.covers(x) && other.covers(x)),
    {
        match (self.lower_bound(), self.upper_bound(), other.lower_bound(), other.upper_bound()) {
            (Some(la), Some(ua), Some(lb), Some(ub)) => {
                let lo = inner_lower(la, lb);
                let hi = inner_upper(ua, ub);
                RawInterval::new(lo, hi)
            },
            _ => RawInterval::Empty,
        }
    }

    /// The interval with each finite end made inclusive.
    pub open spec fn closed_form(self) -> Self {
        match self {
            RawInterval::Open(l, r) => RawInterval::Closed(l, r),
            RawInterval::LeftOpen(l, r) => RawInterval::Closed(l, r),
            RawInterval::RightOpen(l, r) => RawInterval::Closed(l, r),
            RawInterval::UpTo(r) => RawInterval::To(r),
            RawInterval::UpFrom(l) => RawInterval::From(l),
            _ => self,
        }
    }

    /// Returns the smallest closed interval that contains `self`: every
    /// finite excluded end becomes included.
    pub fn closure(&self) -> (r: Self)
        ensures
            r == self.closed_form(),
    {
        match *self {
            RawInterval::Open(l, r) => RawInterval::Closed(l, r),
            RawInterval::LeftOpen(l, r) => RawInterval::Closed(l, r),
            RawInterval::RightOpen(l, r) => RawInterval::Closed(l, r),
            RawInterval::UpTo(r) => RawInterval::To(r),
            RawInterval::UpFrom(l) => RawInterval::From(l),
            other => other,
        }
    }
}

/// The stricter of two lower ends: the one further right, and at one point
/// the exclusive one.
pub fn inner_lower<T: Domain>(a: Bound<T>, b: Bound<T>) -> (r: Bound<T>)
    ensures
        forall|x: int| r.bounds_below(x) == (a.bounds_below(x) && b.bounds_below(x)),
        r == a || r == b,
{
    match (a, b) {
        (Bound::Infinite, _) => b,
        (_, Bound::Infinite) => a,
        (Bound::Include(p), Bound::Include(q)) => if p.precedes(&q) { b } else { a },
        (Bound::Include(p), Bound::Exclude(q)) => if q.precedes(&p) { a } else { b },
        (Bound::Exclude(p), Bound::Include(q)) => if p.precedes(&q) { b } else { a },
        (Bound::Exclude(p), Bound::Exclude(q)) => if p.precedes(&q) { b } else { a },
    }
}

/// The stricter of two upper ends: the one further left, and at one point
/// the exclusive one.
pub fn inner_upper<T: Domain>(a: Bound<T>, b: Bound<T>) -> (r: Bound<T>)
    ensures
        forall|x: int| r.bounds_above(x) == (a.bounds_above(x) && b.bounds_above(x)),
        r == a || r == b,
{
    match (a, b) {
        (Bound::Infinite, _) => b,
        (_, Bound::Infinite) => a,
        (Bound::Include(p), Bound::Include(q)) => if q.precedes(&p) { b } else { a },
        (Bound::Include(p), Bound::Exclude(q)) => if p.precedes(&q) { a } else { b },
        (Bound::Exclude(p), Bound::Include(q)) => if q.precedes(&p) { b } else { a },
        (Bound::Exclude(p), Bound::Exclude(q)) => if q.precedes(&p) { b } else { a },
    }
}

/// Whether the upper end `a` lies at or before the upper end `b`.
pub open spec fn upper_le<T: Domain>(a: Bound<T>, b: Bound<T>) -> bool {
    match (a, b) {
        (_, Bound::Infinite) => true,
        (Bound::Infinite, _) => false,
        (Bound::Include(p), Bound::Exclude(q)) => p.rank() < q.rank(),
        (Bound::Include(p), Bound::Include(q)) => p.rank() <= q.rank(),
        (Bound::Exclude(p), Bound::Include(q)) => p.rank() <= q.rank(),
        (Bound::Exclude(p), Bound::Exclude(q)) => p.rank() <= q.rank(),
    }
}

/// An upper end that lies at or before another admits no site that the
/// other does not admit; and of two upper ends one lies at or before the
/// other.
pub proof fn lemma_upper_le<T: Domain>(a: Bound<T>, b: Bound<T>)
    ensures
        upper_le(a, b) ==> forall|x: int| a.bounds_above(x) ==> b.bounds_above(x),
        !upper_le(a, b) ==> forall|x: int| b.bounds_above(x) ==> a.bounds_above(x),
{
}

/// Returns `true` if the upper end `a` lies at or before the upper end
/// `b`.
pub fn ends_within<T: Domain>(a: &Bound<T>, b: &Bound<T>) -> (r: bool)
    ensures
        r == upper_le(*a, *b),
{
    match (a, b) {
        (_, Bound::Infinite) => true,
        (Bound::Infinite, _) => false,
        (Bound::Include(p), Bound::Exclude(q)) => p.precedes(q),
        (Bound::Include(p), Bound::Include(q)) => !q.precedes(p),
        (Bound::Exclude(p), Bound::Include(q)) => !q.precedes(p),
        (Bound::Exclude(p), Bound::Exclude(q)) => !q.precedes(p),
    }
}

/// A canonical interval is determined by its sites: two canonical intervals
/// that cover the same sites are the same value.
pub proof fn law_interval_determined<T: Domain>(a: RawInterval<T>, b: RawInterval<T>)
    requires
        a.wf(),
        b.wf(),
        forall|x: int| a.covers(x) == b.covers(x),
    ensures
        a == b,
{
    assert(a.covers(0) == b.covers(0));
    lemma_probe(a, b, a.lower());
    lemma_probe(a, b, a.upper());
    lemma_probe(a, b, b.lower());
    lemma_probe(a, b, b.upper());
    lemma_same_point(a.lower(), b.lower());
    lemma_same_point(a.upper(), b.upper());
    lemma_same_point(a.lower(), b.upper());
    lemma_same_point(a.upper(), b.lower());
}

/// Compares two intervals at the site of an end and at its two neighbours.
proof fn lemma_probe<T: Domain>(a: RawInterval<T>, b: RawInterval<T>, end: Option<Bound<T>>)
    requires
        forall|x: int| a.covers(x) == b.covers(x),
    ensures
        match end {
            Some(Bound::Include(p)) | Some(Bound::Exclude(p)) => {
                &&& a.covers(site(p) - 1) == b.covers(site(p) - 1)
                &&& a.covers(site(p)) == b.covers(site(p))
                &&& a.covers(site(p) + 1) == b.covers(site(p) + 1)
            },
            _ => true,
        },
{
}

/// Two finite ends at one rank hold the same point.
proof fn lemma_same_point<T: Domain>(a: Option<Bound<T>>, b: Option<Bound<T>>)
    ensures
        match (a, b) {
            (Some(x), Some(y)) => match (x.point(), y.point()) {
                (Some(p), Some(q)) => p.rank() == q.rank() ==> p == q,
                _ => true,
            },
            _ => true,
        },
{
    match (a, b) {
        (Some(x), Some(y)) => match (x.point(), y.point()) {
            (Some(p), Some(q)) => {
                if p.rank() == q.rank() {
                    T::rank_determines(p, q);
                }
            },
            _ => {},
        },
        _ => {},
    }
}

} // verus!
