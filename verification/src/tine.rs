//! Boundary markers.
use crate::bound::Bound;
use crate::domain::{site, Domain};
use crate::raw_interval::RawInterval;
use crate::utilities::Split;
use vstd::prelude::*;

verus! {

/// A boundary marker on the number line.
///
/// A tine says what a set does at one place: just before it, at it, and
/// just after it.
#[derive(Debug, Clone, Copy, PartialEq, Eq)]
pub enum Tine<T> {
    /// The set begins here.
    Lower(Bound<T>),
    /// A lone included point, or a lone excluded point inside the set.
    Point(Bound<T>),
    /// The set ends here.
    Upper(Bound<T>),
}

impl<T: Domain> Tine<T> {
    /// The bound that the tine carries.
    pub open spec fn bound(self) -> Bound<T> {
        match self {
            Tine::Lower(b) => b,
            Tine::Point(b) => b,
            Tine::Upper(b) => b,
        }
    }

    /// Only `Lower` and `Upper` may carry `Infinite`.
    pub open spec fn valid(self) -> bool {
        !(self matches Tine::Point(Bound::Infinite))
    }

    /// Where the tine stands relative to the finite places: `-1` for the
    /// lower infinity, `1` for the upper infinity, `0` for a finite place.
    #[verifier::opaque]
    pub open spec fn level(self) -> int {
        match self {
            Tine::Lower(Bound::Infinite) => -1,
            Tine::Upper(Bound::Infinite) => 1,
            _ => 0,
        }
    }

    /// The site of a finite tine.
    #[verifier::opaque]
    pub open spec fn place(self) -> int {
        match self.bound().point() {
            Some(p) => site(p),
            None => 0,
        }
    }

    /// The set is inside just after the tine.
    pub open spec fn opens(self) -> bool {
        self is Lower || self matches Tine::Point(Bound::Exclude(_))
    }

    /// The set is inside just before the tine.
    pub open spec fn closes(self) -> bool {
        self is Upper || self matches Tine::Point(Bound::Exclude(_))
    }

    /// The place of the tine itself belongs to the set.
    pub open spec fn holds(self) -> bool {
        self.bound() is Include
    }

    /// The order of tines: by place alone, the lower infinity first and the
    /// upper infinity last.
    pub open spec fn before(self, other: Self) -> bool {
        self.level() < other.level() || (self.level() == 0 && other.level() == 0 && self.place()
            < other.place())
    }

    /// Both tines stand at one place.
    pub open spec fn same_place(self, other: Self) -> bool {
        self.level() == other.level() && self.place() == other.place()
    }

    /// The tine stands strictly left of the site `x`.
    pub open spec fn left_of(self, x: int) -> bool {
        self.level() < 0 || (self.level() == 0 && self.place() < x)
    }

    /// The tine stands at the site `x`.
    pub open spec fn on(self, x: int) -> bool {
        self.level() == 0 && self.place() == x
    }

    /// The tine stands strictly right of the site `x`.
    pub open spec fn right_of(self, x: int) -> bool {
        self.level() > 0 || (self.level() == 0 && self.place() > x)
    }

    /// What the tine says of a site at or right of it, with no other tine
    /// in between.
    pub open spec fn says(self, x: int) -> bool {
        if self.on(x) {
            self.holds()
        } else {
            self.opens()
        }
    }

    /// The tine at the place of `self` for a set that is inside just before
    /// the place if `before`, at the place if `at`, and just after it if
    /// `after`. Where the three agree there is no boundary, and no tine.
    pub open spec fn rebuilt(self, before: bool, at: bool, after: bool) -> Option<Self> {
        match self.bound().point() {
            Some(p) => {
                if before && at && after {
                    None
                } else if !before && !at && !after {
                    None
                } else if before && after {
                    Some(Tine::Point(Bound::Exclude(p)))
                } else if !before && !after {
                    Some(Tine::Point(Bound::Include(p)))
                } else if after {
                    Some(Tine::Lower(if at { Bound::Include(p) } else { Bound::Exclude(p) }))
                } else {
                    Some(Tine::Upper(if at { Bound::Include(p) } else { Bound::Exclude(p) }))
                }
            },
            None => {
                if self is Lower && after {
                    Some(Tine::Lower(Bound::Infinite))
                } else if self is Upper && before {
                    Some(Tine::Upper(Bound::Infinite))
                } else {
                    None
                }
            },
        }
    }

    /// The tines of an interval: none for the empty interval, one for a
    /// point, and a lower and an upper one for every other shape.
    pub open spec fn of_interval(interval: RawInterval<T>) -> Seq<Self> {
        match interval {
            RawInterval::Empty => seq![],
            RawInterval::Point(p) => seq![Tine::Point(Bound::Include(p))],
            _ => seq![
                Tine::Lower(interval.lower().unwrap()),
                Tine::Upper(interval.upper().unwrap()),
            ],
        }
    }

    /// Returns the tines of the given interval.
    pub fn from_raw_interval(interval: RawInterval<T>) -> (r: Split<Self>)
        ensures
            r@ == Self::of_interval(interval),
    {
        match interval {
            RawInterval::Empty => Split::Zero,
            RawInterval::Point(p) => Split::One(Tine::Point(Bound::Include(p))),
            RawInterval::Open(l, r) => Split::Two(
                Tine::Lower(Bound::Exclude(l)),
                Tine::Upper(Bound::Exclude(r)),
            ),
            RawInterval::LeftOpen(l, r) => Split::Two(
                Tine::Lower(Bound::Exclude(l)),
                Tine::Upper(Bound::Include(r)),
            ),
            RawInterval::RightOpen(l, r) => Split::Two(
                Tine::Lower(Bound::Include(l)),
                Tine::Upper(Bound::Exclude(r)),
            ),
            RawInterval::Closed(l, r) => Split::Two(
                Tine::Lower(Bound::Include(l)),
                Tine::Upper(Bound::Include(r)),
            ),
            RawInterval::UpTo(r) => Split::Two(
                Tine::Lower(Bound::Infinite),
                Tine::Upper(Bound::Exclude(r)),
            ),
            RawInterval::UpFrom(l) => Split::Two(
                Tine::Lower(Bound::Exclude(l)),
                Tine::Upper(Bound::Infinite),
            ),
            RawInterval::To(r) => Split::Two(
                Tine::Lower(Bound::Infinite),
                Tine::Upper(Bound::Include(r)),
            ),
            RawInterval::From(l) => Split::Two(
                Tine::Lower(Bound::Include(l)),
                Tine::Upper(Bound::Infinite),
            ),
            RawInterval::Full => Split::Two(
                Tine::Lower(Bound::Infinite),
                Tine::Upper(Bound::Infinite),
            ),
        }
    }

    /// Returns `true` if the set is inside just after the tine.
    pub fn is_lower_bound(&self) -> (r: bool)
        ensures
            r == self.opens(),
    {
        match self {
            Tine::Lower(_) => true,
            Tine::Point(Bound::Exclude(_)) => true,
            _ => false,
        }
    }

    /// Returns `true` if the set is inside just before the tine.
    pub fn is_upper_bound(&self) -> (r: bool)
        ensures
            r == self.closes(),
    {
        match self {
            Tine::Upper(_) => true,
            Tine::Point(Bound::Exclude(_)) => true,
            _ => false,
        }
    }

    /// Returns `true` if the tine is a lone included point.
    pub fn is_point_include(&self) -> (r: bool)
        ensures
            r == (*self matches Tine::Point(Bound::Include(_))),
    {
        match self {
            Tine::Point(Bound::Include(_)) => true,
            _ => false,
        }
    }

    /// Returns `true` if the tine is a lone excluded point, which ends one
    /// interval and begins the next.
    pub fn is_point_exclude(&self) -> (r: bool)
        ensures
            r == (*self matches Tine::Point(Bound::Exclude(_))),
    {
        match self {
            Tine::Point(Bound::Exclude(_)) => true,
            _ => false,
        }
    }

    /// Returns a reference to the point of the tine, or `None` if its bound
    /// is `Infinite`.
    pub fn as_ref(&self) -> (r: Option<&T>)
        ensures
            match r {
                Some(p) => self.bound().point() == Some(*p),
                None => self.bound().point().is_none(),
            },
    {
        match self {
            Tine::Lower(x) => x.as_ref(),
            Tine::Point(x) => x.as_ref(),
            Tine::Upper(x) => x.as_ref(),
        }
    }

    /// Returns the bound of the tine.
    pub fn into_inner(self) -> (r: Bound<T>)
        ensures
            r == self.bound(),
    {
        match self {
            Tine::Lower(x) => x,
            Tine::Point(x) => x,
            Tine::Upper(x) => x,
        }
    }

    /// Returns `true` if the two tines are of one kind and carry the same
    /// bound.
    pub fn same(&self, other: &Self) -> (r: bool)
        ensures
            r == (*self == *other),
    {
        match (self, other) {
            (Tine::Lower(a), Tine::Lower(b)) => a.same(b),
            (Tine::Point(a), Tine::Point(b)) => a.same(b),
            (Tine::Upper(a), Tine::Upper(b)) => a.same(b),
            _ => false,
        }
    }

    /// Returns `true` if `self` stands strictly before `other`.
    pub fn precedes(&self, other: &Self) -> (r: bool)
        requires
            self.valid(),
            other.valid(),
        ensures
            r == self.before(*other),
    {
        proof {
            reveal(Tine::level);
            reveal(Tine::place);
        }
        match (self.as_ref(), other.as_ref()) {
            (Some(l), Some(r)) => l.precedes(r),
            _ => match (self, other) {
                (Tine::Lower(Bound::Infinite), Tine::Lower(Bound::Infinite)) => false,
                (Tine::Upper(Bound::Infinite), Tine::Upper(Bound::Infinite)) => false,
                (Tine::Lower(Bound::Infinite), _) => true,
                (Tine::Upper(Bound::Infinite), _) => false,
                (_, Tine::Upper(Bound::Infinite)) => true,
                _ => false,
            },
        }
    }

    /// Returns `true` if `self` and `other` stand at one place.
    pub fn coincides(&self, other: &Self) -> (r: bool)
        requires
            self.valid(),
            other.valid(),
        ensures
            r == self.same_place(*other),
    {
        proof {
            reveal(Tine::level);
            reveal(Tine::place);
        }
        match (self.as_ref(), other.as_ref()) {
            (Some(l), Some(r)) => l.coincides(r),
            _ => match (self, other) {
                (Tine::Lower(Bound::Infinite), Tine::Lower(Bound::Infinite)) => true,
                (Tine::Upper(Bound::Infinite), Tine::Upper(Bound::Infinite)) => true,
                _ => false,
            },
        }
    }

    /// Merges two tines at one place into the tine of the union of their
    /// sets: inside wherever either is inside. Returns `None` if the two
    /// annihilate, leaving no boundary at the place.
    pub fn union(self, other: &Self) -> (r: Option<Self>)
        requires
            self.valid(),
            other.valid(),
            self.same_place(*other),
        ensures
            r == self.rebuilt(
                self.closes() || other.closes(),
                self.holds() || other.holds(),
                self.opens() || other.opens(),
            ),
    {
        proof {
            reveal(Tine::level);
            reveal(Tine::place);
        }
        match (self, *other) {
            (Tine::Lower(Bound::Include(l)), Tine::Lower(Bound::Exclude(_))) => Some(
                Tine::Lower(Bound::Include(l)),
            ),
            (Tine::Lower(Bound::Exclude(l)), Tine::Lower(Bound::Include(_))) => Some(
                Tine::Lower(Bound::Include(l)),
            ),
            (Tine::Lower(lb), Tine::Lower(_)) => Some(Tine::Lower(lb)),
            (Tine::Lower(Bound::Include(l)), Tine::Point(Bound::Include(_))) => Some(
                Tine::Lower(Bound::Include(l)),
            ),
            (Tine::Lower(Bound::Include(_)), Tine::Point(Bound::Exclude(_))) => None,
            (Tine::Lower(Bound::Exclude(l)), Tine::Point(Bound::Include(_))) => Some(
                Tine::Lower(Bound::Include(l)),
            ),
            (Tine::Lower(Bound::Exclude(l)), Tine::Point(Bound::Exclude(_))) => Some(
                Tine::Point(Bound::Exclude(l)),
            ),
            (Tine::Lower(Bound::Include(_)), Tine::Upper(Bound::Include(_))) => None,
            (Tine::Lower(Bound::Include(_)), Tine::Upper(Bound::Exclude(_))) => None,
            (Tine::Lower(Bound::Exclude(_)), Tine::Upper(Bound::Include(_))) => None,
            (Tine::Lower(Bound::Exclude(l)), Tine::Upper(Bound::Exclude(_))) => Some(
                Tine::Point(Bound::Exclude(l)),
            ),
            (Tine::Point(Bound::Include(l)), Tine::Lower(_)) => Some(
                Tine::Lower(Bound::Include(l)),
            ),
            (Tine::Point(Bound::Include(l)), Tine::Point(Bound::Include(_))) => Some(
                Tine::Point(Bound::Include(l)),
            ),
            (Tine::Point(Bound::Include(l)), Tine::Upper(_)) => Some(
                Tine::Upper(Bound::Include(l)),
            ),
            (Tine::Point(Bound::Include(_)), _) => None,
            (Tine::Point(Bound::Exclude(l)), Tine::Lower(Bound::Exclude(_))) => Some(
                Tine::Point(Bound::Exclude(l)),
            ),
            (Tine::Point(Bound::Exclude(l)), Tine::Point(Bound::Exclude(_))) => Some(
                Tine::Point(Bound::Exclude(l)),
            ),
            (Tine::Point(Bound::Exclude(l)), Tine::Upper(Bound::Exclude(_))) => Some(
                Tine::Point(Bound::Exclude(l)),
            ),
            (Tine::Point(Bound::Exclude(_)), _) => None,
            (Tine::Upper(Bound::Include(_)), Tine::Lower(Bound::Include(_))) => None,
            (Tine::Upper(Bound::Include(_)), Tine::Lower(Bound::Exclude(_))) => None,
            (Tine::Upper(Bound::Exclude(_)), Tine::Lower(Bound::Include(_))) => None,
            (Tine::Upper(Bound::Exclude(l)), Tine::Lower(Bound::Exclude(_))) => Some(
                Tine::Point(Bound::Exclude(l)),
            ),
            (Tine::Upper(Bound::Include(l)), Tine::Point(Bound::Include(_))) => Some(
                Tine::Upper(Bound::Include(l)),
            ),
            (Tine::Upper(Bound::Include(_)), Tine::Point(Bound::Exclude(_))) => None,
            (Tine::Upper(Bound::Exclude(l)), Tine::Point(Bound::Include(_))) => Some(
                Tine::Upper(Bound::Include(l)),
            ),
            (Tine::Upper(Bound::Exclude(l)), Tine::Point(Bound::Exclude(_))) => Some(
                Tine::Point(Bound::Exclude(l)),
            ),
            (Tine::Upper(Bound::Include(l)), Tine::Upper(Bound::Exclude(_))) => Some(
                Tine::Upper(Bound::Include(l)),
            ),
            (Tine::Upper(Bound::Exclude(l)), Tine::Upper(Bound::Include(_))) => Some(
                Tine::Upper(Bound::Include(l)),
            ),
            (Tine::Upper(ub), Tine::Upper(_)) => Some(Tine::Upper(ub)),
            _ => unreached(),
        }
    }

    /// Merges two tines at one place into the tine of the intersection of
    /// their sets: inside only where both are inside. Returns `None` if no
    /// boundary is left at the place.
    pub fn intersect(self, other: &Self) -> (r: Option<Self>)
        requires
            self.valid(),
            other.valid(),
            self.same_place(*other),
        ensures
            r == self.rebuilt(
                self.closes() && other.closes(),
                self.holds() && other.holds(),
                self.opens() && other.opens(),
            ),
    {
        proof {
            reveal(Tine::level);
            reveal(Tine::place);
        }
        match (self, *other) {
            (Tine::Lower(Bound::Include(l)), Tine::Lower(Bound::Exclude(_))) => Some(
                Tine::Lower(Bound::Exclude(l)),
            ),
            (Tine::Lower(Bound::Exclude(l)), Tine::Lower(Bound::Include(_))) => Some(
                Tine::Lower(Bound::Exclude(l)),
            ),
            (Tine::Lower(lb), Tine::Lower(_)) => Some(Tine::Lower(lb)),
            (Tine::Lower(Bound::Include(l)), Tine::Point(Bound::Include(_))) => Some(
                Tine::Point(Bound::Include(l)),
            ),
            (Tine::Lower(Bound::Include(l)), Tine::Point(Bound::Exclude(_))) => Some(
                Tine::Lower(Bound::Exclude(l)),
            ),
            (Tine::Lower(Bound::Exclude(l)), Tine::Point(Bound::Exclude(_))) => Some(
                Tine::Lower(Bound::Exclude(l)),
            ),
            (Tine::Lower(_), Tine::Point(_)) => None,
            (Tine::Lower(Bound::Include(l)), Tine::Upper(Bound::Include(_))) => Some(
                Tine::Point(Bound::Include(l)),
            ),
            (Tine::Lower(_), Tine::Upper(_)) => None,
            (Tine::Point(Bound::Include(l)), Tine::Lower(Bound::Include(_))) => Some(
                Tine::Point(Bound::Include(l)),
            ),
            (Tine::Point(Bound::Include(l)), Tine::Point(Bound::Include(_))) => Some(
                Tine::Point(Bound::Include(l)),
            ),
            (Tine::Point(Bound::Include(l)), Tine::Upper(Bound::Include(_))) => Some(
                Tine::Point(Bound::Include(l)),
            ),
            (Tine::Point(Bound::Include(_)), _) => None,
            (Tine::Point(Bound::Exclude(l)), Tine::Lower(_)) => Some(
                Tine::Lower(Bound::Exclude(l)),
            ),
            (Tine::Point(Bound::Exclude(_)), Tine::Point(Bound::Include(_))) => None,
            (Tine::Point(Bound::Exclude(l)), Tine::Point(Bound::Exclude(_))) => Some(
                Tine::Point(Bound::Exclude(l)),
            ),
            (Tine::Point(Bound::Exclude(l)), Tine::Upper(_)) => Some(
                Tine::Upper(Bound::Exclude(l)),
            ),
            (Tine::Upper(Bound::Include(l)), Tine::Lower(Bound::Include(_))) => Some(
                Tine::Point(Bound::Include(l)),
            ),
            (Tine::Upper(_), Tine::Lower(_)) => None,
            (Tine::Upper(Bound::Include(l)), Tine::Point(Bound::Include(_))) => Some(
                Tine::Point(Bound::Include(l)),
            ),
            (Tine::Upper(Bound::Include(l)), Tine::Point(Bound::Exclude(_))) => Some(
                Tine::Upper(Bound::Exclude(l)),
            ),
            (Tine::Upper(Bound::Exclude(l)), Tine::Point(Bound::Exclude(_))) => Some(
                Tine::Upper(Bound::Exclude(l)),
            ),
            (Tine::Upper(_), Tine::Point(_)) => None,
            (Tine::Upper(Bound::Include(l)), Tine::Upper(Bound::Exclude(_))) => Some(
                Tine::Upper(Bound::Exclude(l)),
            ),
            (Tine::Upper(Bound::Exclude(l)), Tine::Upper(Bound::Include(_))) => Some(
                Tine::Upper(Bound::Exclude(l)),
            ),
            (Tine::Upper(ub), Tine::Upper(_)) => Some(Tine::Upper(ub)),
            _ => unreached(),
        }
    }

    /// Merges two tines at one place into the tine of the difference of
    /// their sets: inside where `self` is inside and `other` is not. Returns
    /// `None` if no boundary is left at the place.
    pub fn minus(self, other: &Self) -> (r: Option<Self>)
        requires
            self.valid(),
            other.valid(),
            self.same_place(*other),
        ensures
            r == self.rebuilt(
                self.closes() && !other.closes(),
                self.holds() && !other.holds(),
                self.opens() && !other.opens(),
            ),
    {
        proof {
            reveal(Tine::level);
            reveal(Tine::place);
        }
        match (self, *other) {
            (Tine::Lower(Bound::Include(l)), Tine::Lower(Bound::Exclude(_))) => Some(
                Tine::Point(Bound::Include(l)),
            ),
            (Tine::Lower(_), Tine::Lower(_)) => None,
            (Tine::Lower(Bound::Include(l)), Tine::Point(Bound::Include(_))) => Some(
                Tine::Lower(Bound::Exclude(l)),
            ),
            (Tine::Lower(Bound::Exclude(l)), Tine::Point(Bound::Include(_))) => Some(
                Tine::Lower(Bound::Exclude(l)),
            ),
            (Tine::Lower(Bound::Include(l)), Tine::Point(Bound::Exclude(_))) => Some(
                Tine::Point(Bound::Include(l)),
            ),
            (Tine::Lower(_), Tine::Point(_)) => None,
            (Tine::Lower(Bound::Include(l)), Tine::Upper(Bound::Include(_))) => Some(
                Tine::Lower(Bound::Exclude(l)),
            ),
            (Tine::Lower(Bound::Include(l)), Tine::Upper(Bound::Exclude(_))) => Some(
                Tine::Lower(Bound::Include(l)),
            ),
            (Tine::Lower(Bound::Exclude(l)), Tine::Upper(Bound::Include(_))) => Some(
                Tine::Lower(Bound::Exclude(l)),
            ),
            (Tine::Lower(Bound::Exclude(l)), Tine::Upper(Bound::Exclude(_))) => Some(
                Tine::Lower(Bound::Exclude(l)),
            ),
            (Tine::Point(Bound::Include(_)), Tine::Lower(Bound::Include(_))) => None,
            (Tine::Point(Bound::Include(_)), Tine::Point(Bound::Include(_))) => None,
            (Tine::Point(Bound::Include(_)), Tine::Upper(Bound::Include(_))) => None,
            (Tine::Point(Bound::Include(l)), _) => Some(Tine::Point(Bound::Include(l))),
            (Tine::Point(Bound::Exclude(l)), Tine::Lower(_)) => Some(
                Tine::Upper(Bound::Exclude(l)),
            ),
            (Tine::Point(Bound::Exclude(l)), Tine::Point(Bound::Include(_))) => Some(
                Tine::Point(Bound::Exclude(l)),
            ),
            (Tine::Point(Bound::Exclude(_)), Tine::Point(Bound::Exclude(_))) => None,
            (Tine::Point(Bound::Exclude(l)), Tine::Upper(_)) => Some(
                Tine::Lower(Bound::Exclude(l)),
            ),
            (Tine::Upper(Bound::Include(l)), Tine::Lower(Bound::Include(_))) => Some(
                Tine::Upper(Bound::Exclude(l)),
            ),
            (Tine::Upper(Bound::Include(l)), Tine::Lower(Bound::Exclude(_))) => Some(
                Tine::Upper(Bound::Include(l)),
            ),
            (Tine::Upper(Bound::Exclude(l)), Tine::Lower(Bound::Include(_))) => Some(
                Tine::Upper(Bound::Exclude(l)),
            ),
            (Tine::Upper(Bound::Exclude(l)), Tine::Lower(Bound::Exclude(_))) => Some(
                Tine::Upper(Bound::Exclude(l)),
            ),
            (Tine::Upper(Bound::Include(l)), Tine::Point(Bound::Include(_))) => Some(
                Tine::Upper(Bound::Exclude(l)),
            ),
            (Tine::Upper(Bound::Exclude(l)), Tine::Point(Bound::Include(_))) => Some(
                Tine::Upper(Bound::Exclude(l)),
            ),
            (Tine::Upper(Bound::Include(l)), Tine::Point(Bound::Exclude(_))) => Some(
                Tine::Point(Bound::Include(l)),
            ),
            (Tine::Upper(_), Tine::Point(_)) => None,
            (Tine::Upper(Bound::Include(l)), Tine::Upper(Bound::Exclude(_))) => Some(
                Tine::Point(Bound::Include(l)),
            ),
            (Tine::Upper(_), Tine::Upper(_)) => None,
            _ => unreached(),
        }
    }

    /// Returns the tine with inside and outside exchanged.
    pub fn invert(self) -> (r: Self)
        requires
            !(self.bound() is Infinite),
        ensures
            Some(r) == self.rebuilt(!self.closes(), !self.holds(), !self.opens()),
    {
        proof {
            reveal(Tine::level);
            reveal(Tine::place);
        }
        match self {
            Tine::Lower(Bound::Include(p)) => Tine::Upper(Bound::Exclude(p)),
            Tine::Lower(Bound::Exclude(p)) => Tine::Upper(Bound::Include(p)),
            Tine::Point(Bound::Include(p)) => Tine::Point(Bound::Exclude(p)),
            Tine::Point(Bound::Exclude(p)) => Tine::Point(Bound::Include(p)),
            Tine::Upper(Bound::Include(p)) => Tine::Lower(Bound::Exclude(p)),
            Tine::Upper(Bound::Exclude(p)) => Tine::Lower(Bound::Include(p)),
            _ => self,
        }
    }
}

} // verus!
