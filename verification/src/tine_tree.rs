//! Sets of points as ordered tines.
use crate::bound::Bound;
use crate::canon::lemma_empty_set;
use crate::domain::{site, Domain};
use crate::exterior::{
    lemma_exterior_set, lemma_minus_lower, lemma_minus_upper, lemma_not_infinite, lemma_point_set,
    lemma_union_lower, lemma_union_upper, point_mark,
};
use crate::flip::{
    complemented, finite_from, finite_to, lemma_complement, lemma_finite_bound, lemma_finite_part,
};
use crate::hull::{enclosure, hull, lemma_enclosure, lemma_single};
use crate::interior::{
    inner, kept, lemma_interior_set, lemma_intersect_lower, lemma_intersect_upper, past, short,
};
pub use crate::iter::{IntoIter, RawIntervalIter};
use crate::pieces::{
    all_pieces, covered, lemma_covered_step, lemma_met, lemma_pieces_apart, lemma_pieces_cover,
    lemma_pieces_points, lemma_pieces_wf, lemma_walk_step, lie_apart, met,
};
use crate::raw_interval::{ends_within, lemma_upper_le, RawInterval};
use crate::splice::{
    lemma_spliced_index, lemma_spliced_ordered, lemma_spliced_parts, lemma_window_edges,
    lemma_window_states, lone, spliced, tine_at, upper_at, window,
};
use crate::tape::{
    between, canonical, covers, entering, lemma_canonical_ordered, lemma_empty_tape, lemma_interval_tape, lemma_point_interval, lemma_proper_interval, ordered,
    points,
};
use crate::tine::Tine;
use crate::utilities::Split;
use vstd::prelude::*;
use vstd::std_specs::cmp::PartialEqSpecImpl;

verus! {

/// A possibly noncontiguous set of points, kept as the ordered list of the
/// places where the set begins, ends, or has a lone point or a lone gap.
#[derive(Debug)]
pub struct TineTree<T: Domain> {
    tines: Vec<Tine<T>>,
}

impl<T: Domain> TineTree<T> {
    /// The tines of the tree in order.
    pub closed spec fn tines(&self) -> Seq<Tine<T>> {
        self.tines@
    }

    /// The tines form a canonical tape.
    pub open spec fn wf(&self) -> bool {
        canonical(self.tines())
    }

    /// The sites of the set.
    pub open spec fn view(&self) -> Set<int> {
        points(self.tines())
    }

    /// Whether the point `p` belongs to the set.
    pub open spec fn has(&self, p: T) -> bool {
        covers(self.tines(), site(p))
    }

    /// The smallest interval that contains all points of the tree: it
    /// reaches from the first tine to the last.
    pub open spec fn enclosure(&self) -> RawInterval<T> {
        enclosure(self.tines())
    }

    /// Constructs an empty `TineTree`.
    pub fn new() -> (r: Self)
        ensures
            r.wf(),
            r.tines() == Seq::<Tine<T>>::empty(),
    {
        proof {
            reveal(canonical);
        }
        TineTree { tines: Vec::new() }
    }

    /// Constructs a `TineTree` from a `RawInterval`.
    pub fn from_raw_interval(interval: RawInterval<T>) -> (r: Self)
        requires
            interval.wf(),
        ensures
            r.wf(),
            r.tines() == Tine::of_interval(interval),
            r@ == interval@,
    {
        let mut tines: Vec<Tine<T>> = Vec::new();
        match Tine::from_raw_interval(interval) {
            Split::Zero => {},
            Split::One(p) => {
                tines.push(p);
            },
            Split::Two(l, u) => {
                tines.push(l);
                tines.push(u);
            },
        }
        proof {
            lemma_interval_tape(interval);
            assert(tines@ =~= Tine::of_interval(interval));
            assert(points(tines@) =~= interval@);
        }
        TineTree { tines }
    }

    /// Constructs a `TineTree` as the union of the given intervals.
    pub fn from_iter(intervals: Vec<RawInterval<T>>) -> (r: Self)
        requires
            forall|k: int| 0 <= k < intervals@.len() ==> (#[trigger] intervals@[k]).wf(),
        ensures
            r.wf(),
            r@ == covered(intervals@),
    {
        let mut tine_tree = TineTree::new();
        let mut n: usize = 0;
        proof {
            lemma_empty_tape(tine_tree.tines@);
            assert(covered(intervals@.take(0)) =~= Set::<int>::empty());
            assert(tine_tree@ =~= covered(intervals@.take(0)));
        }
        while n < intervals.len()
            invariant
                forall|k: int| 0 <= k < intervals@.len() ==> (#[trigger] intervals@[k]).wf(),
                n <= intervals@.len(),
                tine_tree.wf(),
                tine_tree@ == covered(intervals@.take(n as int)),
            decreases intervals@.len() - n,
        {
            tine_tree.union_in_place(&intervals[n]);
            proof {
                lemma_covered_step(intervals@, n as int);
            }
            n = n + 1;
        }
        proof {
            assert(intervals@.take(n as int) =~= intervals@);
        }
        tine_tree
    }

    /// Returns the lower `Bound` of the `TineTree`, or `None` if the
    /// `TineTree` is empty.
    pub fn lower_bound(&self) -> (r: Option<Bound<T>>)
        ensures
            r == (if self.tines().len() == 0 {
                None
            } else {
                Some(self.tines().first().bound())
            }),
    {
        if self.tines.len() == 0 {
            None
        } else {
            Some(self.tines[0].into_inner())
        }
    }

    /// Returns the upper `Bound` of the `TineTree`, or `None` if the
    /// `TineTree` is empty.
    pub fn upper_bound(&self) -> (r: Option<Bound<T>>)
        ensures
            r == (if self.tines().len() == 0 {
                None
            } else {
                Some(self.tines().last().bound())
            }),
    {
        let n = self.tines.len();
        if n == 0 {
            None
        } else {
            Some(self.tines[n - 1].into_inner())
        }
    }

    /// Returns `true` if the `TineTree` is empty.
    pub fn is_empty(&self) -> (r: bool)
        ensures
            r == (self.tines().len() == 0),
            self.wf() ==> r == (self@ == Set::<int>::empty()),
    {
        proof {
            if self.wf() {
                lemma_empty_set(self.tines@);
            }
        }
        self.tines.len() == 0
    }

    /// Returns `true` if the `TineTree` contains the given point.
    pub fn contains(&self, point: &T) -> (r: bool)
        requires
            self.wf(),
        ensures
            r == self.has(*point),
    {
        let ghost all = all_pieces(self.tines@);
        let ghost x = site(*point);
        let ghost mut n: int = 0;
        let mut intervals = self.iter_intervals();
        loop
            invariant
                self.wf(),
                all == all_pieces(self.tines@),
                x == site(*point),
                intervals.wf(),
                0 <= n <= all.len(),
                intervals@ == all.skip(n),
                forall|k: int| 0 <= k < n ==> !(#[trigger] all[k]).covers(x),
            decreases all.len() - n,
        {
            match intervals.next() {
                Some(interval) => {
                    assert(interval == all[n]);
                    if interval.contains(point) {
                        proof {
                            lemma_pieces_cover(self.tines@, x);
                        }
                        return true;
                    }
                    proof {
                        assert(all.skip(n).drop_first() =~= all.skip(n + 1));
                        n = n + 1;
                    }
                },
                None => {
                    proof {
                        lemma_pieces_cover(self.tines@, x);
                    }
                    return false;
                },
            }
        }
    }

    /// Returns a `TineTree` containing all points not present in the
    /// `TineTree`.
    pub fn complement(&self) -> (r: Self)
        requires
            self.wf(),
        ensures
            r.wf(),
            r@ == self@.complement(),
    {
        let ghost s = self.tines@;
        proof {
            lemma_canonical_ordered(s);
            lemma_finite_part(s);
            lemma_complement(s);
        }
        let n = self.tines.len();
        let mut tines: Vec<Tine<T>> = Vec::new();

        // The complement is unbounded exactly where the set is bounded.
        let from: usize = if n > 0 && is_lower_infinite(&self.tines[0]) {
            1
        } else {
            tines.push(Tine::Lower(Bound::Infinite));
            0
        };
        let to: usize = if n > 0 && is_upper_infinite(&self.tines[n - 1]) {
            n - 1
        } else {
            n
        };

        // Invert all remaining tines.
        let mut i = from;
        while i < to
            invariant
                s == self.tines@,
                ordered(s),
                from == finite_from(s),
                to == finite_to(s),
                from <= i <= to <= s.len(),
                forall|k: int| finite_from(s) <= k < finite_to(s) ==> (#[trigger] s[k]).level() == 0,
                tines@.len() == 1 - from + i - from,
                forall|j: int| 0 <= j < tines@.len() ==> tines@[j] == complemented(s)[j],
            decreases to - i,
        {
            proof {
                assert(s[i as int].level() == 0);
                lemma_finite_bound(s[i as int]);
            }
            tines.push(self.tines[i].invert());
            i = i + 1;
        }
        if to == n {
            tines.push(Tine::Upper(Bound::Infinite));
        }
        proof {
            assert(tines@ =~= complemented(s));
        }
        TineTree { tines }
    }

    /// Returns a `TineTree` containing all points present in both of the
    /// `TineTree`s.
    pub fn intersect(&self, other: &Self) -> (r: Self)
        requires
            self.wf(),
            other.wf(),
        ensures
            r.wf(),
            r@ == self@.intersect(other@),
    {
        let ghost ivs = all_pieces(self.tines@);
        let ghost others = all_pieces(other.tines@);
        let ghost mut n: int = 0;
        let ghost mut m: int = 0;
        let mut intersection = Self::new();
        let mut self_intervals = self.iter_intervals();
        let mut other_intervals = other.iter_intervals();
        let mut self_interval = self_intervals.next();
        let mut other_interval = other_intervals.next();
        proof {
            lemma_pieces_wf(self.tines@);
            lemma_pieces_wf(other.tines@);
            lemma_pieces_points(self.tines@);
            lemma_pieces_points(other.tines@);
            lemma_pieces_apart(self.tines@);
            lemma_pieces_apart(other.tines@);
            lemma_met(ivs, others, 0, 0);
            lemma_empty_tape(intersection.tines@);
            assert(intersection@ =~= Set::<int>::empty());
            if ivs.len() > 0 {
                assert(ivs.drop_first() =~= ivs.skip(1));
            }
            if others.len() > 0 {
                assert(others.drop_first() =~= others.skip(1));
            }
        }
        loop
            invariant
                ivs == all_pieces(self.tines@),
                others == all_pieces(other.tines@),
                forall|k: int| 0 <= k < ivs.len() ==> (#[trigger] ivs[k]).wf() && !(ivs[k] is Empty),
                forall|k: int|
                    0 <= k < others.len() ==> (#[trigger] others[k]).wf() && !(others[k] is Empty),
                covered(ivs) == self@,
                covered(others) == other@,
                lie_apart(ivs),
                lie_apart(others),
                self_intervals.wf(),
                other_intervals.wf(),
                0 <= n <= ivs.len(),
                0 <= m <= others.len(),
                n < ivs.len() ==> self_interval == Some(ivs[n]) && self_intervals@ == ivs.skip(
                    n + 1,
                ),
                n == ivs.len() ==> self_interval.is_none(),
                m < others.len() ==> other_interval == Some(others[m]) && other_intervals@
                    == others.skip(m + 1),
                m == others.len() ==> other_interval.is_none(),
                intersection.wf(),
                intersection@ == met(ivs, others, n, m),
            ensures
                intersection.wf(),
                intersection@ == self@.intersect(other@),
            decreases ivs.len() - n + others.len() - m,
        {
            match (self_interval, other_interval) {
                (Some(a), Some(b)) => {
                    let ghost before = intersection@;
                    let i = a.intersect(&b);
                    if !i.is_empty() {
                        intersection.union_in_place(&i);
                    }
                    proof {
                        assert(intersection@ =~= before.union(a@.intersect(b@)));
                    }
                    // The interval that ends first has met all that it can
                    // meet.
                    let self_first = match (a.upper_bound(), b.upper_bound()) {
                        (Some(ua), Some(ub)) => ends_within(&ua, &ub),
                        _ => true,
                    };
                    if self_first {
                        proof {
                            lemma_upper_le(a.upper().unwrap(), b.upper().unwrap());
                            lemma_walk_step(ivs, others, n, m);
                        }
                        self_interval = self_intervals.next();
                        proof {
                            if self_interval.is_some() {
                                assert(ivs.skip(n + 1).first() == ivs[n + 1]);
                                assert(ivs.skip(n + 1).drop_first() =~= ivs.skip(n + 2));
                            }
                            n = n + 1;
                        }
                    } else {
                        proof {
                            lemma_upper_le(a.upper().unwrap(), b.upper().unwrap());
                            lemma_walk_step(others, ivs, m, n);
                            lemma_met(ivs, others, n, m);
                            lemma_met(ivs, others, n, m + 1);
                            assert(a@.intersect(b@) =~= b@.intersect(a@));
                        }
                        other_interval = other_intervals.next();
                        proof {
                            if other_interval.is_some() {
                                assert(others.skip(m + 1).first() == others[m + 1]);
                                assert(others.skip(m + 1).drop_first() =~= others.skip(m + 2));
                            }
                            m = m + 1;
                        }
                    }
                },
                _ => {
                    proof {
                        lemma_met(ivs, others, n, m);
                    }
                    break;
                },
            }
        }
        intersection
    }

    /// Returns a `TineTree` containing all points present in either of the
    /// `TineTree`s.
    pub fn union(&self, other: &Self) -> (r: Self)
        requires
            self.wf(),
            other.wf(),
        ensures
            r.wf(),
            r@ == self@.union(other@),
    {
        let ghost all = all_pieces(other.tines@);
        let ghost mut n: int = 0;
        let mut union = self.clone();
        let mut intervals = other.iter_intervals();
        proof {
            lemma_pieces_wf(other.tines@);
            lemma_pieces_points(other.tines@);
            if all.len() > 0 {
                lemma_covered_step(all, 0);
            } else {
                assert(covered(all.take(0)) =~= Set::<int>::empty());
                assert(all.take(0) =~= all);
            }
            assert(union@ =~= self@.union(covered(all.take(0))));
            assert(all.skip(0) =~= all);
        }
        loop
            invariant
                self.wf(),
                other.wf(),
                all == all_pieces(other.tines@),
                forall|k: int| 0 <= k < all.len() ==> (#[trigger] all[k]).wf(),
                covered(all) == other@,
                intervals.wf(),
                0 <= n <= all.len(),
                intervals@ == all.skip(n),
                union.wf(),
                union@ == self@.union(covered(all.take(n))),
            ensures
                union.wf(),
                union@ == self@.union(other@),
            decreases all.len() - n,
        {
            match intervals.next() {
                Some(interval) => {
                    assert(interval == all[n]);
                    union.union_in_place(&interval);
                    proof {
                        lemma_covered_step(all, n);
                        assert(union@ =~= self@.union(covered(all.take(n + 1))));
                        assert(all.skip(n).drop_first() =~= all.skip(n + 1));
                        n = n + 1;
                    }
                },
                None => {
                    proof {
                        assert(all.take(n) =~= all);
                    }
                    break;
                },
            }
        }
        union
    }

    /// Returns a `TineTree` containing the points of `self` that are not
    /// in `other`.
    pub fn minus(&self, other: &Self) -> (r: Self)
        requires
            self.wf(),
            other.wf(),
        ensures
            r.wf(),
            r@ == self@.difference(other@),
    {
        let ghost all = all_pieces(other.tines@);
        let ghost mut n: int = 0;
        let mut minus = self.clone();
        let mut intervals = other.iter_intervals();
        proof {
            lemma_pieces_wf(other.tines@);
            lemma_pieces_points(other.tines@);
            if all.len() > 0 {
                lemma_covered_step(all, 0);
            } else {
                assert(covered(all.take(0)) =~= Set::<int>::empty());
                assert(all.take(0) =~= all);
            }
            assert(minus@ =~= self@.difference(covered(all.take(0))));
            assert(all.skip(0) =~= all);
        }
        loop
            invariant
                self.wf(),
                other.wf(),
                all == all_pieces(other.tines@),
                forall|k: int| 0 <= k < all.len() ==> (#[trigger] all[k]).wf(),
                covered(all) == other@,
                intervals.wf(),
                0 <= n <= all.len(),
                intervals@ == all.skip(n),
                minus.wf(),
                minus@ == self@.difference(covered(all.take(n))),
            ensures
                minus.wf(),
                minus@ == self@.difference(other@),
            decreases all.len() - n,
        {
            match intervals.next() {
                Some(interval) => {
                    assert(interval == all[n]);
                    minus.minus_in_place(&interval);
                    proof {
                        lemma_covered_step(all, n);
                        assert(minus@ =~= self@.difference(covered(all.take(n + 1))));
                        assert(all.skip(n).drop_first() =~= all.skip(n + 1));
                        n = n + 1;
                    }
                },
                None => {
                    proof {
                        assert(all.take(n) =~= all);
                    }
                    break;
                },
            }
        }
        minus
    }

    /// Returns the smallest `RawInterval` containing all of the points in
    /// the `TineTree`.
    pub fn enclose(&self) -> (r: RawInterval<T>)
        requires
            self.wf(),
        ensures
            r == self.enclosure(),
            r.wf(),
            r@ == hull(self@),
    {
        proof {
            lemma_enclosure(self.tines@);
        }
        let n = self.tines.len();
        // Early exit if we're enclosing an empty interval.
        if n == 0 {
            return RawInterval::Empty;
        }
        // Early exit if we're enclosing a point interval.
        if n == 1 {
            proof {
                lemma_single(self.tines@);
            }
            return match self.tines[0].as_ref() {
                Some(pt) => RawInterval::Point(*pt),
                None => RawInterval::Empty,
            };
        }
        // Get first and last tines.
        let lb = self.tines[0].into_inner();
        let ub = self.tines[n - 1].into_inner();
        RawInterval::new(lb, ub)
    }

    /// Returns the smallest closed `RawInterval` containing all of the
    /// points in the `TineTree`.
    pub fn closure(&self) -> (r: RawInterval<T>)
        requires
            self.wf(),
        ensures
            r == self.enclosure().closed_form(),
    {
        self.enclose().closure()
    }

    /// Intersects the given interval with the contents of the tree.
    pub fn intersect_in_place(&mut self, interval: &RawInterval<T>)
        requires
            old(self).wf(),
            interval.wf(),
        ensures
            final(self).wf(),
            final(self)@ == old(self)@.intersect(interval@),
    {
        // Early exit if we're intersecting a full interval or are empty.
        if self.tines.len() == 0 || interval.is_full() {
            proof {
                if self.tines@.len() == 0 {
                    lemma_empty_tape(self.tines@);
                }
                assert(self@ =~= old(self)@.intersect(interval@));
            }
            return;
        }
        proof {
            if Tine::of_interval(*interval).len() == 1 {
                lemma_point_interval(*interval);
            }
            if Tine::of_interval(*interval).len() == 2 {
                lemma_proper_interval(*interval);
            }
        }
        match Tine::from_raw_interval(*interval) {
            // Nothing is left of an intersection with the empty interval.
            Split::Zero => {
                *self = TineTree::new();
                proof {
                    lemma_empty_tape(self.tines@);
                }
            },
            // Of an intersection with a point the point is left, or nothing.
            Split::One(Tine::Point(Bound::Include(p))) => {
                if self.contains(&p) {
                    *self = TineTree::from_raw_interval(RawInterval::Point(p));
                    proof {
                        reveal(Tine::level);
                        reveal(Tine::place);
                    }
                } else {
                    *self = TineTree::new();
                    proof {
                        lemma_empty_tape(self.tines@);
                        reveal(Tine::level);
                        reveal(Tine::place);
                    }
                }
            },
            Split::One(_) => {
                assert(false);
            },
            Split::Two(l, u) => self.intersect_proper_interval(l, u),
        }
        assert(self@ =~= old(self)@.intersect(interval@));
    }

    /// Cuts the contents of the tree down to the interval from the lower
    /// tine `l` to the upper tine `u`.
    fn intersect_proper_interval(&mut self, l: Tine<T>, u: Tine<T>)
        requires
            old(self).wf(),
            l is Lower,
            u is Upper,
            l.valid(),
            u.valid(),
            l.before(u),
        ensures
            final(self).wf(),
            forall|x: int|
                #[trigger] covers(final(self).tines(), x) == (covers(old(self).tines(), x)
                    && between(l, u, x)),
    {
        let ghost s = self.tines@;
        proof {
            lemma_canonical_ordered(s);
        }
        let (ts, Ghost(a), Ghost(hi)) = self.interior_split_for_proper_interval(&l, &u);
        let ghost from = past(s, a, l);
        let ghost to = short(s, a, hi, u);
        proof {
            lemma_window_states(s, a, hi, l, u);
            lemma_interior_set(s, a, hi, l, u);
        }

        // The set is inside just before the window if the tine before it
        // opens, and inside just after it if the tine after it closes.
        let open_before = match ts[0] {
            Some(t) => t.is_lower_bound(),
            None => false,
        };
        let closed_after = match ts[5] {
            Some(t) => t.is_upper_bound(),
            None => false,
        };
        assert(open_before == entering(s, a));
        assert(closed_after == entering(s, hi));
        // Both inner tines exist or neither does.
        assert(ts[1].is_some() == ts[4].is_some());

        // A tine at the place of an end merges with it. An end that meets
        // no tine stays if the set covers it.
        let merged_l = match ts[2] {
            Some(lower) => lower.intersect(&l),
            None => if open_before {
                Some(l)
            } else {
                None
            },
        };
        let merged_u = match ts[3] {
            Some(upper) => upper.intersect(&u),
            None => if closed_after {
                Some(u)
            } else {
                None
            },
        };
        proof {
            lemma_intersect_lower(s, a, l, merged_l);
            lemma_intersect_upper(s, a, hi, u, merged_u);
        }
        self.enclose_with(merged_l, merged_u, Ghost(s), Ghost(from), Ghost(to), Ghost(l), Ghost(u));
    }

    /// Unions the given interval with the contents of the tree.
    pub fn union_in_place(&mut self, interval: &RawInterval<T>)
        requires
            old(self).wf(),
            interval.wf(),
        ensures
            final(self).wf(),
            final(self)@ == old(self)@.union(interval@),
    {
        // Early exit if we're unioning a full interval.
        if interval.is_full() {
            *self = TineTree::from_raw_interval(RawInterval::Full);
            assert(self@ =~= old(self)@.union(interval@));
            return;
        }
        proof {
            if Tine::of_interval(*interval).len() == 1 {
                lemma_point_interval(*interval);
            }
            if Tine::of_interval(*interval).len() == 2 {
                lemma_proper_interval(*interval);
            }
        }
        match Tine::from_raw_interval(*interval) {
            Split::Zero => {},
            Split::One(p) => self.union_point_interval(p),
            Split::Two(l, u) => self.union_proper_interval(l, u),
        }
        assert(self@ =~= old(self)@.union(interval@));
    }

    /// Unions the point of the tine `p` with the contents of the tree.
    fn union_point_interval(&mut self, p: Tine<T>)
        requires
            old(self).wf(),
            p matches Tine::Point(Bound::Include(_)),
        ensures
            final(self).wf(),
            forall|x: int|
                #[trigger] covers(final(self).tines(), x) == (covers(old(self).tines(), x) || p.on(
                    x,
                )),
    {
        let ghost s = self.tines@;
        proof {
            lemma_canonical_ordered(s);
        }
        let (ts, Ghost(a), Ghost(hi)) = self.exterior_split_for_point_interval(&p);
        proof {
            lemma_window_states(s, a, hi, p, p);
            lemma_point_set(s, a, hi, p, true);
        }

        // A tine at the place merges with the point. Where no tine stands,
        // the point is new unless it lies inside an interval.
        let merged = match ts[1] {
            Some(pt) => pt.union(&p),
            None => {
                let open_before = match ts[0] {
                    Some(t) => t.is_lower_bound(),
                    None => false,
                };
                if open_before {
                    None
                } else {
                    Some(p)
                }
            },
        };
        assert(merged == point_mark(s, a, p, true));
        self.put_back(merged, Ghost(s), Ghost(a), Ghost(hi), Ghost(Seq::empty()), Ghost(p), Ghost(p));
        assert(Seq::<Tine<T>>::empty() + lone(merged) =~= lone(merged));
    }

    /// Unions the interval from the lower tine `l` to the upper tine `u`
    /// with the contents of the tree.
    fn union_proper_interval(&mut self, l: Tine<T>, u: Tine<T>)
        requires
            old(self).wf(),
            l is Lower,
            u is Upper,
            l.valid(),
            u.valid(),
            l.before(u),
        ensures
            final(self).wf(),
            forall|x: int|
                #[trigger] covers(final(self).tines(), x) == (covers(old(self).tines(), x)
                    || between(l, u, x)),
    {
        let ghost s = self.tines@;
        proof {
            lemma_canonical_ordered(s);
        }
        let (ts, Ghost(a), Ghost(hi)) = self.exterior_split_for_proper_interval(&l, &u);
        proof {
            lemma_window_states(s, a, hi, l, u);
            lemma_exterior_set(s, a, hi, l, u, true);
        }

        // The set is inside just before the window if the tine before it
        // opens, and inside just after it if the tine after it closes.
        let open_before = match ts[0] {
            Some(t) => t.is_lower_bound(),
            None => false,
        };
        let closed_after = match ts[3] {
            Some(t) => t.is_upper_bound(),
            None => false,
        };
        assert(open_before == entering(s, a));
        assert(closed_after == entering(s, hi));

        // A tine at the place of an end merges with it. An end that meets
        // no tine stays unless the set already covers it.
        let merged_l = match ts[1] {
            Some(lower) => lower.union(&l),
            None => if open_before {
                None
            } else {
                Some(l)
            },
        };
        let merged_u = match ts[2] {
            Some(upper) => upper.union(&u),
            None => if closed_after {
                None
            } else {
                Some(u)
            },
        };
        proof {
            lemma_union_lower(s, a, l, merged_l);
            lemma_union_upper(s, a, hi, u, merged_u);
        }
        self.restore(merged_l, merged_u, Ghost(s), Ghost(a), Ghost(hi), Ghost(l), Ghost(u));
    }

    /// Minuses the given interval from the contents of the tree.
    pub fn minus_in_place(&mut self, interval: &RawInterval<T>)
        requires
            old(self).wf(),
            interval.wf(),
        ensures
            final(self).wf(),
            final(self)@ == old(self)@.difference(interval@),
    {
        // Early exit if we're minusing an empty interval or are empty.
        if self.tines.len() == 0 || interval.is_empty() {
            proof {
                if self.tines@.len() == 0 {
                    lemma_empty_tape(self.tines@);
                }
                assert(self@ =~= old(self)@.difference(interval@));
            }
            return;
        }
        // Early exit if we're minusing a full interval.
        if interval.is_full() {
            *self = TineTree::new();
            proof {
                lemma_empty_tape(self.tines@);
                assert(self@ =~= old(self)@.difference(interval@));
            }
            return;
        }
        proof {
            if Tine::of_interval(*interval).len() == 1 {
                lemma_point_interval(*interval);
            }
            if Tine::of_interval(*interval).len() == 2 {
                lemma_proper_interval(*interval);
            }
        }
        match Tine::from_raw_interval(*interval) {
            Split::Zero => {},
            Split::One(p) => self.minus_point_interval(p),
            Split::Two(l, u) => self.minus_proper_interval(l, u),
        }
        assert(self@ =~= old(self)@.difference(interval@));
    }

    /// Takes the point of the tine `p` from the contents of the tree.
    fn minus_point_interval(&mut self, p: Tine<T>)
        requires
            old(self).wf(),
            p matches Tine::Point(Bound::Include(_)),
        ensures
            final(self).wf(),
            forall|x: int|
                #[trigger] covers(final(self).tines(), x) == (covers(old(self).tines(), x) && !p.on(
                    x,
                )),
    {
        let ghost s = self.tines@;
        proof {
            lemma_canonical_ordered(s);
        }
        let (ts, Ghost(a), Ghost(hi)) = self.exterior_split_for_point_interval(&p);
        proof {
            lemma_window_states(s, a, hi, p, p);
            lemma_point_set(s, a, hi, p, false);
        }

        // A tine at the place merges with the point. Where no tine stands,
        // a point inside an interval leaves a puncture.
        let merged = match ts[1] {
            Some(pt) => pt.minus(&p),
            None => {
                let open_before = match ts[0] {
                    Some(t) => t.is_lower_bound(),
                    None => false,
                };
                if open_before {
                    Some(p.invert())
                } else {
                    None
                }
            },
        };
        assert(merged == point_mark(s, a, p, false));
        self.put_back(merged, Ghost(s), Ghost(a), Ghost(hi), Ghost(Seq::empty()), Ghost(p), Ghost(p));
        assert(Seq::<Tine<T>>::empty() + lone(merged) =~= lone(merged));
    }

    /// Takes the interval from the lower tine `l` to the upper tine `u`
    /// from the contents of the tree.
    fn minus_proper_interval(&mut self, l: Tine<T>, u: Tine<T>)
        requires
            old(self).wf(),
            l is Lower,
            u is Upper,
            l.valid(),
            u.valid(),
            l.before(u),
        ensures
            final(self).wf(),
            forall|x: int|
                #[trigger] covers(final(self).tines(), x) == (covers(old(self).tines(), x)
                    && !between(l, u, x)),
    {
        let ghost s = self.tines@;
        proof {
            lemma_canonical_ordered(s);
        }
        let (ts, Ghost(a), Ghost(hi)) = self.exterior_split_for_proper_interval(&l, &u);
        proof {
            lemma_window_states(s, a, hi, l, u);
            lemma_exterior_set(s, a, hi, l, u, false);
        }

        // The set is inside just before the window if the tine before it
        // opens, and inside just after it if the tine after it closes.
        let open_before = match ts[0] {
            Some(t) => t.is_lower_bound(),
            None => false,
        };
        let closed_after = match ts[3] {
            Some(t) => t.is_upper_bound(),
            None => false,
        };
        assert(open_before == entering(s, a));
        assert(closed_after == entering(s, hi));
        proof {
            if a > 0 {
                lemma_not_infinite(s[a - 1], l);
            }
            if hi < s.len() {
                lemma_not_infinite(u, s[hi]);
            }
        }

        // A tine at the place of an end merges with it. An end that meets
        // no tine ends or begins what is left of the interval around it.
        let merged_l = match ts[1] {
            Some(lower) => lower.minus(&l),
            None => if open_before {
                Some(l.invert())
            } else {
                None
            },
        };
        let merged_u = match ts[2] {
            Some(upper) => upper.minus(&u),
            None => if closed_after {
                Some(u.invert())
            } else {
                None
            },
        };
        proof {
            lemma_minus_lower(s, a, l, merged_l);
            lemma_minus_upper(s, a, hi, u, merged_u);
        }
        self.restore(merged_l, merged_u, Ghost(s), Ghost(a), Ghost(hi), Ghost(l), Ghost(u));
    }

    /// Cuts the tree down to the tines strictly between `lower` and
    /// `upper`. Returns the last tine before `lower`, the first tine
    /// strictly inside, the tine at the place of `lower`, the tine at the
    /// place of `upper`, the last tine strictly inside, and the first tine
    /// after `upper`, each if there is one.
    fn interior_split_for_proper_interval(&mut self, lower: &Tine<T>, upper: &Tine<T>) -> (r: (
        [Option<Tine<T>>; 6],
        Ghost<int>,
        Ghost<int>,
    ))
        requires
            ordered(old(self).tines()),
            lower.valid(),
            upper.valid(),
            lower.before(*upper),
        ensures
            window(old(self).tines(), r.1@, r.2@, *lower, *upper),
            final(self).tines() == old(self).tines().subrange(
                past(old(self).tines(), r.1@, *lower),
                short(old(self).tines(), r.1@, r.2@, *upper),
            ),
            past(old(self).tines(), r.1@, *lower) <= short(old(self).tines(), r.1@, r.2@, *upper),
            r.0[0] == (if r.1@ > 0 {
                Some(old(self).tines()[r.1@ - 1])
            } else {
                None
            }),
            r.0[1] == (if final(self).tines().len() > 0 {
                Some(final(self).tines().first())
            } else {
                None
            }),
            r.0[2] == tine_at(old(self).tines(), r.1@, *lower),
            r.0[3] == upper_at(old(self).tines(), r.1@, r.2@, *upper),
            r.0[4] == (if final(self).tines().len() > 0 {
                Some(final(self).tines().last())
            } else {
                None
            }),
            r.0[5] == (if r.2@ < old(self).tines().len() {
                Some(old(self).tines()[r.2@])
            } else {
                None
            }),
    {
        let a = self.count_before(lower);
        let hi = self.count_through(upper);
        proof {
            if hi < a {
                assert(self.tines@[hi as int].before(*lower));
                assert(upper.before(self.tines@[hi as int]));
            }
            reveal(window);
            assert(window(self.tines@, a as int, hi as int, *lower, *upper));
        }
        let n = self.tines.len();
        let before = if a > 0 {
            Some(self.tines[a - 1])
        } else {
            None
        };
        let at_lower = if a < n && self.tines[a].coincides(lower) {
            Some(self.tines[a])
        } else {
            None
        };
        let at_upper = if a < hi && self.tines[hi - 1].coincides(upper) {
            Some(self.tines[hi - 1])
        } else {
            None
        };
        let after = if hi < n {
            Some(self.tines[hi])
        } else {
            None
        };
        let from = if at_lower.is_some() {
            a + 1
        } else {
            a
        };
        let to = if at_upper.is_some() {
            hi - 1
        } else {
            hi
        };
        proof {
            reveal(Tine::level);
            reveal(Tine::place);
            if at_lower.is_some() && at_upper.is_some() && from > to {
                assert(self.tines@[a as int].same_place(*upper));
            }
            if at_lower.is_some() && hi <= a {
                assert(upper.before(self.tines@[a as int]));
            }
        }
        let first_inside = if from < to {
            Some(self.tines[from])
        } else {
            None
        };
        let last_inside = if from < to {
            Some(self.tines[to - 1])
        } else {
            None
        };
        let right_side = self.tines.split_off(to);
        let center = self.tines.split_off(from);
        self.tines = center;
        proof {
            assert(self.tines@ =~= old(self).tines().subrange(from as int, to as int));
        }
        (
            [before, first_inside, at_lower, at_upper, last_inside, after],
            Ghost(a as int),
            Ghost(hi as int),
        )
    }

    /// Takes the tine at the place of `tine` out of the tree. Returns the
    /// last tine before the place, the tine at the place, and the first
    /// tine after it, each if there is one.
    fn exterior_split_for_point_interval(&mut self, tine: &Tine<T>) -> (r: (
        [Option<Tine<T>>; 3],
        Ghost<int>,
        Ghost<int>,
    ))
        requires
            ordered(old(self).tines()),
            tine.valid(),
        ensures
            window(old(self).tines(), r.1@, r.2@, *tine, *tine),
            final(self).tines() == spliced(old(self).tines(), r.1@, r.2@, Seq::empty()),
            r.2@ == r.1@ + (if r.0[1].is_some() {
                1int
            } else {
                0int
            }),
            r.0[0] == (if r.1@ > 0 {
                Some(old(self).tines()[r.1@ - 1])
            } else {
                None
            }),
            r.0[1] == tine_at(old(self).tines(), r.1@, *tine),
            r.0[2] == (if r.2@ < old(self).tines().len() {
                Some(old(self).tines()[r.2@])
            } else {
                None
            }),
    {
        let a = self.count_before(tine);
        let n = self.tines.len();
        let at = if a < n && self.tines[a].coincides(tine) {
            Some(self.tines[a])
        } else {
            None
        };
        let hi = if at.is_some() {
            a + 1
        } else {
            a
        };
        proof {
            reveal(window);
            assert forall|i: int| hi <= i < n implies tine.before(#[trigger] self.tines@[i]) by {
                reveal(Tine::level);
                reveal(Tine::place);
                if a < i {
                    assert(self.tines@[a as int].before(self.tines@[i]));
                }
            }
            assert(window(self.tines@, a as int, hi as int, *tine, *tine));
        }
        let before = if a > 0 {
            Some(self.tines[a - 1])
        } else {
            None
        };
        let after = if hi < n {
            Some(self.tines[hi])
        } else {
            None
        };
        let mut right_side = self.tines.split_off(hi);
        self.tines.truncate(a);
        self.tines.append(&mut right_side);
        proof {
            lemma_spliced_parts(old(self).tines(), a as int, hi as int, Seq::empty());
            assert(self.tines@ =~= spliced(old(self).tines(), a as int, hi as int, Seq::empty()));
        }
        ([before, at, after], Ghost(a as int), Ghost(hi as int))
    }

    /// Takes the tines from `lower` to `upper` out of the tree. Returns the
    /// last tine before `lower`, the tine at the place of `lower`, the tine
    /// at the place of `upper`, and the first tine after `upper`, each if
    /// there is one. The tines strictly between the two are dropped.
    fn exterior_split_for_proper_interval(&mut self, lower: &Tine<T>, upper: &Tine<T>) -> (r: (
        [Option<Tine<T>>; 4],
        Ghost<int>,
        Ghost<int>,
    ))
        requires
            ordered(old(self).tines()),
            lower.valid(),
            upper.valid(),
            lower.before(*upper),
        ensures
            window(old(self).tines(), r.1@, r.2@, *lower, *upper),
            final(self).tines() == spliced(old(self).tines(), r.1@, r.2@, Seq::empty()),
            r.0[0] == (if r.1@ > 0 {
                Some(old(self).tines()[r.1@ - 1])
            } else {
                None
            }),
            r.0[1] == tine_at(old(self).tines(), r.1@, *lower),
            r.0[2] == (if r.1@ < r.2@ {
                tine_at(old(self).tines(), r.2@ - 1, *upper)
            } else {
                None
            }),
            r.0[3] == (if r.2@ < old(self).tines().len() {
                Some(old(self).tines()[r.2@])
            } else {
                None
            }),
    {
        let a = self.count_before(lower);
        let hi = self.count_through(upper);
        proof {
            if hi < a {
                assert(self.tines@[hi as int].before(*lower));
                assert(upper.before(self.tines@[hi as int]));
            }
            reveal(window);
            assert(window(self.tines@, a as int, hi as int, *lower, *upper));
        }
        let n = self.tines.len();
        let before = if a > 0 {
            Some(self.tines[a - 1])
        } else {
            None
        };
        let at_lower = if a < n && self.tines[a].coincides(lower) {
            Some(self.tines[a])
        } else {
            None
        };
        let at_upper = if a < hi && self.tines[hi - 1].coincides(upper) {
            Some(self.tines[hi - 1])
        } else {
            None
        };
        let after = if hi < n {
            Some(self.tines[hi])
        } else {
            None
        };
        let mut right_side = self.tines.split_off(hi);
        self.tines.truncate(a);
        self.tines.append(&mut right_side);
        proof {
            lemma_spliced_parts(old(self).tines(), a as int, hi as int, Seq::empty());
            assert(self.tines@ =~= spliced(old(self).tines(), a as int, hi as int, Seq::empty()));
        }
        ([before, at_lower, at_upper, after], Ghost(a as int), Ghost(hi as int))
    }

    /// The number of tines that stand strictly before `tine`.
    fn count_before(&self, tine: &Tine<T>) -> (k: usize)
        requires
            ordered(self.tines()),
            tine.valid(),
        ensures
            k <= self.tines().len(),
            forall|i: int| 0 <= i < k ==> (#[trigger] self.tines()[i]).before(*tine),
            forall|i: int| k <= i < self.tines().len() ==> !(#[trigger] self.tines()[i]).before(*tine),
    {
        let mut k: usize = 0;
        while k < self.tines.len() && self.tines[k].precedes(tine)
            invariant
                k <= self.tines@.len(),
                ordered(self.tines@),
                tine.valid(),
                forall|i: int| 0 <= i < k ==> (#[trigger] self.tines@[i]).before(*tine),
            decreases self.tines@.len() - k,
        {
            k = k + 1;
        }
        proof {
            reveal(Tine::level);
            reveal(Tine::place);
            assert forall|i: int| k <= i < self.tines@.len() implies !(
            #[trigger] self.tines@[i]).before(*tine) by {
                if k < i {
                    assert(self.tines@[k as int].before(self.tines@[i]));
                }
            }
        }
        k
    }

    /// The number of tines that stand before or at the place of `tine`.
    fn count_through(&self, tine: &Tine<T>) -> (k: usize)
        requires
            ordered(self.tines()),
            tine.valid(),
        ensures
            k <= self.tines().len(),
            forall|i: int| 0 <= i < k ==> !tine.before(#[trigger] self.tines()[i]),
            forall|i: int| k <= i < self.tines().len() ==> tine.before(#[trigger] self.tines()[i]),
    {
        let b = self.count_before(tine);
        let k = if b < self.tines.len() && self.tines[b].coincides(tine) {
            b + 1
        } else {
            b
        };
        proof {
            reveal(Tine::level);
            reveal(Tine::place);
            assert forall|i: int| k <= i < self.tines@.len() implies tine.before(
                #[trigger] self.tines@[i],
            ) by {
                if b < i {
                    assert(self.tines@[b as int].before(self.tines@[i]));
                }
            }
        }
        k
    }

    /// Puts `tine` at its place in the order. No tine may stand there yet.
    fn insert(&mut self, tine: Tine<T>) -> (k: Ghost<int>)
        requires
            ordered(old(self).tines()),
            tine.valid(),
            forall|i: int|
                0 <= i < old(self).tines().len() ==> !(#[trigger] old(self).tines()[i]).same_place(
                    tine,
                ),
        ensures
            0 <= k@ <= old(self).tines().len(),
            forall|i: int| 0 <= i < k@ ==> (#[trigger] old(self).tines()[i]).before(tine),
            forall|i: int| k@ <= i < old(self).tines().len() ==> tine.before(#[trigger] old(self).tines()[i]),
            final(self).tines() == old(self).tines().insert(k@, tine),
    {
        let k = self.count_before(&tine);
        proof {
            reveal(Tine::level);
            reveal(Tine::place);
            assert forall|i: int| k <= i < self.tines@.len() implies tine.before(
                #[trigger] self.tines@[i],
            ) by {
                assert(!self.tines@[i].before(tine));
                assert(!self.tines@[i].same_place(tine));
            }
        }
        self.tines.insert(k, tine);
        Ghost(k as int)
    }

    /// Puts the tine `x`, if there is one, back into the window that a
    /// split has cleared, behind the tines `mid` that were put back before.
    fn put_back(
        &mut self,
        x: Option<Tine<T>>,
        Ghost(s): Ghost<Seq<Tine<T>>>,
        Ghost(a): Ghost<int>,
        Ghost(hi): Ghost<int>,
        Ghost(mid): Ghost<Seq<Tine<T>>>,
        Ghost(l): Ghost<Tine<T>>,
        Ghost(u): Ghost<Tine<T>>,
    )
        requires
            ordered(s),
            window(s, a, hi, l, u),
            ordered(mid),
            forall|j: int| 0 <= j < mid.len() ==> !(#[trigger] mid[j]).before(l) && !u.before(mid[j]),
            old(self).tines() == spliced(s, a, hi, mid),
            match x {
                Some(t) => {
                    &&& t.valid()
                    &&& !t.before(l)
                    &&& !u.before(t)
                    &&& forall|j: int| 0 <= j < mid.len() ==> (#[trigger] mid[j]).before(t)
                },
                None => true,
            },
        ensures
            final(self).tines() == spliced(s, a, hi, mid + lone(x)),
            ordered(mid + lone(x)),
            forall|j: int|
                0 <= j < (mid + lone(x)).len() ==> !(#[trigger] (mid + lone(x))[j]).before(l) && !u.before(
                    (mid + lone(x))[j],
                ),
    {
        match x {
            Some(t) => {
                proof {
                    lemma_window_edges(s, a, hi, l, u);
                    lemma_spliced_ordered(s, a, hi, mid, l, u);
                    lemma_spliced_index(s, a, hi, mid);
                    reveal(window);
                    reveal(Tine::level);
                    reveal(Tine::place);
                }
                let k = self.insert(t);
                proof {
                    let n = mid.len() as int;
                    let cur = spliced(s, a, hi, mid);
                    if k@ < a + n {
                        assert(t.before(cur[k@]));
                        if k@ < a {
                            assert(s[k@].before(l));
                        } else {
                            assert(mid[k@ - a].before(t));
                        }
                        assert(false);
                    }
                    if k@ > a + n {
                        assert(cur[a + n].before(t));
                        assert(u.before(s[hi]));
                        assert(false);
                    }
                    assert(mid + lone(x) =~= mid.push(t));
                    assert(cur.insert(k@, t) =~= spliced(s, a, hi, mid.push(t)));
                    let m2 = mid.push(t);
                    assert forall|i: int, j: int| 0 <= i < j < m2.len() implies #[trigger] m2[i].before(
                        #[trigger] m2[j],
                    ) by {
                        if j < n {
                            assert(mid[i].before(mid[j]));
                        } else {
                            assert(mid[i].before(t));
                        }
                    }
                }
            },
            None => {
                proof {
                    assert(mid + lone(x) =~= mid);
                }
            },
        }
    }

    /// Puts what marks the two ends of a stretch into the window that a
    /// split has cleared.
    fn restore(
        &mut self,
        xl: Option<Tine<T>>,
        xu: Option<Tine<T>>,
        Ghost(s): Ghost<Seq<Tine<T>>>,
        Ghost(a): Ghost<int>,
        Ghost(hi): Ghost<int>,
        Ghost(l): Ghost<Tine<T>>,
        Ghost(u): Ghost<Tine<T>>,
    )
        requires
            ordered(s),
            window(s, a, hi, l, u),
            l.before(u),
            old(self).tines() == spliced(s, a, hi, Seq::empty()),
            match xl {
                Some(t) => t.valid() && t.same_place(l),
                None => true,
            },
            match xu {
                Some(t) => t.valid() && t.same_place(u),
                None => true,
            },
        ensures
            final(self).tines() == spliced(s, a, hi, lone(xl) + lone(xu)),
    {
        proof {
            lemma_window_edges(s, a, hi, l, u);
            assert(Seq::<Tine<T>>::empty() + lone(xl) =~= lone(xl));
            assert(l.valid() && u.valid()) by {
                reveal(window);
            }
        }
        self.put_back(xl, Ghost(s), Ghost(a), Ghost(hi), Ghost(Seq::empty()), Ghost(l), Ghost(u));
        self.put_back(xu, Ghost(s), Ghost(a), Ghost(hi), Ghost(lone(xl)), Ghost(l), Ghost(u));
    }

    /// Puts what marks the two ends of a stretch around the tines that an
    /// interior split has kept.
    fn enclose_with(
        &mut self,
        xl: Option<Tine<T>>,
        xu: Option<Tine<T>>,
        Ghost(s): Ghost<Seq<Tine<T>>>,
        Ghost(a): Ghost<int>,
        Ghost(hi): Ghost<int>,
        Ghost(l): Ghost<Tine<T>>,
        Ghost(u): Ghost<Tine<T>>,
    )
        requires
            ordered(s),
            inner(s, a, hi, l, u),
            old(self).tines() == s.subrange(a, hi),
            match xl {
                Some(t) => t.valid() && t.same_place(l),
                None => true,
            },
            match xu {
                Some(t) => t.valid() && t.same_place(u),
                None => true,
            },
        ensures
            final(self).tines() == kept(s, a, hi, xl, xu),
    {
        proof {
            reveal(inner);
        }
        let ghost mid = self.tines@;
        assert forall|i: int, j: int| 0 <= i < j < mid.len() implies #[trigger] mid[i].before(
            #[trigger] mid[j],
        ) by {
            assert(s[i + a].before(s[j + a]));
        }
        match xl {
            Some(t) => {
                let k = self.insert(t);
                proof {
                    if k@ > 0 {
                        assert(mid[0].before(t));
                        assert(l.before(s[a]));
                        assert(false);
                    }
                }
            },
            None => {},
        }
        let ghost mid2 = self.tines@;
        assert(mid2 =~= lone(xl) + mid);
        assert forall|i: int, j: int| 0 <= i < j < mid2.len() implies #[trigger] mid2[i].before(
            #[trigger] mid2[j],
        ) by {
            if xl.is_some() {
                if i > 0 {
                    assert(mid[i - 1].before(mid[j - 1]));
                } else {
                    assert(l.before(s[j - 1 + a]));
                }
            } else {
                assert(mid[i].before(mid[j]));
            }
        }
        match xu {
            Some(t) => {
                proof {
                    assert forall|i: int| 0 <= i < mid2.len() implies !(#[trigger] mid2[i]).same_place(
                        t,
                    ) by {
                        if xl.is_some() && i == 0 {
                        } else {
                            let j = i - lone(xl).len() + a;
                            assert(s[j].before(u));
                        }
                    }
                }
                let k = self.insert(t);
                proof {
                    if k@ < mid2.len() {
                        assert(t.before(mid2[k@]));
                        if xl.is_some() && k@ == 0 {
                        } else {
                            let j = k@ - lone(xl).len() + a;
                            assert(s[j].before(u));
                        }
                        assert(false);
                    }
                }
            },
            None => {},
        }
        assert(self.tines@ =~= kept(s, a, hi, xl, xu));
    }

    /// Returns a walk over the intervals of the tree in ascending order.
    pub fn iter_intervals(&self) -> (r: RawIntervalIter<'_, T>)
        requires
            self.wf(),
        ensures
            r.wf(),
            r.tape() == self.tines(),
            r@ == all_pieces(self.tines()),
    {
        RawIntervalIter::over(&self.tines)
    }

    /// Turns the tree into a walk over its intervals in ascending order.
    pub fn into_iter(self) -> (r: IntoIter<T>)
        requires
            self.wf(),
        ensures
            r.wf(),
            r.tape() == self.tines(),
            r@ == all_pieces(self.tines()),
    {
        IntoIter::over(self.tines)
    }
}

/// Returns `true` if the tine is the lower infinity.
fn is_lower_infinite<T: Domain>(tine: &Tine<T>) -> (r: bool)
    ensures
        r == (*tine == Tine::<T>::Lower(Bound::Infinite)),
{
    match tine {
        Tine::Lower(Bound::Infinite) => true,
        _ => false,
    }
}

/// Returns `true` if the tine is the upper infinity.
fn is_upper_infinite<T: Domain>(tine: &Tine<T>) -> (r: bool)
    ensures
        r == (*tine == Tine::<T>::Upper(Bound::Infinite)),
{
    match tine {
        Tine::Upper(Bound::Infinite) => true,
        _ => false,
    }
}

impl<T: Domain> PartialEq for TineTree<T> {
    /// Two trees are equal if they hold the same tines.
    fn eq(&self, other: &Self) -> (r: bool) {
        if self.tines.len() != other.tines.len() {
            return false;
        }
        let mut i: usize = 0;
        while i < self.tines.len()
            invariant
                self.tines@.len() == other.tines@.len(),
                i <= self.tines@.len(),
                forall|k: int| 0 <= k < i ==> self.tines@[k] == other.tines@[k],
            decreases self.tines@.len() - i,
        {
            if !self.tines[i].same(&other.tines[i]) {
                return false;
            }
            i = i + 1;
        }
        proof {
            assert(self.tines@ =~= other.tines@);
        }
        true
    }
}

impl<T: Domain> PartialEqSpecImpl for TineTree<T> {
    open spec fn obeys_eq_spec() -> bool {
        true
    }

    open spec fn eq_spec(&self, other: &Self) -> bool {
        self.tines() == other.tines()
    }
}

impl<T: Domain> Eq for TineTree<T> {

}

impl<T: Domain> Clone for TineTree<T> {
    fn clone(&self) -> (r: Self)
        ensures
            r.tines() == self.tines(),
    {
        let mut tines: Vec<Tine<T>> = Vec::new();
        let mut i: usize = 0;
        while i < self.tines.len()
            invariant
                i <= self.tines@.len(),
                tines@ == self.tines@.subrange(0, i as int),
            decreases self.tines@.len() - i,
        {
            tines.push(self.tines[i]);
            i = i + 1;
            assert(tines@ =~= self.tines@.subrange(0, i as int));
        }
        assert(tines@ =~= self.tines@);
        TineTree { tines }
    }
}

impl<T: Domain> Default for TineTree<T> {
    fn default() -> (r: Self)
        ensures
            r.tines() == Seq::<Tine<T>>::empty(),
    {
        TineTree::new()
    }
}

} // verus!
