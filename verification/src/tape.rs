//! The number line as a sequence of tines, and the sites that such a
//! sequence covers.
use crate::bound::Bound;
use crate::domain::Domain;
use crate::raw_interval::RawInterval;
use crate::tine::Tine;
use vstd::prelude::*;

verus! {

/// The tines stand in strictly ascending order, so no two stand at one
/// place.
pub open spec fn ascending<T: Domain>(s: Seq<Tine<T>>) -> bool {
    forall|i: int, j: int| 0 <= i < j < s.len() ==> #[trigger] s[i].before(#[trigger] s[j])
}

/// Every tine is valid and the tines ascend.
pub open spec fn ordered<T: Domain>(s: Seq<Tine<T>>) -> bool {
    &&& forall|i: int| 0 <= i < s.len() ==> (#[trigger] s[i]).valid()
    &&& ascending(s)
}

/// Whether the set is inside just before the tine at index `i`, going by
/// the tine before it. With `i` the length, this is the state after the
/// last tine.
pub open spec fn entering<T: Domain>(s: Seq<Tine<T>>, i: int) -> bool {
    0 < i <= s.len() && s[i - 1].opens()
}

/// The sequence is a canonical tape: every tine is valid, the tines ascend,
/// each tine closes exactly what the tine before it opened, and the last
/// tine leaves the set.
#[verifier::opaque]
pub open spec fn canonical<T: Domain>(s: Seq<Tine<T>>) -> bool {
    &&& forall|i: int| 0 <= i < s.len() ==> (#[trigger] s[i]).valid()
    &&& ascending(s)
    &&& forall|i: int| 0 <= i < s.len() ==> (#[trigger] s[i]).closes() == entering(s, i)
    &&& !entering(s, s.len() as int)
}

/// The number of tines that stand at or left of the site `x`.
pub open spec fn cut<T: Domain>(s: Seq<Tine<T>>, x: int) -> int
    decreases s.len(),
{
    if s.len() == 0 {
        0
    } else if !s.last().right_of(x) {
        s.len() as int
    } else {
        cut(s.drop_last(), x)
    }
}

/// Whether the tape covers the site `x`: the last tine at or left of `x`
/// says so.
pub open spec fn covers<T: Domain>(s: Seq<Tine<T>>, x: int) -> bool {
    let k = cut(s, x);
    k > 0 && s[k - 1].says(x)
}

/// The sites that the tape covers.
pub open spec fn points<T: Domain>(s: Seq<Tine<T>>) -> Set<int> {
    Set::new(|x: int| covers(s, x))
}

/// The cut lies between the last tine at or left of `x` and the first tine
/// right of it.
pub proof fn lemma_cut_bounds<T: Domain>(s: Seq<Tine<T>>, x: int)
    ensures
        0 <= cut(s, x) <= s.len(),
        cut(s, x) > 0 ==> !s[cut(s, x) - 1].right_of(x),
        cut(s, x) < s.len() ==> s[cut(s, x)].right_of(x),
    decreases s.len(),
{
    if s.len() > 0 && s.last().right_of(x) {
        lemma_cut_bounds(s.drop_last(), x);
    }
}

/// In an ascending sequence the cut is the only index with a tine at or
/// left of `x` before it and a tine right of `x` at it.
pub proof fn lemma_cut_is<T: Domain>(s: Seq<Tine<T>>, x: int, k: int)
    requires
        ascending(s),
        0 <= k <= s.len(),
        k > 0 ==> !s[k - 1].right_of(x),
        k < s.len() ==> s[k].right_of(x),
    ensures
        cut(s, x) == k,
    decreases s.len(),
{
    if s.len() > 0 {
        if k < s.len() {
            if k < s.len() - 1 {
                assert(s[k].before(s[s.len() - 1]));
            }
            assert(s.last().right_of(x));
            let d = s.drop_last();
            assert forall|i: int, j: int| 0 <= i < j < d.len() implies #[trigger] d[i].before(
                #[trigger] d[j],
            ) by {
                assert(s[i].before(s[j]));
            }
            lemma_cut_is(d, x, k);
        }
    }
}

/// Everything before the cut stands at or left of `x`, everything from the
/// cut on stands right of it.
pub proof fn lemma_cut_sides<T: Domain>(s: Seq<Tine<T>>, x: int)
    requires
        ascending(s),
    ensures
        forall|i: int| 0 <= i < cut(s, x) ==> !(#[trigger] s[i]).right_of(x),
        forall|i: int| cut(s, x) <= i < s.len() ==> (#[trigger] s[i]).right_of(x),
{
    lemma_cut_bounds(s, x);
    let k = cut(s, x);
    assert forall|i: int| 0 <= i < k implies !(#[trigger] s[i]).right_of(x) by {
        if i < k - 1 {
            assert(s[i].before(s[k - 1]));
        }
    }
    assert forall|i: int| k <= i < s.len() implies (#[trigger] s[i]).right_of(x) by {
        if k < i {
            assert(s[k].before(s[i]));
        }
    }
}

/// The tines of a canonical interval form a canonical tape that covers the
/// sites of the interval.
pub proof fn lemma_interval_tape<T: Domain>(interval: RawInterval<T>)
    requires
        interval.wf(),
    ensures
        canonical(Tine::of_interval(interval)),
        forall|x: int| #[trigger] covers(Tine::of_interval(interval), x) == interval.covers(x),
{
    reveal(canonical);
    reveal(Tine::level);
    reveal(Tine::place);
    let s = Tine::of_interval(interval);
    assert forall|x: int| #[trigger] covers(s, x) == interval.covers(x) by {
        lemma_cut_bounds(s, x);
    }
}

/// Whether the site `x` lies in the stretch from the lower tine `l` to the
/// upper tine `u`, ends included as the tines hold them.
pub open spec fn between<T: Domain>(l: Tine<T>, u: Tine<T>, x: int) -> bool {
    &&& !l.right_of(x)
    &&& !u.left_of(x)
    &&& l.on(x) ==> l.holds()
    &&& u.on(x) ==> u.holds()
}

/// A canonical interval of two tines has a lower tine that stands before
/// an upper one, and it covers the sites between the two.
pub proof fn lemma_proper_interval<T: Domain>(interval: RawInterval<T>)
    requires
        interval.wf(),
        Tine::of_interval(interval).len() == 2,
    ensures
        Tine::of_interval(interval)[0] is Lower,
        Tine::of_interval(interval)[1] is Upper,
        Tine::of_interval(interval)[0].valid(),
        Tine::of_interval(interval)[1].valid(),
        Tine::of_interval(interval)[0].before(Tine::of_interval(interval)[1]),
        forall|x: int|
            interval.covers(x) == #[trigger] between(
                Tine::of_interval(interval)[0],
                Tine::of_interval(interval)[1],
                x,
            ),
{
    reveal(Tine::level);
    reveal(Tine::place);
}

/// The tine of a point interval stands at the site of the point.
pub proof fn lemma_point_interval<T: Domain>(interval: RawInterval<T>)
    requires
        Tine::of_interval(interval).len() == 1,
    ensures
        Tine::of_interval(interval)[0] matches Tine::Point(Bound::Include(_)),
        forall|x: int| interval.covers(x) == #[trigger] Tine::of_interval(interval)[0].on(x),
{
    reveal(Tine::level);
    reveal(Tine::place);
}

/// The empty tape covers nothing.
pub proof fn lemma_empty_tape<T: Domain>(s: Seq<Tine<T>>)
    requires
        s.len() == 0,
    ensures
        forall|x: int| !#[trigger] covers(s, x),
{
}

/// A canonical tape is ordered.
pub proof fn lemma_canonical_ordered<T: Domain>(s: Seq<Tine<T>>)
    requires
        canonical(s),
    ensures
        ordered(s),
{
    reveal(canonical);
}

} // verus!
