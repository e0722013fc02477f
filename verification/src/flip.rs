//! The tape of the complement.
use crate::bound::Bound;
use crate::canon::lemma_place_even;
use crate::domain::Domain;
use crate::tape::{
    canonical, covers, cut, entering, lemma_cut_bounds, lemma_cut_is, ordered, points,
};
use crate::tine::Tine;
use vstd::prelude::*;

verus! {

/// The tine with inside and outside exchanged.
pub open spec fn flipped<T: Domain>(t: Tine<T>) -> Tine<T> {
    match t.rebuilt(!t.closes(), !t.holds(), !t.opens()) {
        Some(r) => r,
        None => t,
    }
}

/// The tape begins at the lower infinity.
pub open spec fn from_below<T: Domain>(s: Seq<Tine<T>>) -> bool {
    s.len() > 0 && s.first() == Tine::<T>::Lower(Bound::Infinite)
}

/// The tape ends at the upper infinity.
pub open spec fn to_above<T: Domain>(s: Seq<Tine<T>>) -> bool {
    s.len() > 0 && s.last() == Tine::<T>::Upper(Bound::Infinite)
}

/// The index of the first finite tine of a canonical tape.
pub open spec fn finite_from<T: Domain>(s: Seq<Tine<T>>) -> int {
    if from_below(s) {
        1
    } else {
        0
    }
}

/// The index behind the last finite tine of a canonical tape.
pub open spec fn finite_to<T: Domain>(s: Seq<Tine<T>>) -> int {
    if to_above(s) {
        s.len() - 1
    } else {
        s.len() as int
    }
}

/// The tape of the complement: every finite tine flipped, and an infinite
/// end exactly where the tape has none.
pub open spec fn complemented<T: Domain>(s: Seq<Tine<T>>) -> Seq<Tine<T>> {
    let pre = 1 - finite_from(s);
    let fin = finite_to(s) - finite_from(s);
    let post: int = if to_above(s) {
        0
    } else {
        1
    };
    Seq::new(
        (pre + fin + post) as nat,
        |j: int|
            if j < pre {
                Tine::Lower(Bound::Infinite)
            } else if j < pre + fin {
                flipped(s[j - pre + finite_from(s)])
            } else {
                Tine::Upper(Bound::Infinite)
            },
    )
}

/// The tines of a canonical tape between its infinite ends are finite.
pub proof fn lemma_finite_part<T: Domain>(s: Seq<Tine<T>>)
    requires
        ordered(s),
    ensures
        0 <= finite_from(s) <= finite_to(s) <= s.len(),
        forall|i: int| finite_from(s) <= i < finite_to(s) ==> (#[trigger] s[i]).level() == 0,
{
    if s.len() > 0 {
        lemma_place_even(s[0]);
        lemma_place_even(s[s.len() - 1]);
    }
    assert forall|i: int| finite_from(s) <= i < finite_to(s) implies (#[trigger] s[i]).level()
        == 0 by {
        lemma_place_even(s[i]);
        if i > 0 {
            assert(s[0].before(s[i]));
        }
        if i < s.len() - 1 {
            assert(s[i].before(s[s.len() - 1]));
        }
    }
}

/// A flipped finite tine stands where the tine stood and says the
/// opposite.
pub proof fn lemma_flipped<T: Domain>(t: Tine<T>)
    requires
        t.valid(),
        t.level() == 0,
    ensures
        flipped(t).valid(),
        flipped(t).level() == 0,
        flipped(t).place() == t.place(),
        flipped(t).closes() == !t.closes(),
        flipped(t).holds() == !t.holds(),
        flipped(t).opens() == !t.opens(),
{
    reveal(Tine::level);
    reveal(Tine::place);
}

/// The tine at index `j` of the complemented tape.
proof fn lemma_complemented_at<T: Domain>(s: Seq<Tine<T>>, j: int)
    requires
        canonical(s),
        0 <= j < complemented(s).len(),
    ensures
        complemented(s)[j].valid(),
        j < 1 - finite_from(s) ==> complemented(s)[j].level() < 0 && complemented(s)[j].opens()
            && !complemented(s)[j].closes(),
        1 - finite_from(s) <= j < 1 - 2 * finite_from(s) + finite_to(s) ==> {
            let i = j - 1 + 2 * finite_from(s);
            &&& finite_from(s) <= i < finite_to(s)
            &&& complemented(s)[j].level() == 0
            &&& complemented(s)[j].place() == s[i].place()
            &&& complemented(s)[j].closes() == !s[i].closes()
            &&& complemented(s)[j].holds() == !s[i].holds()
            &&& complemented(s)[j].opens() == !s[i].opens()
        },
        j >= 1 - 2 * finite_from(s) + finite_to(s) ==> complemented(s)[j].level() > 0
            && !complemented(s)[j].opens() && complemented(s)[j].closes(),
{
    reveal(canonical);
    lemma_finite_part(s);
    let pre = 1 - finite_from(s);
    let fin = finite_to(s) - finite_from(s);
    if pre <= j < pre + fin {
        let i = j - pre + finite_from(s);
        assert(s[i].valid());
        lemma_flipped(s[i]);
    } else {
        reveal(Tine::level);
    }
}

/// The complemented tape of a canonical tape is canonical.
pub proof fn lemma_complement_canonical<T: Domain>(s: Seq<Tine<T>>)
    requires
        canonical(s),
    ensures
        canonical(complemented(s)),
{
    reveal(canonical);
    let t = complemented(s);
    let f = finite_from(s);
    let e = finite_to(s);
    lemma_finite_part(s);
    assert forall|j: int| 0 <= j < t.len() implies (#[trigger] t[j]).valid() by {
        lemma_complemented_at(s, j);
    }
    assert forall|i: int, j: int| 0 <= i < j < t.len() implies #[trigger] t[i].before(
        #[trigger] t[j],
    ) by {
        lemma_complemented_at(s, i);
        lemma_complemented_at(s, j);
        if 1 - f <= i && j < 1 - 2 * f + e {
            assert(s[i - 1 + 2 * f].before(s[j - 1 + 2 * f]));
        }
    }
    assert forall|j: int| 0 <= j < t.len() implies (#[trigger] t[j]).closes() == entering(
        t,
        j,
    ) by {
        lemma_complement_parity(s, j);
    }
    lemma_complement_parity(s, t.len() as int);
}

/// Each tine of the complemented tape closes what the tine before it
/// opened, and the last one leaves the set.
proof fn lemma_complement_parity<T: Domain>(s: Seq<Tine<T>>, j: int)
    requires
        canonical(s),
        0 <= j <= complemented(s).len(),
    ensures
        j < complemented(s).len() ==> complemented(s)[j].closes() == entering(complemented(s), j),
        j == complemented(s).len() ==> !entering(complemented(s), j),
{
    reveal(canonical);
    let t = complemented(s);
    let f = finite_from(s);
    let e = finite_to(s);
    lemma_finite_part(s);
    if j > 0 {
        lemma_complemented_at(s, j - 1);
    }
    if j < t.len() {
        lemma_complemented_at(s, j);
    }
    let i = j - 1 + 2 * f;
    if 0 <= i < s.len() {
        assert(s[i].closes() == entering(s, i));
    }
    if 0 < i <= s.len() {
        lemma_place_even(s[i - 1]);
        assert(s[i - 1].valid());
    }
    if s.len() > 0 {
        assert(s[0].closes() == entering(s, 0));
        lemma_place_even(s[0]);
        assert(s[0].valid());
        lemma_place_even(s[s.len() - 1]);
        assert(s[s.len() - 1].valid());
    }
    reveal(Tine::level);
}

/// The complemented tape covers a site exactly if the tape does not.
pub proof fn lemma_complement_at<T: Domain>(s: Seq<Tine<T>>, x: int)
    requires
        canonical(s),
    ensures
        covers(complemented(s), x) == !covers(s, x),
{
    reveal(canonical);
    let t = complemented(s);
    let f = finite_from(s);
    let e = finite_to(s);
    lemma_finite_part(s);
    lemma_complement_canonical(s);
    lemma_cut_bounds(s, x);
    let k = cut(s, x);
    let m = k + 1 - 2 * f;
    if k > 0 {
        lemma_place_even(s[k - 1]);
        assert(s[k - 1].valid());
    }
    if k < s.len() {
        lemma_place_even(s[k]);
        assert(s[k].valid());
    }
    if s.len() > 0 {
        lemma_place_even(s[0]);
        lemma_place_even(s[s.len() - 1]);
        if k == 0 && f == 1 {
            assert(!s[0].right_of(x));
        }
        if k == s.len() && e < s.len() {
            assert(s[s.len() - 1].right_of(x));
        }
    }
    assert(0 <= m <= t.len());
    if m > 0 {
        lemma_complemented_at(s, m - 1);
    }
    if m < t.len() {
        lemma_complemented_at(s, m);
    }
    lemma_cut_is(t, x, m);
}

/// A canonical tape and its complemented tape cover complementary sites.
pub proof fn lemma_complement<T: Domain>(s: Seq<Tine<T>>)
    requires
        canonical(s),
    ensures
        canonical(complemented(s)),
        points(complemented(s)) == points(s).complement(),
{
    lemma_complement_canonical(s);
    assert forall|x: int| points(complemented(s)).contains(x) == points(s).complement().contains(
        x,
    ) by {
        lemma_complement_at(s, x);
    }
    assert(points(complemented(s)) =~= points(s).complement());
}

/// A finite tine carries a point.
pub proof fn lemma_finite_bound<T: Domain>(t: Tine<T>)
    requires
        t.valid(),
        t.level() == 0,
    ensures
        !(t.bound() is Infinite),
{
    reveal(Tine::level);
}

} // verus!
