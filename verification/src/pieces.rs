//! The intervals of which a canonical tape is the union.
use crate::bound::Bound;
use crate::domain::Domain;
use crate::raw_interval::RawInterval;
use crate::tape::{
    between, canonical, covers, cut, entering, lemma_cut_bounds, lemma_cut_is, points,
};
use crate::tine::Tine;
use vstd::prelude::*;

verus! {

/// An interval of the tape begins at the tine: every tine but an upper one
/// begins one.
pub open spec fn starts<T: Domain>(t: Tine<T>) -> bool {
    !(t is Upper)
}

/// The interval that begins at the tine at index `i`: a lone point, or the
/// stretch up to the next tine.
pub open spec fn piece<T: Domain>(s: Seq<Tine<T>>, i: int) -> RawInterval<T> {
    match s[i] {
        Tine::Point(Bound::Include(p)) => RawInterval::Point(p),
        t => RawInterval::with_ends(t.bound(), s[i + 1].bound()),
    }
}

/// The intervals that begin at the tines from index `lo` up to index `hi`,
/// in ascending order.
pub open spec fn pieces<T: Domain>(s: Seq<Tine<T>>, lo: int, hi: int) -> Seq<RawInterval<T>>
    decreases hi - lo,
{
    if hi <= lo {
        seq![]
    } else if starts(s[hi - 1]) {
        pieces(s, lo, hi - 1).push(piece(s, hi - 1))
    } else {
        pieces(s, lo, hi - 1)
    }
}

/// The intervals of the whole tape.
pub open spec fn all_pieces<T: Domain>(s: Seq<Tine<T>>) -> Seq<RawInterval<T>> {
    pieces(s, 0, s.len() as int)
}

/// One of the intervals covers the site `x`.
pub open spec fn any_covers<T: Domain>(ivs: Seq<RawInterval<T>>, x: int) -> bool {
    exists|k: int| 0 <= k < ivs.len() && (#[trigger] ivs[k]).covers(x)
}

/// The intervals from `lo` on are the one that begins at `lo`, if one
/// does, and then those from `lo + 1` on.
pub proof fn lemma_pieces_front<T: Domain>(s: Seq<Tine<T>>, lo: int, hi: int)
    requires
        lo < hi,
    ensures
        pieces(s, lo, hi) == (if starts(s[lo]) {
            seq![piece(s, lo)]
        } else {
            seq![]
        }) + pieces(s, lo + 1, hi),
    decreases hi - lo,
{
    let head = if starts(s[lo]) {
        seq![piece(s, lo)]
    } else {
        seq![]
    };
    if hi - 1 > lo {
        lemma_pieces_front(s, lo, hi - 1);
        if starts(s[hi - 1]) {
            assert((head + pieces(s, lo + 1, hi - 1)).push(piece(s, hi - 1)) =~= head + pieces(
                s,
                lo + 1,
                hi - 1,
            ).push(piece(s, hi - 1)));
        }
    } else {
        assert(pieces(s, lo, hi - 1) =~= seq![]);
        assert(pieces(s, lo + 1, hi) =~= seq![]);
        assert(pieces(s, lo, hi) =~= head + pieces(s, lo + 1, hi));
    }
}

/// Each interval of a range begins at a tine of the range.
pub proof fn lemma_piece_index<T: Domain>(s: Seq<Tine<T>>, lo: int, hi: int, k: int) -> (i: int)
    requires
        0 <= k < pieces(s, lo, hi).len(),
    ensures
        lo <= i < hi,
        starts(s[i]),
        pieces(s, lo, hi)[k] == piece(s, i),
    decreases hi - lo,
{
    if starts(s[hi - 1]) && k == pieces(s, lo, hi - 1).len() {
        hi - 1
    } else {
        lemma_piece_index(s, lo, hi - 1, k)
    }
}

/// The interval that begins at a tine of a range is one of the intervals
/// of the range.
pub proof fn lemma_piece_listed<T: Domain>(s: Seq<Tine<T>>, lo: int, hi: int, i: int) -> (k: int)
    requires
        lo <= i < hi,
        starts(s[i]),
    ensures
        0 <= k < pieces(s, lo, hi).len(),
        pieces(s, lo, hi)[k] == piece(s, i),
    decreases hi - lo,
{
    if i == hi - 1 {
        pieces(s, lo, hi - 1).len() as int
    } else {
        lemma_piece_listed(s, lo, hi - 1, i)
    }
}

/// The interval that begins at a tine of a canonical tape is canonical and
/// not empty, and it covers the sites between the tine and the next one.
pub proof fn lemma_piece<T: Domain>(s: Seq<Tine<T>>, i: int)
    requires
        canonical(s),
        0 <= i < s.len(),
        starts(s[i]),
    ensures
        piece(s, i).wf(),
        !(piece(s, i) is Empty),
        s[i] matches Tine::Point(Bound::Include(_)) ==> forall|x: int|
            piece(s, i).covers(x) == s[i].on(x),
        !(s[i] matches Tine::Point(Bound::Include(_))) ==> i + 1 < s.len() && s[i].opens() && s[i
            + 1].closes() && RawInterval::apart(s[i].bound(), s[i + 1].bound()) && forall|x: int|
            piece(s, i).covers(x) == between(s[i], s[i + 1], x),
{
    reveal(canonical);
    reveal(Tine::level);
    reveal(Tine::place);
    assert(s[i].valid());
    if !(s[i] matches Tine::Point(Bound::Include(_))) {
        assert(s[i].opens());
        if i + 1 == s.len() {
            assert(entering(s, s.len() as int));
        }
        assert(s[i + 1].closes() == entering(s, i + 1));
        assert(s[i].before(s[i + 1]));
        assert(s[i + 1].valid());
    }
}

/// A site that the interval at index `i` covers is covered by the tape.
pub proof fn lemma_piece_covered<T: Domain>(s: Seq<Tine<T>>, i: int, x: int)
    requires
        canonical(s),
        0 <= i < s.len(),
        starts(s[i]),
        piece(s, i).covers(x),
    ensures
        covers(s, x),
{
    reveal(canonical);
    lemma_piece(s, i);
    if s[i] matches Tine::Point(Bound::Include(_)) {
        if i + 1 < s.len() {
            assert(s[i].before(s[i + 1]));
        }
        lemma_cut_is(s, x, i + 1);
    } else {
        assert(between(s[i], s[i + 1], x));
        if s[i + 1].on(x) {
            if i + 2 < s.len() {
                assert(s[i + 1].before(s[i + 2]));
            }
            lemma_cut_is(s, x, i + 2);
        } else {
            assert(s[i].before(s[i + 1]));
            lemma_cut_is(s, x, i + 1);
        }
    }
}

/// A site that the tape covers lies in one of its intervals.
pub proof fn lemma_covering_piece<T: Domain>(s: Seq<Tine<T>>, x: int) -> (i: int)
    requires
        canonical(s),
        covers(s, x),
    ensures
        0 <= i < s.len(),
        starts(s[i]),
        piece(s, i).covers(x),
{
    reveal(canonical);
    lemma_cut_bounds(s, x);
    let k = cut(s, x);
    let t = s[k - 1];
    assert(t.valid());
    if starts(t) {
        lemma_piece(s, k - 1);
        if !(t matches Tine::Point(Bound::Include(_))) {
            assert(between(t, s[k], x));
        } else {
            assert(t.on(x)) by {
                reveal(Tine::level);
                reveal(Tine::place);
            }
        }
        k - 1
    } else {
        assert(t.closes() == entering(s, k - 1));
        assert(t.on(x) && !t.opens());
        assert(starts(s[k - 2]));
        lemma_piece(s, k - 2);
        assert(s[k - 2].before(t));
        assert(between(s[k - 2], t, x));
        k - 2
    }
}

/// A canonical tape covers a site exactly if one of its intervals does.
pub proof fn lemma_pieces_cover<T: Domain>(s: Seq<Tine<T>>, x: int)
    requires
        canonical(s),
    ensures
        covers(s, x) == any_covers(all_pieces(s), x),
{
    reveal(canonical);
    let ivs = all_pieces(s);
    if covers(s, x) {
        let i = lemma_covering_piece(s, x);
        let k = lemma_piece_listed(s, 0, s.len() as int, i);
        assert(ivs[k].covers(x));
    }
    if any_covers(ivs, x) {
        let k = choose|k: int| 0 <= k < ivs.len() && (#[trigger] ivs[k]).covers(x);
        let i = lemma_piece_index(s, 0, s.len() as int, k);
        lemma_piece_covered(s, i, x);
    }
}

/// The sites that one of the intervals covers.
pub open spec fn covered<T: Domain>(ivs: Seq<RawInterval<T>>) -> Set<int> {
    Set::new(|x: int| any_covers(ivs, x))
}

/// Every interval of a canonical tape is canonical and not empty.
pub proof fn lemma_pieces_wf<T: Domain>(s: Seq<Tine<T>>)
    requires
        canonical(s),
    ensures
        forall|k: int|
            0 <= k < all_pieces(s).len() ==> (#[trigger] all_pieces(s)[k]).wf() && !(all_pieces(
                s,
            )[k] is Empty),
{
    reveal(canonical);
    assert forall|k: int| 0 <= k < all_pieces(s).len() implies (#[trigger] all_pieces(s)[k]).wf()
        && !(all_pieces(s)[k] is Empty) by {
        let i = lemma_piece_index(s, 0, s.len() as int, k);
        lemma_piece(s, i);
    }
}

/// The intervals of a canonical tape cover the sites of the tape.
pub proof fn lemma_pieces_points<T: Domain>(s: Seq<Tine<T>>)
    requires
        canonical(s),
    ensures
        covered(all_pieces(s)) == points(s),
{
    reveal(canonical);
    assert forall|x: int| covered(all_pieces(s)).contains(x) == points(s).contains(x) by {
        lemma_pieces_cover(s, x);
    }
    assert(covered(all_pieces(s)) =~= points(s));
}

/// One interval more covers the sites of that interval more.
pub proof fn lemma_covered_step<T: Domain>(ivs: Seq<RawInterval<T>>, n: int)
    requires
        0 <= n < ivs.len(),
    ensures
        covered(ivs.take(n + 1)) == covered(ivs.take(n)).union(ivs[n]@),
        covered(ivs.take(0)) == Set::<int>::empty(),
        covered(ivs.take(ivs.len() as int)) == covered(ivs),
{
    let a = ivs.take(n);
    let b = ivs.take(n + 1);
    assert forall|x: int| covered(b).contains(x) == covered(a).union(ivs[n]@).contains(x) by {
        if any_covers(b, x) {
            let k = choose|k: int| 0 <= k < b.len() && (#[trigger] b[k]).covers(x);
            if k < n {
                assert(a[k].covers(x));
            }
        }
        if any_covers(a, x) {
            let k = choose|k: int| 0 <= k < a.len() && (#[trigger] a[k]).covers(x);
            assert(b[k].covers(x));
        }
        if ivs[n].covers(x) {
            assert(b[n].covers(x));
        }
    }
    assert(covered(b) =~= covered(a).union(ivs[n]@));
    assert(covered(ivs.take(0)) =~= Set::<int>::empty());
    assert(ivs.take(ivs.len() as int) =~= ivs);
}

/// Whether the site `x` lies at or before the upper end of the interval.
pub open spec fn upper_admits<T: Domain>(interval: RawInterval<T>, x: int) -> bool {
    match interval.upper() {
        Some(ub) => ub.bounds_above(x),
        None => false,
    }
}

/// The intervals lie apart in ascending order: a site of an interval lies
/// beyond the upper end of every interval before it.
pub open spec fn lie_apart<T: Domain>(ivs: Seq<RawInterval<T>>) -> bool {
    forall|j: int, k: int, x: int|
        0 <= j < k < ivs.len() && (#[trigger] ivs[k]).covers(x) ==> !#[trigger] upper_admits(
            ivs[j],
            x,
        )
}

/// A site of the interval that begins at a later tine lies beyond the
/// upper end of the interval that begins at an earlier tine.
proof fn lemma_piece_beyond<T: Domain>(s: Seq<Tine<T>>, i: int, k: int, x: int)
    requires
        canonical(s),
        0 <= i < k < s.len(),
        starts(s[i]),
        starts(s[k]),
        piece(s, k).covers(x),
    ensures
        !upper_admits(piece(s, i), x),
{
    reveal(canonical);
    lemma_piece(s, i);
    lemma_piece(s, k);
    assert(s[i].before(s[k]));
    assert(s[i].valid() && s[k].valid());
    if !(s[i] matches Tine::Point(Bound::Include(_))) {
        assert(s[i + 1].valid());
        if i + 1 < k {
            assert(s[i + 1].before(s[k]));
        }
    }
    reveal(Tine::level);
    reveal(Tine::place);
}

/// Two intervals of a range begin at tines in the order in which they are
/// listed.
proof fn lemma_piece_indices<T: Domain>(s: Seq<Tine<T>>, lo: int, hi: int, j: int, k: int) -> (r: (
    int,
    int,
))
    requires
        0 <= j < k < pieces(s, lo, hi).len(),
    ensures
        lo <= r.0 < r.1 < hi,
        starts(s[r.0]),
        starts(s[r.1]),
        pieces(s, lo, hi)[j] == piece(s, r.0),
        pieces(s, lo, hi)[k] == piece(s, r.1),
    decreases hi - lo,
{
    if starts(s[hi - 1]) && k == pieces(s, lo, hi - 1).len() {
        let i = lemma_piece_index(s, lo, hi - 1, j);
        (i, hi - 1)
    } else {
        lemma_piece_indices(s, lo, hi - 1, j, k)
    }
}

/// The intervals of a canonical tape lie apart in ascending order.
pub proof fn lemma_pieces_apart<T: Domain>(s: Seq<Tine<T>>)
    requires
        canonical(s),
    ensures
        lie_apart(all_pieces(s)),
{
    let ivs = all_pieces(s);
    assert forall|j: int, k: int, x: int|
        0 <= j < k < ivs.len() && (#[trigger] ivs[k]).covers(x) implies !#[trigger] upper_admits(
        ivs[j],
        x,
    ) by {
        let (a, b) = lemma_piece_indices(s, 0, s.len() as int, j, k);
        lemma_piece_beyond(s, a, b, x);
    }
}

/// One step of a walk along two ascending lists of intervals. With `n`
/// intervals of the one and `m` of the other done, the pairs of which one
/// interval is done have been met. Where the next interval `ivs[n]` ends
/// at or before the next interval `others[m]`, meeting the two is all
/// that it takes to have `ivs[n]` done as well.
pub proof fn lemma_walk_step<T: Domain>(
    ivs: Seq<RawInterval<T>>,
    others: Seq<RawInterval<T>>,
    n: int,
    m: int,
)
    requires
        lie_apart(others),
        0 <= n < ivs.len(),
        0 <= m < others.len(),
        forall|x: int|
            upper_admits(ivs[n], x) ==> upper_admits(others[m], x),
    ensures
        covered(ivs.take(n + 1)).intersect(covered(others)).union(
            covered(ivs).intersect(covered(others.take(m))),
        ) == covered(ivs.take(n)).intersect(covered(others)).union(
            covered(ivs).intersect(covered(others.take(m))),
        ).union(ivs[n]@.intersect(others[m]@)),
{
    let lhs = covered(ivs.take(n + 1)).intersect(covered(others)).union(
        covered(ivs).intersect(covered(others.take(m))),
    );
    let rhs = covered(ivs.take(n)).intersect(covered(others)).union(
        covered(ivs).intersect(covered(others.take(m))),
    ).union(ivs[n]@.intersect(others[m]@));
    lemma_covered_step(ivs, n);
    assert forall|x: int| lhs.contains(x) == rhs.contains(x) by {
        if ivs[n].covers(x) {
            assert(any_covers(ivs, x));
            assert(upper_admits(ivs[n], x));
        }
        if others[m].covers(x) {
            assert(any_covers(others, x));
        }
        if ivs[n].covers(x) && any_covers(others, x) {
            let k = choose|k: int| 0 <= k < others.len() && (#[trigger] others[k]).covers(x);
            if k < m {
                assert(others.take(m)[k].covers(x));
            } else if k > m {
                assert(upper_admits(others[m], x));
                assert(false);
            }
        }
    }
    assert(lhs =~= rhs);
}

/// What the first intervals of a list cover, the whole list covers.
pub proof fn lemma_covered_part<T: Domain>(ivs: Seq<RawInterval<T>>, n: int)
    requires
        0 <= n <= ivs.len(),
    ensures
        covered(ivs.take(n)).subset_of(covered(ivs)),
{
    assert forall|x: int| covered(ivs.take(n)).contains(x) implies covered(ivs).contains(x) by {
        let k = choose|k: int| 0 <= k < ivs.take(n).len() && (#[trigger] ivs.take(n)[k]).covers(x);
        assert(ivs[k].covers(x));
    }
}

/// The sites that a walk along two lists of intervals has met with `n`
/// intervals of the one and `m` of the other done: what the done
/// intervals of either list share with the other list.
pub open spec fn met<T: Domain>(
    ivs: Seq<RawInterval<T>>,
    others: Seq<RawInterval<T>>,
    n: int,
    m: int,
) -> Set<int> {
    covered(ivs.take(n)).intersect(covered(others)).union(
        covered(ivs).intersect(covered(others.take(m))),
    )
}

/// A walk along two lists is the same walk with the lists exchanged, it
/// has met nothing at its start, and everything that the lists share once
/// one list is done.
pub proof fn lemma_met<T: Domain>(
    ivs: Seq<RawInterval<T>>,
    others: Seq<RawInterval<T>>,
    n: int,
    m: int,
)
    requires
        0 <= n <= ivs.len(),
        0 <= m <= others.len(),
    ensures
        met(ivs, others, n, m) == met(others, ivs, m, n),
        n == 0 && m == 0 ==> met(ivs, others, n, m) == Set::<int>::empty(),
        n == ivs.len() || m == others.len() ==> met(ivs, others, n, m) == covered(ivs).intersect(
            covered(others),
        ),
{
    assert(met(ivs, others, n, m) =~= met(others, ivs, m, n));
    lemma_covered_part(ivs, n);
    lemma_covered_part(others, m);
    if n == 0 && m == 0 {
        assert(covered(ivs.take(0)) =~= Set::<int>::empty());
        assert(covered(others.take(0)) =~= Set::<int>::empty());
        assert(met(ivs, others, n, m) =~= Set::<int>::empty());
    }
    if n == ivs.len() {
        assert(ivs.take(n) =~= ivs);
        assert(met(ivs, others, n, m) =~= covered(ivs).intersect(covered(others)));
    }
    if m == others.len() {
        assert(others.take(m) =~= others);
        assert(met(ivs, others, n, m) =~= covered(ivs).intersect(covered(others)));
    }
}

} // verus!
