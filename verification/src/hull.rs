//! The smallest interval around a tape.
use crate::bound::Bound;
use crate::canon::{lemma_around, lemma_place_even};
use crate::domain::Domain;
use crate::raw_interval::RawInterval;
use crate::tape::{
    ascending, canonical, covers, cut, entering, lemma_cut_bounds, lemma_cut_is, points,
};
use crate::tine::Tine;
use vstd::prelude::*;

verus! {

/// The site `x` lies between two sites of the set, or is one.
pub open spec fn in_hull(set: Set<int>, x: int) -> bool {
    exists|a: int, b: int| #[trigger] set.contains(a) && #[trigger] set.contains(b) && a <= x <= b
}

/// The convex hull of a set of sites: every site between two sites of the
/// set.
pub open spec fn hull(set: Set<int>) -> Set<int> {
    Set::new(|x: int| in_hull(set, x))
}

/// The interval from the first tine of the tape to the last: a point for
/// a single tine, and the empty interval for no tine.
pub open spec fn enclosure<T: Domain>(s: Seq<Tine<T>>) -> RawInterval<T> {
    if s.len() == 0 {
        RawInterval::Empty
    } else if s.len() == 1 {
        match s[0].bound().point() {
            Some(p) => RawInterval::Point(p),
            None => RawInterval::Empty,
        }
    } else {
        RawInterval::with_ends(s.first().bound(), s.last().bound())
    }
}

/// The only tine of a canonical tape is a lone included point.
pub proof fn lemma_single<T: Domain>(s: Seq<Tine<T>>)
    requires
        canonical(s),
        s.len() == 1,
    ensures
        s[0] matches Tine::Point(Bound::Include(_)),
        s[0].level() == 0,
        forall|x: int| covers(s, x) == s[0].on(x),
{
    reveal(canonical);
    assert(s[0].closes() == entering(s, 0));
    assert(s[0].valid());
    lemma_place_even(s[0]);
    assert(s[0].level() == 0) by {
        reveal(Tine::level);
    }
    assert forall|x: int| covers(s, x) == s[0].on(x) by {
        lemma_cut_bounds(s, x);
    }
}

/// A site that a canonical tape covers lies within the ends of the tape.
proof fn lemma_within<T: Domain>(s: Seq<Tine<T>>, x: int)
    requires
        canonical(s),
        covers(s, x),
    ensures
        s.len() > 0,
        s.first().bound().bounds_below(x),
        s.last().bound().bounds_above(x),
{
    reveal(canonical);
    lemma_cut_bounds(s, x);
    let k = cut(s, x);
    let n = s.len() as int;
    if k > 1 {
        assert(s[0].before(s[k - 1]));
    }
    if k < n - 1 {
        assert(s[k].before(s[n - 1]));
    }
    assert(s[0].valid() && s[n - 1].valid() && s[k - 1].valid());
    assert(s[0].closes() == entering(s, 0));
    reveal(Tine::level);
    reveal(Tine::place);
}

/// A site of a canonical tape at or left of `x`, where the lower end of
/// the tape admits `x`.
proof fn lemma_site_below<T: Domain>(s: Seq<Tine<T>>, x: int) -> (a: int)
    requires
        canonical(s),
        s.len() >= 2,
        s.first().bound().bounds_below(x),
    ensures
        covers(s, a),
        a <= x,
{
    let f = s[0];
    lemma_place_even(f);
    lemma_place_even(s[1]);
    assert(f.valid() && s[1].valid() && f.before(s[1]) && f.closes() == entering(s, 0)) by {
        reveal(canonical);
    }
    if f.level() == 0 {
        lemma_around(s, 0);
        let q = f.place();
        assert(f.bound().bounds_below(x) ==> (if f.holds() {
            q <= x
        } else {
            q < x
        })) by {
            reveal(Tine::level);
            reveal(Tine::place);
        }
        assert(f.holds() || f.opens()) by {
            reveal(Tine::level);
        }
        if f.holds() {
            q
        } else {
            q + 1
        }
    } else {
        assert(f.level() < 0 && f.opens()) by {
            reveal(Tine::level);
        }
        let a = if s[1].level() == 0 && s[1].place() - 1 < x {
            s[1].place() - 1
        } else {
            x
        };
        assert(ascending(s)) by {
            reveal(canonical);
        }
        lemma_cut_is(s, a, 1);
        a
    }
}

/// A site of a canonical tape at or right of `x`, where the upper end of
/// the tape admits `x`.
proof fn lemma_site_above<T: Domain>(s: Seq<Tine<T>>, x: int) -> (b: int)
    requires
        canonical(s),
        s.len() >= 2,
        s.last().bound().bounds_above(x),
    ensures
        covers(s, b),
        x <= b,
{
    let n = s.len() as int;
    let g = s[n - 1];
    let h = s[n - 2];
    lemma_place_even(g);
    lemma_place_even(h);
    assert(g.valid() && h.valid() && h.before(g) && g.closes() == entering(s, n - 1) && !g.opens())
        by {
        reveal(canonical);
    }
    if g.level() == 0 {
        lemma_around(s, n - 1);
        let q = g.place();
        assert(g.bound().bounds_above(x) ==> (if g.holds() {
            x <= q
        } else {
            x < q
        })) by {
            reveal(Tine::level);
            reveal(Tine::place);
        }
        assert(g.holds() || g.closes()) by {
            reveal(Tine::level);
        }
        if g.holds() {
            q
        } else {
            q - 1
        }
    } else {
        assert(g.level() > 0 && g.closes()) by {
            reveal(Tine::level);
        }
        let b = if h.level() == 0 && h.place() + 1 > x {
            h.place() + 1
        } else {
            x
        };
        assert(ascending(s)) by {
            reveal(canonical);
        }
        lemma_cut_is(s, b, n - 1);
        b
    }
}

/// The enclosure of a canonical tape is canonical, and it covers the
/// convex hull of the sites of the tape.
pub proof fn lemma_enclosure<T: Domain>(s: Seq<Tine<T>>)
    requires
        canonical(s),
    ensures
        enclosure(s).wf(),
        enclosure(s)@ == hull(points(s)),
        s.len() >= 2 ==> RawInterval::apart(s.first().bound(), s.last().bound()),
{
    let e = enclosure(s);
    let set = points(s);
    if s.len() >= 2 {
        assert(s[0].before(s[s.len() - 1]) && s[0].valid() && s[s.len() - 1].valid()) by {
            reveal(canonical);
        }
        assert(RawInterval::apart(s.first().bound(), s.last().bound()) && e.wf()) by {
            reveal(Tine::level);
            reveal(Tine::place);
        }
    }
    assert forall|x: int| e.covers(x) == in_hull(set, x) by {
        if in_hull(set, x) {
            let (a, b) = choose|a: int, b: int|
                #[trigger] set.contains(a) && #[trigger] set.contains(b) && a <= x <= b;
            lemma_within(s, a);
            lemma_within(s, b);
            if s.len() == 1 {
                lemma_single(s);
                assert(s[0].on(a) && s[0].on(b));
            }
            assert(e.covers(x)) by {
                reveal(Tine::level);
                reveal(Tine::place);
            }
        }
        if e.covers(x) {
            if s.len() == 1 {
                lemma_single(s);
                assert(s[0].on(x)) by {
                    reveal(Tine::level);
                    reveal(Tine::place);
                }
                assert(set.contains(x));
            } else {
                let a = lemma_site_below(s, x);
                let b = lemma_site_above(s, x);
                assert(set.contains(a) && set.contains(b));
            }
        }
    }
    assert(e@ =~= hull(set));
}

} // verus!
