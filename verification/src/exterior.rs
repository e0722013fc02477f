//! Joining a stretch to a tape and taking a stretch from it.
use crate::bound::Bound;
use crate::domain::Domain;
use crate::splice::{
    lemma_exterior, lemma_point, lemma_state_at, lemma_window_edges, lone, marks, spliced, tine_at,
    upper_at, window,
};
use crate::tape::{between, canonical, covers, entering};
use crate::tine::Tine;
use vstd::prelude::*;

verus! {

/// The state of a site after a stretch is joined to a set (`m`) or taken
/// from it (`!m`): `inside` is the state of the site in the set, `held`
/// whether the stretch holds the site.
pub open spec fn joined(m: bool, inside: bool, held: bool) -> bool {
    if m {
        inside || held
    } else {
        inside && !held
    }
}

/// What stands at the lower end `l` of a stretch that is joined to the
/// tape (`m`) or taken from it (`!m`), as a function of the tine that the
/// tape has there and of the state in which the tape arrives.
pub open spec fn lower_mark<T: Domain>(s: Seq<Tine<T>>, a: int, l: Tine<T>, m: bool) -> Option<
    Tine<T>,
> {
    match tine_at(s, a, l) {
        Some(t) => t.rebuilt(t.closes(), joined(m, t.holds(), l.holds()), m),
        None => if entering(s, a) == m {
            None
        } else if m {
            Some(l)
        } else {
            l.rebuilt(true, !l.holds(), false)
        },
    }
}

/// What stands at the upper end `u` of a stretch that is joined to the
/// tape (`m`) or taken from it (`!m`).
pub open spec fn upper_mark<T: Domain>(
    s: Seq<Tine<T>>,
    a: int,
    hi: int,
    u: Tine<T>,
    m: bool,
) -> Option<Tine<T>> {
    match upper_at(s, a, hi, u) {
        Some(t) => t.rebuilt(m, joined(m, t.holds(), u.holds()), t.opens()),
        None => if entering(s, hi) == m {
            None
        } else if m {
            Some(u)
        } else {
            u.rebuilt(false, !u.holds(), true)
        },
    }
}

/// The lower mark says what the set does at the lower end of the stretch.
pub proof fn lemma_lower_mark<T: Domain>(
    s: Seq<Tine<T>>,
    a: int,
    hi: int,
    l: Tine<T>,
    u: Tine<T>,
    m: bool,
)
    requires
        canonical(s),
        window(s, a, hi, l, u),
        l is Lower,
    ensures
        marks(
            l,
            entering(s, a),
            joined(m, covers(s, l.place()), l.holds()),
            m,
            lower_mark(s, a, l, m),
        ),
{
    reveal(canonical);
    lemma_window_edges(s, a, hi, l, u);
    assert(l.valid() && (a < s.len() ==> !s[a].before(l))) by {
        reveal(window);
    }
    if l.level() == 0 {
        lemma_state_at(s, a, l);
    }
    reveal(Tine::level);
    reveal(Tine::place);
    match tine_at(s, a, l) {
        Some(t) => {
            assert(t.closes() == entering(s, a));
            assert(t.valid());
        },
        None => {},
    }
}

/// The upper mark says what the set does at the upper end of the stretch.
pub proof fn lemma_upper_mark<T: Domain>(
    s: Seq<Tine<T>>,
    a: int,
    hi: int,
    l: Tine<T>,
    u: Tine<T>,
    m: bool,
)
    requires
        canonical(s),
        window(s, a, hi, l, u),
        u is Upper,
    ensures
        marks(
            u,
            m,
            joined(m, covers(s, u.place()), u.holds()),
            entering(s, hi),
            upper_mark(s, a, hi, u, m),
        ),
{
    reveal(canonical);
    lemma_window_edges(s, a, hi, l, u);
    assert(u.valid() && !u.before(l) && (a < hi ==> !u.before(s[hi - 1]) && !s[hi - 1].before(l)) && (hi
        < s.len() ==> s[hi].closes() == entering(s, hi)) && (hi == s.len() ==> !entering(s, hi)))
        by {
        reveal(window);
    }
    match upper_at(s, a, hi, u) {
        Some(t) => {
            if hi - 1 > 0 {
                assert(s[hi - 2].before(s[hi - 1]));
            }
            if u.level() == 0 {
                lemma_state_at(s, hi - 1, u);
            }
            assert(t.valid());
        },
        None => {
            if u.level() == 0 {
                if a < hi {
                    assert(!s[hi - 1].same_place(u));
                    assert(s[hi - 1].before(u)) by {
                        reveal(Tine::level);
                        reveal(Tine::place);
                    }
                }
                lemma_state_at(s, hi, u);
            }
        },
    }
    reveal(Tine::level);
    reveal(Tine::place);
}

/// Joining a stretch to a canonical tape (`m`), or taking it from the tape
/// (`!m`), by putting the two marks in place of the window gives a
/// canonical tape that covers what it should.
pub proof fn lemma_exterior_set<T: Domain>(
    s: Seq<Tine<T>>,
    a: int,
    hi: int,
    l: Tine<T>,
    u: Tine<T>,
    m: bool,
)
    requires
        canonical(s),
        window(s, a, hi, l, u),
        l is Lower,
        u is Upper,
        l.before(u),
    ensures
        canonical(spliced(s, a, hi, lone(lower_mark(s, a, l, m)) + lone(upper_mark(s, a, hi, u, m)))),
        forall|x: int|
            #[trigger] covers(
                spliced(s, a, hi, lone(lower_mark(s, a, l, m)) + lone(upper_mark(s, a, hi, u, m))),
                x,
            ) == joined(m, covers(s, x), between(l, u, x)),
        match lower_mark(s, a, l, m) {
            Some(t) => t.valid() && t.same_place(l),
            None => true,
        },
        match upper_mark(s, a, hi, u, m) {
            Some(t) => t.valid() && t.same_place(u),
            None => true,
        },
{
    reveal(canonical);
    let xl = lower_mark(s, a, l, m);
    let xu = upper_mark(s, a, hi, u, m);
    let hl = joined(m, covers(s, l.place()), l.holds());
    let hu = joined(m, covers(s, u.place()), u.holds());
    lemma_lower_mark(s, a, hi, l, u, m);
    lemma_upper_mark(s, a, hi, l, u, m);
    lemma_exterior(s, a, hi, l, u, xl, xu, hl, m, hu);
}

/// Merging the tine at the lower end with the end by union, or keeping the
/// end where no tine stands and the set is outside, gives the lower mark
/// of the joined stretch.
pub proof fn lemma_union_lower<T: Domain>(
    s: Seq<Tine<T>>,
    a: int,
    l: Tine<T>,
    merged: Option<Tine<T>>,
)
    requires
        l is Lower,
        merged == (match tine_at(s, a, l) {
            Some(t) => t.rebuilt(
                t.closes() || l.closes(),
                t.holds() || l.holds(),
                t.opens() || l.opens(),
            ),
            None => if entering(s, a) {
                None
            } else {
                Some(l)
            },
        }),
    ensures
        merged == lower_mark(s, a, l, true),
{
}

/// Merging the tine at the upper end with the end by union, or keeping the
/// end where no tine stands and the set is outside, gives the upper mark
/// of the joined stretch.
pub proof fn lemma_union_upper<T: Domain>(
    s: Seq<Tine<T>>,
    a: int,
    hi: int,
    u: Tine<T>,
    merged: Option<Tine<T>>,
)
    requires
        u is Upper,
        merged == (match upper_at(s, a, hi, u) {
            Some(t) => t.rebuilt(
                t.closes() || u.closes(),
                t.holds() || u.holds(),
                t.opens() || u.opens(),
            ),
            None => if entering(s, hi) {
                None
            } else {
                Some(u)
            },
        }),
    ensures
        merged == upper_mark(s, a, hi, u, true),
{
}

/// Merging the tine at the lower end with the end by difference, or
/// closing the set at the end where no tine stands and the set is inside,
/// gives the lower mark of the stretch that is taken out.
pub proof fn lemma_minus_lower<T: Domain>(
    s: Seq<Tine<T>>,
    a: int,
    l: Tine<T>,
    merged: Option<Tine<T>>,
)
    requires
        l is Lower,
        merged == (match tine_at(s, a, l) {
            Some(t) => t.rebuilt(
                t.closes() && !l.closes(),
                t.holds() && !l.holds(),
                t.opens() && !l.opens(),
            ),
            None => if entering(s, a) {
                l.rebuilt(!l.closes(), !l.holds(), !l.opens())
            } else {
                None
            },
        }),
    ensures
        merged == lower_mark(s, a, l, false),
{
}

/// Merging the tine at the upper end with the end by difference, or
/// opening the set at the end where no tine stands and the set is inside,
/// gives the upper mark of the stretch that is taken out.
pub proof fn lemma_minus_upper<T: Domain>(
    s: Seq<Tine<T>>,
    a: int,
    hi: int,
    u: Tine<T>,
    merged: Option<Tine<T>>,
)
    requires
        u is Upper,
        merged == (match upper_at(s, a, hi, u) {
            Some(t) => t.rebuilt(
                t.closes() && !u.closes(),
                t.holds() && !u.holds(),
                t.opens() && !u.opens(),
            ),
            None => if entering(s, hi) {
                u.rebuilt(!u.closes(), !u.holds(), !u.opens())
            } else {
                None
            },
        }),
    ensures
        merged == upper_mark(s, a, hi, u, false),
{
}

/// Of two tines in order, an upper tine that stands first is not the
/// upper infinity, and a lower tine that stands second is not the lower
/// infinity.
pub proof fn lemma_not_infinite<T: Domain>(before: Tine<T>, after: Tine<T>)
    requires
        before.valid(),
        after.valid(),
        before.before(after),
    ensures
        before is Upper ==> !(before.bound() is Infinite),
        after is Lower ==> !(after.bound() is Infinite),
{
    reveal(Tine::level);
    reveal(Tine::place);
}

/// What stands at the place of the point tine `p` after the point is
/// joined to the tape (`m`) or taken from it (`!m`).
pub open spec fn point_mark<T: Domain>(s: Seq<Tine<T>>, a: int, p: Tine<T>, m: bool) -> Option<
    Tine<T>,
> {
    match tine_at(s, a, p) {
        Some(t) => t.rebuilt(t.closes(), m, t.opens()),
        None => if entering(s, a) == m {
            None
        } else if m {
            Some(p)
        } else {
            p.rebuilt(true, false, true)
        },
    }
}

/// Joining a point to a canonical tape (`m`), or taking it from the tape
/// (`!m`), by putting the point mark in its place gives a canonical tape
/// that covers what it should.
pub proof fn lemma_point_set<T: Domain>(s: Seq<Tine<T>>, a: int, hi: int, p: Tine<T>, m: bool)
    requires
        canonical(s),
        window(s, a, hi, p, p),
        hi == a + (if tine_at(s, a, p).is_some() {
            1int
        } else {
            0int
        }),
        p matches Tine::Point(Bound::Include(_)),
    ensures
        canonical(spliced(s, a, hi, lone(point_mark(s, a, p, m)))),
        forall|x: int|
            #[trigger] covers(spliced(s, a, hi, lone(point_mark(s, a, p, m))), x) == joined(
                m,
                covers(s, x),
                p.on(x),
            ),
        match point_mark(s, a, p, m) {
            Some(t) => t.valid() && t.same_place(p),
            None => true,
        },
{
    reveal(canonical);
    lemma_window_edges(s, a, hi, p, p);
    assert(p.level() == 0 && p.valid()) by {
        reveal(Tine::level);
    }
    let x = point_mark(s, a, p, m);
    assert(marks(p, entering(s, a), m, entering(s, hi), x)) by {
        assert((a < s.len() ==> s[a].valid() && s[a].closes() == entering(s, a)));
        reveal(Tine::level);
        reveal(Tine::place);
    }
    lemma_point(s, a, hi, p, x, m);
}

} // verus!
