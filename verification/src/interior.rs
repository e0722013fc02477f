//! Cutting a tape down to a stretch.
use crate::domain::Domain;
use crate::splice::{lemma_state_at, lemma_window_edges, lone, marks, tine_at, upper_at, window};
use crate::tape::{
    between, canonical, covers, cut, entering, lemma_cut_bounds, lemma_cut_is, lemma_cut_sides,
    ordered,
};
use crate::tine::Tine;
use vstd::prelude::*;

verus! {

/// The tines of `s` from index `a` up to index `hi`, with `xl` before them
/// and `xu` behind them.
pub open spec fn kept<T: Domain>(
    s: Seq<Tine<T>>,
    a: int,
    hi: int,
    xl: Option<Tine<T>>,
    xu: Option<Tine<T>>,
) -> Seq<Tine<T>> {
    Seq::new(
        (lone(xl).len() + hi - a + lone(xu).len()) as nat,
        |i: int|
            if i < lone(xl).len() {
                xl.unwrap()
            } else if i < lone(xl).len() + hi - a {
                s[i - lone(xl).len() + a]
            } else {
                xu.unwrap()
            },
    )
}

/// The tines of `s` from index `a` up to index `hi` stand strictly between
/// `l` and `u`, those before at or left of `l`, those behind at or right of
/// `u`.
#[verifier::opaque]
pub open spec fn inner<T: Domain>(s: Seq<Tine<T>>, a: int, hi: int, l: Tine<T>, u: Tine<T>) -> bool {
    &&& 0 <= a <= hi <= s.len()
    &&& l.valid()
    &&& u.valid()
    &&& l.before(u)
    &&& forall|i: int| 0 <= i < a ==> !l.before(#[trigger] s[i])
    &&& forall|i: int| a <= i < hi ==> l.before(#[trigger] s[i]) && s[i].before(u)
    &&& forall|i: int| hi <= i < s.len() ==> !(#[trigger] s[i]).before(u)
}

/// The facts about an inner stretch that speak of single tines.
proof fn lemma_inner_edges<T: Domain>(s: Seq<Tine<T>>, a: int, hi: int, l: Tine<T>, u: Tine<T>)
    requires
        inner(s, a, hi, l, u),
    ensures
        0 <= a <= hi <= s.len(),
        l.valid(),
        u.valid(),
        l.before(u),
        a > 0 ==> !l.before(s[a - 1]),
        a < hi ==> l.before(s[a]) && s[hi - 1].before(u),
        hi < s.len() ==> !s[hi].before(u),
{
    reveal(inner);
}

/// The kept stretch with marks at both ends is ordered.
proof fn lemma_kept_ordered<T: Domain>(
    s: Seq<Tine<T>>,
    a: int,
    hi: int,
    l: Tine<T>,
    u: Tine<T>,
    xl: Option<Tine<T>>,
    xu: Option<Tine<T>>,
)
    requires
        ordered(s),
        inner(s, a, hi, l, u),
        xl matches Some(t) ==> t.valid() && t.same_place(l),
        xu matches Some(t) ==> t.valid() && t.same_place(u),
    ensures
        ordered(kept(s, a, hi, xl, xu)),
{
    reveal(inner);
    let t = kept(s, a, hi, xl, xu);
    let nl = lone(xl).len() as int;
    assert forall|i: int| 0 <= i < t.len() implies (#[trigger] t[i]).valid() by {
        if nl <= i < nl + hi - a {
            assert(s[i - nl + a].valid());
        }
    }
    assert forall|i: int, j: int| 0 <= i < j < t.len() implies #[trigger] t[i].before(
        #[trigger] t[j],
    ) by {
        if i >= nl && j < nl + hi - a {
            assert(s[i - nl + a].before(s[j - nl + a]));
        } else if i >= nl {
            assert(s[i - nl + a].before(u));
        } else if j < nl + hi - a {
            assert(l.before(s[j - nl + a]));
        }
    }
}

/// Each tine of the kept stretch closes what the tine before it opened,
/// and the last one leaves the set.
proof fn lemma_kept_parity<T: Domain>(
    s: Seq<Tine<T>>,
    a: int,
    hi: int,
    xl: Option<Tine<T>>,
    xu: Option<Tine<T>>,
    i: int,
)
    requires
        0 <= a <= hi <= s.len(),
        forall|i: int| 0 <= i < s.len() ==> (#[trigger] s[i]).closes() == entering(s, i),
        match xl {
            Some(t) => !t.closes() && t.opens() == entering(s, a),
            None => !entering(s, a),
        },
        match xu {
            Some(t) => !t.opens() && t.closes() == entering(s, hi),
            None => !entering(s, hi),
        },
        0 <= i <= kept(s, a, hi, xl, xu).len(),
    ensures
        i < kept(s, a, hi, xl, xu).len() ==> kept(s, a, hi, xl, xu)[i].closes() == entering(
            kept(s, a, hi, xl, xu),
            i,
        ),
        i == kept(s, a, hi, xl, xu).len() ==> !entering(kept(s, a, hi, xl, xu), i),
{
    let t = kept(s, a, hi, xl, xu);
    let nl = lone(xl).len() as int;
    let n = hi - a;
    if i > 0 {
        if i - 1 < nl {
            assert(t[i - 1] == xl.unwrap());
        } else if i - 1 < nl + n {
            assert(t[i - 1] == s[i - 1 - nl + a]);
        } else {
            assert(t[i - 1] == xu.unwrap());
        }
    }
    if i < t.len() {
        if i < nl {
            assert(t[i] == xl.unwrap());
        } else if i < nl + n {
            assert(t[i] == s[i - nl + a]);
            assert(s[i - nl + a].closes() == entering(s, i - nl + a));
        } else {
            assert(t[i] == xu.unwrap());
        }
    }
}

/// What the kept stretch covers at the site `x`.
proof fn lemma_kept_at<T: Domain>(
    s: Seq<Tine<T>>,
    a: int,
    hi: int,
    l: Tine<T>,
    u: Tine<T>,
    xl: Option<Tine<T>>,
    xu: Option<Tine<T>>,
    hl: bool,
    hu: bool,
    x: int,
)
    requires
        canonical(s),
        inner(s, a, hi, l, u),
        marks(l, false, hl, entering(s, a), xl),
        marks(u, entering(s, hi), hu, false, xu),
    ensures
        covers(kept(s, a, hi, xl, xu), x) == (if l.right_of(x) || u.left_of(x) {
            false
        } else if l.on(x) {
            hl
        } else if u.on(x) {
            hu
        } else {
            covers(s, x)
        }),
{
    reveal(canonical);
    let t = kept(s, a, hi, xl, xu);
    let nl = lone(xl).len() as int;
    let n = hi - a;
    lemma_inner_edges(s, a, hi, l, u);
    lemma_kept_ordered(s, a, hi, l, u, xl, xu);
    lemma_kept_parity(s, a, hi, xl, xu, t.len() as int);
    if nl > 0 {
        assert(t[0] == xl.unwrap());
    }
    if xu.is_some() {
        assert(t[t.len() - 1] == xu.unwrap());
    }
    if l.right_of(x) {
        if t.len() > 0 {
            if nl == 0 && n > 0 {
                assert(t[0] == s[a]);
            }
            assert(t[0].right_of(x));
        }
        lemma_cut_is(t, x, 0);
    } else if u.left_of(x) {
        let k = t.len() as int;
        if k > 0 {
            if xu.is_none() && n > 0 {
                assert(t[k - 1] == s[hi - 1]);
            }
            assert(t[k - 1].left_of(x));
        }
        lemma_cut_is(t, x, k);
    } else if l.on(x) {
        if nl < t.len() {
            if n > 0 {
                assert(t[nl] == s[a]);
            }
            assert(t[nl].right_of(x));
        }
        lemma_cut_is(t, x, nl);
    } else if u.on(x) {
        let k = t.len() as int;
        if xu.is_none() && k > 0 {
            if n > 0 {
                assert(t[k - 1] == s[hi - 1]);
            }
            assert(t[k - 1].left_of(x));
        }
        lemma_cut_is(t, x, k);
    } else {
        lemma_cut_bounds(s, x);
        lemma_cut_sides(s, x);
        let k = cut(s, x);
        if k < a {
            assert(s[k].right_of(x));
            assert(!l.before(s[k]));
            assert(false);
        }
        if k > hi {
            assert(!s[hi].right_of(x));
            assert(!s[hi].before(u));
            assert(false);
        }
        let m = k - a + nl;
        if k < hi {
            assert(t[m] == s[k]);
        }
        if k > a {
            assert(t[m - 1] == s[k - 1]);
        } else if a > 0 {
            assert(s[a - 1].left_of(x));
        }
        lemma_cut_is(t, x, m);
    }
}

/// Keeping the tines strictly between `l` and `u` of a canonical tape and
/// marking the two ends gives a canonical tape: it covers nothing outside
/// the stretch, the ends as the marks say, and a site strictly inside
/// exactly if the tape did.
pub proof fn lemma_interior<T: Domain>(
    s: Seq<Tine<T>>,
    a: int,
    hi: int,
    l: Tine<T>,
    u: Tine<T>,
    xl: Option<Tine<T>>,
    xu: Option<Tine<T>>,
    hl: bool,
    hu: bool,
)
    requires
        canonical(s),
        inner(s, a, hi, l, u),
        marks(l, false, hl, entering(s, a), xl),
        marks(u, entering(s, hi), hu, false, xu),
    ensures
        canonical(kept(s, a, hi, xl, xu)),
        forall|x: int|
            #[trigger] covers(kept(s, a, hi, xl, xu), x) == (if l.right_of(x) || u.left_of(x) {
                false
            } else if l.on(x) {
                hl
            } else if u.on(x) {
                hu
            } else {
                covers(s, x)
            }),
{
    reveal(canonical);
    let t = kept(s, a, hi, xl, xu);
    lemma_inner_edges(s, a, hi, l, u);
    lemma_kept_ordered(s, a, hi, l, u, xl, xu);
    assert forall|i: int| 0 <= i < t.len() implies (#[trigger] t[i]).closes() == entering(
        t,
        i,
    ) by {
        lemma_kept_parity(s, a, hi, xl, xu, i);
    }
    lemma_kept_parity(s, a, hi, xl, xu, t.len() as int);
    assert forall|x: int|
        #[trigger] covers(t, x) == (if l.right_of(x) || u.left_of(x) {
            false
        } else if l.on(x) {
            hl
        } else if u.on(x) {
            hu
        } else {
            covers(s, x)
        }) by {
        lemma_kept_at(s, a, hi, l, u, xl, xu, hl, hu, x);
    }
}

/// The index of the first tine strictly right of `l`; `a` is the number of
/// tines left of `l`.
pub open spec fn past<T: Domain>(s: Seq<Tine<T>>, a: int, l: Tine<T>) -> int {
    if tine_at(s, a, l).is_some() {
        a + 1
    } else {
        a
    }
}

/// The number of tines strictly left of `u`; the window from index `a` up
/// to index `hi` holds the tines up to `u`.
pub open spec fn short<T: Domain>(s: Seq<Tine<T>>, a: int, hi: int, u: Tine<T>) -> int {
    if upper_at(s, a, hi, u).is_some() {
        hi - 1
    } else {
        hi
    }
}

/// What stands at the lower end `l` of a stretch that the tape is cut down
/// to.
pub open spec fn inner_lower_mark<T: Domain>(s: Seq<Tine<T>>, a: int, l: Tine<T>) -> Option<
    Tine<T>,
> {
    match tine_at(s, a, l) {
        Some(t) => t.rebuilt(false, t.holds() && l.holds(), t.opens()),
        None => if entering(s, a) {
            Some(l)
        } else {
            None
        },
    }
}

/// What stands at the upper end `u` of a stretch that the tape is cut down
/// to.
pub open spec fn inner_upper_mark<T: Domain>(
    s: Seq<Tine<T>>,
    a: int,
    hi: int,
    u: Tine<T>,
) -> Option<Tine<T>> {
    match upper_at(s, a, hi, u) {
        Some(t) => t.rebuilt(t.closes(), t.holds() && u.holds(), false),
        None => if entering(s, hi) {
            Some(u)
        } else {
            None
        },
    }
}

/// The tape cut down to the stretch from `l` to `u`.
pub open spec fn cut_down<T: Domain>(s: Seq<Tine<T>>, a: int, hi: int, l: Tine<T>, u: Tine<T>) -> Seq<
    Tine<T>,
> {
    kept(
        s,
        past(s, a, l),
        short(s, a, hi, u),
        inner_lower_mark(s, a, l),
        inner_upper_mark(s, a, hi, u),
    )
}

/// The tines strictly inside a window form an inner stretch.
pub proof fn lemma_window_inner<T: Domain>(s: Seq<Tine<T>>, a: int, hi: int, l: Tine<T>, u: Tine<T>)
    requires
        ordered(s),
        window(s, a, hi, l, u),
        l.before(u),
    ensures
        inner(s, past(s, a, l), short(s, a, hi, u), l, u),
{
    reveal(window);
    reveal(inner);
    reveal(Tine::level);
    reveal(Tine::place);
    let a2 = past(s, a, l);
    let hi2 = short(s, a, hi, u);
    assert forall|i: int| a2 <= i < hi2 implies l.before(#[trigger] s[i]) && s[i].before(u) by {
        if a < i {
            assert(s[a].before(s[i]));
        }
        if i < hi - 1 {
            assert(s[i].before(s[hi - 1]));
        }
    }
    assert forall|i: int| hi2 <= i < s.len() implies !(#[trigger] s[i]).before(u) by {}
    assert forall|i: int| 0 <= i < a2 implies !l.before(#[trigger] s[i]) by {}
}

/// Cutting a canonical tape down to the stretch from `l` to `u` gives a
/// canonical tape that covers what the tape and the stretch both cover.
pub proof fn lemma_interior_set<T: Domain>(s: Seq<Tine<T>>, a: int, hi: int, l: Tine<T>, u: Tine<T>)
    requires
        canonical(s),
        window(s, a, hi, l, u),
        l is Lower,
        u is Upper,
        l.before(u),
    ensures
        inner(s, past(s, a, l), short(s, a, hi, u), l, u),
        canonical(cut_down(s, a, hi, l, u)),
        forall|x: int|
            #[trigger] covers(cut_down(s, a, hi, l, u), x) == (covers(s, x) && between(l, u, x)),
        match inner_lower_mark(s, a, l) {
            Some(t) => t.valid() && t.same_place(l),
            None => true,
        },
        match inner_upper_mark(s, a, hi, u) {
            Some(t) => t.valid() && t.same_place(u),
            None => true,
        },
{
    reveal(canonical);
    let a2 = past(s, a, l);
    let hi2 = short(s, a, hi, u);
    let xl = inner_lower_mark(s, a, l);
    let xu = inner_upper_mark(s, a, hi, u);
    let hl = covers(s, l.place()) && l.holds();
    let hu = covers(s, u.place()) && u.holds();
    lemma_window_inner(s, a, hi, l, u);
    assert(marks(l, false, hl, entering(s, a2), xl)) by {
        lemma_window_edges(s, a, hi, l, u);
        assert(l.valid() && (a < s.len() ==> !s[a].before(l) && s[a].valid())) by {
            reveal(window);
        }
        if l.level() == 0 {
            lemma_state_at(s, a, l);
        }
        reveal(Tine::level);
        reveal(Tine::place);
    }
    assert(marks(u, entering(s, hi2), hu, false, xu)) by {
        lemma_window_edges(s, a, hi, l, u);
        assert(u.valid() && !u.before(l) && (a < hi ==> !u.before(s[hi - 1]) && !s[hi - 1].before(l) && s[hi
            - 1].valid() && s[hi - 1].closes() == entering(s, hi - 1))) by {
            reveal(window);
        }
        match upper_at(s, a, hi, u) {
            Some(t) => {
                if hi - 1 > 0 {
                    assert(s[hi - 2].before(s[hi - 1]));
                }
                if u.level() == 0 {
                    lemma_state_at(s, hi - 1, u);
                }
            },
            None => {
                if u.level() == 0 {
                    if a < hi {
                        assert(s[hi - 1].before(u)) by {
                            reveal(Tine::level);
                            reveal(Tine::place);
                        }
                    }
                    lemma_state_at(s, hi, u);
                }
            },
        }
        reveal(Tine::level);
        reveal(Tine::place);
    }
    lemma_interior(s, a2, hi2, l, u, xl, xu, hl, hu);
}

/// Merging the tine at the lower end with the end by intersection gives
/// the lower mark of the stretch that the tape is cut down to.
pub proof fn lemma_intersect_lower<T: Domain>(
    s: Seq<Tine<T>>,
    a: int,
    l: Tine<T>,
    merged: Option<Tine<T>>,
)
    requires
        l is Lower,
        merged == (match tine_at(s, a, l) {
            Some(t) => t.rebuilt(
                t.closes() && l.closes(),
                t.holds() && l.holds(),
                t.opens() && l.opens(),
            ),
            None => if entering(s, a) {
                Some(l)
            } else {
                None
            },
        }),
    ensures
        merged == inner_lower_mark(s, a, l),
{
}

/// Merging the tine at the upper end with the end by intersection gives
/// the upper mark of the stretch that the tape is cut down to.
pub proof fn lemma_intersect_upper<T: Domain>(
    s: Seq<Tine<T>>,
    a: int,
    hi: int,
    u: Tine<T>,
    merged: Option<Tine<T>>,
)
    requires
        u is Upper,
        merged == (match upper_at(s, a, hi, u) {
            Some(t) => t.rebuilt(
                t.closes() && u.closes(),
                t.holds() && u.holds(),
                t.opens() && u.opens(),
            ),
            None => if entering(s, hi) {
                Some(u)
            } else {
                None
            },
        }),
    ensures
        merged == inner_upper_mark(s, a, hi, u),
{
}

} // verus!
