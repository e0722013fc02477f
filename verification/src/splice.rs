//! Replacing a window of a tape by other tines.
use crate::domain::Domain;
use crate::tape::{
    ascending, between, canonical, covers, cut, entering, lemma_cut_bounds, lemma_cut_is, ordered,
};
use crate::tine::Tine;
use vstd::prelude::*;

verus! {

/// The tape with the tines from index `a` up to index `hi` replaced by
/// `mid`.
pub open spec fn spliced<T: Domain>(s: Seq<Tine<T>>, a: int, hi: int, mid: Seq<Tine<T>>) -> Seq<
    Tine<T>,
> {
    Seq::new(
        (a + mid.len() + s.len() - hi) as nat,
        |i: int|
            if i < a {
                s[i]
            } else if i < a + mid.len() {
                mid[i - a]
            } else {
                s[i - a - mid.len() + hi]
            },
    )
}

/// A spliced tape is the part before the window, the new tines, and the
/// part after the window.
pub proof fn lemma_spliced_parts<T: Domain>(s: Seq<Tine<T>>, a: int, hi: int, mid: Seq<Tine<T>>)
    requires
        0 <= a <= hi <= s.len(),
    ensures
        spliced(s, a, hi, mid) == s.subrange(0, a) + mid + s.subrange(hi, s.len() as int),
{
    assert(spliced(s, a, hi, mid) =~= s.subrange(0, a) + mid + s.subrange(hi, s.len() as int));
}

/// The tines of `s` before index `a` stand left of `l`, those from index
/// `hi` on stand right of `u`, and those in between stand from `l` to `u`.
#[verifier::opaque]
pub open spec fn window<T: Domain>(s: Seq<Tine<T>>, a: int, hi: int, l: Tine<T>, u: Tine<T>) -> bool {
    &&& 0 <= a <= hi <= s.len()
    &&& l.valid()
    &&& u.valid()
    &&& !u.before(l)
    &&& forall|i: int| 0 <= i < a ==> (#[trigger] s[i]).before(l)
    &&& forall|i: int| a <= i < hi ==> !(#[trigger] s[i]).before(l) && !u.before(s[i])
    &&& forall|i: int| hi <= i < s.len() ==> u.before(#[trigger] s[i])
}

/// `mid` fits into the window of `s`: its tines are valid, ascend, stand
/// from `l` to `u`, continue the state in which `s` arrives at index `a`,
/// and leave in the state in which `s` arrives at index `hi`.
#[verifier::opaque]
pub open spec fn fits<T: Domain>(
    s: Seq<Tine<T>>,
    a: int,
    hi: int,
    mid: Seq<Tine<T>>,
    l: Tine<T>,
    u: Tine<T>,
) -> bool {
    &&& ascending(mid)
    &&& forall|j: int|
        0 <= j < mid.len() ==> (#[trigger] mid[j]).valid() && !mid[j].before(l) && !u.before(mid[j])
    &&& forall|j: int|
        0 <= j < mid.len() ==> (#[trigger] mid[j]).closes() == (if j == 0 {
            entering(s, a)
        } else {
            mid[j - 1].opens()
        })
    &&& (if mid.len() == 0 {
        entering(s, a)
    } else {
        mid.last().opens()
    }) == entering(s, hi)
}

/// Where the tines of a spliced tape come from.
pub proof fn lemma_spliced_index<T: Domain>(s: Seq<Tine<T>>, a: int, hi: int, mid: Seq<Tine<T>>)
    requires
        0 <= a <= hi <= s.len(),
    ensures
        spliced(s, a, hi, mid).len() == a + mid.len() + s.len() - hi,
        forall|i: int| 0 <= i < a ==> #[trigger] spliced(s, a, hi, mid)[i] == s[i],
        forall|i: int|
            a <= i < a + mid.len() ==> #[trigger] spliced(s, a, hi, mid)[i] == mid[i - a],
        forall|i: int|
            a + mid.len() <= i < a + mid.len() + s.len() - hi ==> #[trigger] spliced(
                s,
                a,
                hi,
                mid,
            )[i] == s[i - a - mid.len() + hi],
{
}

/// A spliced tape ascends.
proof fn lemma_splice_ascending<T: Domain>(
    s: Seq<Tine<T>>,
    a: int,
    hi: int,
    mid: Seq<Tine<T>>,
    l: Tine<T>,
    u: Tine<T>,
)
    requires
        ascending(s),
        window(s, a, hi, l, u),
        ascending(mid),
        forall|j: int| 0 <= j < mid.len() ==> !(#[trigger] mid[j]).before(l) && !u.before(mid[j]),
    ensures
        ascending(spliced(s, a, hi, mid)),
{
    reveal(window);
    reveal(fits);
    let t = spliced(s, a, hi, mid);
    let n = mid.len() as int;
    lemma_spliced_index(s, a, hi, mid);
    assert forall|i: int, j: int| 0 <= i < j < t.len() implies #[trigger] t[i].before(
        #[trigger] t[j],
    ) by {
        if j < a {
            assert(s[i].before(s[j]));
        } else if i >= a + n {
            assert(s[i - a - n + hi].before(s[j - a - n + hi]));
        } else if i >= a && j < a + n {
            assert(mid[i - a].before(mid[j - a]));
        } else if i < a && j < a + n {
            assert(s[i].before(l));
            assert(!mid[j - a].before(l));
        } else if i < a {
            assert(s[i].before(l));
            assert(u.before(s[j - a - n + hi]));
        } else {
            assert(!u.before(mid[i - a]));
            assert(u.before(s[j - a - n + hi]));
        }
    }
}

/// A spliced tape is ordered.
pub proof fn lemma_spliced_ordered<T: Domain>(
    s: Seq<Tine<T>>,
    a: int,
    hi: int,
    mid: Seq<Tine<T>>,
    l: Tine<T>,
    u: Tine<T>,
)
    requires
        ordered(s),
        window(s, a, hi, l, u),
        ordered(mid),
        forall|j: int| 0 <= j < mid.len() ==> !(#[trigger] mid[j]).before(l) && !u.before(mid[j]),
    ensures
        ordered(spliced(s, a, hi, mid)),
{
    reveal(window);
    lemma_splice_ascending(s, a, hi, mid, l, u);
    lemma_spliced_index(s, a, hi, mid);
    let t = spliced(s, a, hi, mid);
    assert forall|i: int| 0 <= i < t.len() implies (#[trigger] t[i]).valid() by {
        if i < a {
            assert(s[i].valid());
        } else if i < a + mid.len() {
            assert(mid[i - a].valid());
        } else {
            assert(s[i - a - mid.len() + hi].valid());
        }
    }
}

/// Each tine of a spliced tape closes what the tine before it opened.
proof fn lemma_splice_parity_at<T: Domain>(
    s: Seq<Tine<T>>,
    a: int,
    hi: int,
    mid: Seq<Tine<T>>,
    i: int,
)
    requires
        0 <= a <= hi <= s.len(),
        forall|i: int| 0 <= i < s.len() ==> (#[trigger] s[i]).closes() == entering(s, i),
        forall|j: int|
            0 <= j < mid.len() ==> (#[trigger] mid[j]).closes() == (if j == 0 {
                entering(s, a)
            } else {
                mid[j - 1].opens()
            }),
        (if mid.len() == 0 {
            entering(s, a)
        } else {
            mid.last().opens()
        }) == entering(s, hi),
        0 <= i < spliced(s, a, hi, mid).len(),
    ensures
        spliced(s, a, hi, mid)[i].closes() == entering(spliced(s, a, hi, mid), i),
{
    let t = spliced(s, a, hi, mid);
    let n = mid.len() as int;
    if i < a {
        assert(t[i] == s[i]);
        assert(s[i].closes() == entering(s, i));
        if i > 0 {
            assert(t[i - 1] == s[i - 1]);
        }
    } else if i < a + n {
        assert(t[i] == mid[i - a]);
        assert(mid[i - a].closes() == (if i - a == 0 {
            entering(s, a)
        } else {
            mid[i - a - 1].opens()
        }));
        if i == a {
            if a > 0 {
                assert(t[a - 1] == s[a - 1]);
            }
        } else {
            assert(t[i - 1] == mid[i - 1 - a]);
        }
    } else {
        let k = i - a - n + hi;
        assert(t[i] == s[k]);
        assert(s[k].closes() == entering(s, k));
        if i > a + n {
            assert(t[i - 1] == s[k - 1]);
        } else if n > 0 {
            assert(t[i - 1] == mid[n - 1]);
        } else if a > 0 {
            assert(t[i - 1] == s[a - 1]);
        }
    }
}

/// A spliced tape leaves the set after its last tine.
proof fn lemma_splice_exit<T: Domain>(s: Seq<Tine<T>>, a: int, hi: int, mid: Seq<Tine<T>>)
    requires
        0 <= a <= hi <= s.len(),
        !entering(s, s.len() as int),
        (if mid.len() == 0 {
            entering(s, a)
        } else {
            mid.last().opens()
        }) == entering(s, hi),
    ensures
        !entering(spliced(s, a, hi, mid), spliced(s, a, hi, mid).len() as int),
{
    let t = spliced(s, a, hi, mid);
    let n = mid.len() as int;
    if t.len() > 0 {
        let i = t.len() as int;
        if i > a + n {
            assert(t[i - 1] == s[s.len() - 1]);
        } else if n > 0 {
            assert(t[i - 1] == mid[n - 1]);
        } else {
            assert(t[i - 1] == s[a - 1]);
        }
    }
}

/// A spliced tape is canonical.
proof fn lemma_splice_canonical<T: Domain>(
    s: Seq<Tine<T>>,
    a: int,
    hi: int,
    mid: Seq<Tine<T>>,
    l: Tine<T>,
    u: Tine<T>,
)
    requires
        canonical(s),
        window(s, a, hi, l, u),
        fits(s, a, hi, mid, l, u),
    ensures
        canonical(spliced(s, a, hi, mid)),
{
    reveal(canonical);
    let t = spliced(s, a, hi, mid);
    lemma_window_edges(s, a, hi, l, u);
    assert(ordered(t)) by {
        reveal(fits);
        lemma_spliced_ordered(s, a, hi, mid, l, u);
    }
    assert forall|i: int| 0 <= i < t.len() implies (#[trigger] t[i]).closes() == entering(
        t,
        i,
    ) by {
        reveal(fits);
        lemma_splice_parity_at(s, a, hi, mid, i);
    }
    assert(!entering(t, t.len() as int)) by {
        reveal(fits);
        lemma_splice_exit(s, a, hi, mid);
    }
}

/// A spliced tape covers a site left of the window exactly if the tape
/// did.
proof fn lemma_splice_left<T: Domain>(
    s: Seq<Tine<T>>,
    a: int,
    hi: int,
    mid: Seq<Tine<T>>,
    l: Tine<T>,
    u: Tine<T>,
    x: int,
)
    requires
        canonical(s),
        window(s, a, hi, l, u),
        fits(s, a, hi, mid, l, u),
        l.right_of(x),
    ensures
        covers(spliced(s, a, hi, mid), x) == covers(s, x),
{
    reveal(canonical);
    reveal(window);
    reveal(fits);
    let t = spliced(s, a, hi, mid);
    let n = mid.len() as int;
    lemma_spliced_index(s, a, hi, mid);
    lemma_splice_ascending(s, a, hi, mid, l, u);
    lemma_cut_bounds(s, x);
    let k = cut(s, x);
    if k > a {
        if k - 1 > a {
            assert(s[a].before(s[k - 1]));
        }
        if a < hi {
            assert(!s[a].before(l));
        } else {
            assert(u.before(s[a]));
        }
        assert(s[a].right_of(x));
        assert(false);
    }
    if k > 0 {
        assert(t[k - 1] == s[k - 1]);
    }
    if k < t.len() {
        if k < a {
            assert(t[k] == s[k]);
        } else if n > 0 {
            assert(t[k] == mid[0]);
            assert(!mid[0].before(l));
        } else {
            assert(t[k] == s[hi]);
            assert(u.before(s[hi]));
        }
        assert(t[k].right_of(x));
    }
    lemma_cut_is(t, x, k);
}

/// A spliced tape covers a site right of the window exactly if the tape
/// did.
proof fn lemma_splice_right<T: Domain>(
    s: Seq<Tine<T>>,
    a: int,
    hi: int,
    mid: Seq<Tine<T>>,
    l: Tine<T>,
    u: Tine<T>,
    x: int,
)
    requires
        canonical(s),
        window(s, a, hi, l, u),
        fits(s, a, hi, mid, l, u),
        u.left_of(x),
    ensures
        covers(spliced(s, a, hi, mid), x) == covers(s, x),
{
    reveal(canonical);
    reveal(window);
    reveal(fits);
    let t = spliced(s, a, hi, mid);
    let n = mid.len() as int;
    lemma_spliced_index(s, a, hi, mid);
    lemma_splice_ascending(s, a, hi, mid, l, u);
    lemma_cut_bounds(s, x);
    let k = cut(s, x);
    if k < hi {
        if k < a {
            assert(s[k].before(l));
        } else {
            assert(!u.before(s[k]));
        }
        assert(!s[k].right_of(x));
        assert(false);
    }
    let m = k - hi + a + n;
    if k < s.len() {
        assert(t[m] == s[k]);
    }
    if k > hi {
        assert(t[m - 1] == s[k - 1]);
    } else if n > 0 {
        assert(t[m - 1] == mid[n - 1]);
        assert(!u.before(mid[n - 1]));
        assert(mid[n - 1].left_of(x));
        if hi > 0 {
            if hi > a {
                assert(!u.before(s[hi - 1]));
            } else {
                assert(s[hi - 1].before(l));
            }
            assert(s[hi - 1].left_of(x));
        }
    } else {
        if a > 0 {
            assert(t[m - 1] == s[a - 1]);
            assert(s[a - 1].before(l));
            assert(s[a - 1].left_of(x));
        }
        if hi > 0 {
            if hi > a {
                assert(!u.before(s[hi - 1]));
            } else {
                assert(s[hi - 1].before(l));
            }
            assert(s[hi - 1].left_of(x));
        }
    }
    lemma_cut_is(t, x, m);
}

/// Replacing a window of a canonical tape by tines that fit gives a
/// canonical tape that covers the same sites outside the window.
pub proof fn lemma_splice<T: Domain>(
    s: Seq<Tine<T>>,
    a: int,
    hi: int,
    mid: Seq<Tine<T>>,
    l: Tine<T>,
    u: Tine<T>,
)
    requires
        canonical(s),
        window(s, a, hi, l, u),
        fits(s, a, hi, mid, l, u),
    ensures
        canonical(spliced(s, a, hi, mid)),
        forall|x: int| l.right_of(x) ==> covers(spliced(s, a, hi, mid), x) == covers(s, x),
        forall|x: int| u.left_of(x) ==> covers(spliced(s, a, hi, mid), x) == covers(s, x),
{
    reveal(canonical);
    lemma_splice_canonical(s, a, hi, mid, l, u);
    assert forall|x: int| l.right_of(x) implies covers(spliced(s, a, hi, mid), x) == covers(
        s,
        x,
    ) by {
        lemma_splice_left(s, a, hi, mid, l, u, x);
    }
    assert forall|x: int| u.left_of(x) implies covers(spliced(s, a, hi, mid), x) == covers(
        s,
        x,
    ) by {
        lemma_splice_right(s, a, hi, mid, l, u, x);
    }
}

/// The tine, if there is one, as a sequence.
pub open spec fn lone<T: Domain>(t: Option<Tine<T>>) -> Seq<Tine<T>> {
    match t {
        Some(t) => seq![t],
        None => seq![],
    }
}

/// `t` is what stands at the place of `p` in a set that is inside just
/// before the place if `before`, at it if `at`, and just after it if
/// `after`: a tine that says so, or no tine where nothing changes.
pub open spec fn marks<T: Domain>(
    p: Tine<T>,
    before: bool,
    at: bool,
    after: bool,
    t: Option<Tine<T>>,
) -> bool {
    match t {
        Some(t) => {
            &&& t.valid()
            &&& t.same_place(p)
            &&& t.closes() == before
            &&& t.opens() == after
            &&& p.level() == 0 ==> t.holds() == at
        },
        None => before == after && (p.level() == 0 ==> at == before),
    }
}

/// The state of a canonical tape at the place of a finite tine `p`, where
/// `k` tines stand left of `p`: what the tine at the place holds, or with
/// no tine there the state in which the tape arrives.
pub proof fn lemma_state_at<T: Domain>(s: Seq<Tine<T>>, k: int, p: Tine<T>)
    requires
        canonical(s),
        p.level() == 0,
        0 <= k <= s.len(),
        k > 0 ==> s[k - 1].before(p),
        k < s.len() ==> !s[k].before(p),
    ensures
        covers(s, p.place()) == (if k < s.len() && s[k].same_place(p) {
            s[k].holds()
        } else {
            entering(s, k)
        }),
{
    reveal(canonical);
    let x = p.place();
    if k < s.len() && s[k].same_place(p) {
        if k + 1 < s.len() {
            assert(s[k].before(s[k + 1]));
        }
        lemma_cut_is(s, x, k + 1);
    } else {
        lemma_cut_is(s, x, k);
    }
}

/// Replacing the window from `l` to `u` of a canonical tape by a stretch
/// that is uniformly inside or outside gives a canonical tape: it covers a
/// site in the window as the stretch says, and any other site exactly if
/// the tape did.
pub proof fn lemma_exterior<T: Domain>(
    s: Seq<Tine<T>>,
    a: int,
    hi: int,
    l: Tine<T>,
    u: Tine<T>,
    xl: Option<Tine<T>>,
    xu: Option<Tine<T>>,
    hl: bool,
    m: bool,
    hu: bool,
)
    requires
        canonical(s),
        window(s, a, hi, l, u),
        l.before(u),
        marks(l, entering(s, a), hl, m, xl),
        marks(u, m, hu, entering(s, hi), xu),
    ensures
        canonical(spliced(s, a, hi, lone(xl) + lone(xu))),
        forall|x: int|
            #[trigger] covers(spliced(s, a, hi, lone(xl) + lone(xu)), x) == (if l.right_of(x)
                || u.left_of(x) {
                covers(s, x)
            } else if l.on(x) {
                hl
            } else if u.on(x) {
                hu
            } else {
                m
            }),
{
    reveal(canonical);
    let mid = lone(xl) + lone(xu);
    lemma_exterior_fits(s, a, hi, l, u, xl, xu, hl, m, hu);
    lemma_splice(s, a, hi, mid, l, u);
    assert forall|x: int|
        #[trigger] covers(spliced(s, a, hi, mid), x) == (if l.right_of(x) || u.left_of(x) {
            covers(s, x)
        } else if l.on(x) {
            hl
        } else if u.on(x) {
            hu
        } else {
            m
        }) by {
        if !(l.right_of(x) || u.left_of(x)) {
            lemma_exterior_at(s, a, hi, l, u, xl, xu, hl, m, hu, x);
        }
    }
}

/// The tines that mark the two ends of a uniform stretch fit the window.
proof fn lemma_exterior_fits<T: Domain>(
    s: Seq<Tine<T>>,
    a: int,
    hi: int,
    l: Tine<T>,
    u: Tine<T>,
    xl: Option<Tine<T>>,
    xu: Option<Tine<T>>,
    hl: bool,
    m: bool,
    hu: bool,
)
    requires
        window(s, a, hi, l, u),
        l.before(u),
        marks(l, entering(s, a), hl, m, xl),
        marks(u, m, hu, entering(s, hi), xu),
    ensures
        fits(s, a, hi, lone(xl) + lone(xu), l, u),
{
    reveal(window);
    reveal(fits);
    let mid = lone(xl) + lone(xu);
    match (xl, xu) {
        (Some(p), Some(q)) => {
            assert(mid =~= seq![p, q]);
        },
        (Some(p), None) => {
            assert(mid =~= seq![p]);
        },
        (None, Some(q)) => {
            assert(mid =~= seq![q]);
        },
        (None, None) => {
            assert(mid =~= seq![]);
        },
    }
}

/// The tines next to a window: the one before it stands left of `l`, the
/// one after it right of `u`.
pub proof fn lemma_window_edges<T: Domain>(s: Seq<Tine<T>>, a: int, hi: int, l: Tine<T>, u: Tine<T>)
    requires
        window(s, a, hi, l, u),
    ensures
        0 <= a <= hi <= s.len(),
        a > 0 ==> s[a - 1].before(l),
        hi < s.len() ==> u.before(s[hi]),
{
    reveal(window);
}

/// What a tape with a uniform stretch covers at a site in the window.
proof fn lemma_exterior_at<T: Domain>(
    s: Seq<Tine<T>>,
    a: int,
    hi: int,
    l: Tine<T>,
    u: Tine<T>,
    xl: Option<Tine<T>>,
    xu: Option<Tine<T>>,
    hl: bool,
    m: bool,
    hu: bool,
    x: int,
)
    requires
        canonical(s),
        window(s, a, hi, l, u),
        l.before(u),
        marks(l, entering(s, a), hl, m, xl),
        marks(u, m, hu, entering(s, hi), xu),
        !l.right_of(x),
        !u.left_of(x),
    ensures
        covers(spliced(s, a, hi, lone(xl) + lone(xu)), x) == (if l.on(x) {
            hl
        } else if u.on(x) {
            hu
        } else {
            m
        }),
{
    reveal(canonical);
    let mid = lone(xl) + lone(xu);
    let t = spliced(s, a, hi, mid);
    let n = mid.len() as int;
    lemma_window_edges(s, a, hi, l, u);
    assert(ascending(t)) by {
        lemma_exterior_fits(s, a, hi, l, u, xl, xu, hl, m, hu);
        lemma_splice_canonical(s, a, hi, mid, l, u);
    }
    let c: int = (if xl.is_some() {
        1int
    } else {
        0int
    }) + (if xu.is_some() && u.on(x) {
        1int
    } else {
        0int
    });
    assert(n == lone(xl).len() + lone(xu).len());
    assert(xl.is_some() ==> mid[0] == xl.unwrap());
    assert(xu.is_some() ==> mid[n - 1] == xu.unwrap());
    let k = a + c;
    assert(t.len() == a + n + s.len() - hi && (k > a ==> t[k - 1] == mid[c - 1]) && (k == a && a
        > 0 ==> t[k - 1] == s[a - 1]) && (c < n ==> t[k] == mid[c]) && (c == n && k < t.len()
        ==> t[k] == s[hi])) by {
        lemma_spliced_index(s, a, hi, mid);
    }
    lemma_cut_is(t, x, k);
}

/// Replacing what stands at the place of the finite tine `p` in a canonical
/// tape gives a canonical tape: it covers the site of `p` as the new mark
/// says, and any other site exactly if the tape did.
pub proof fn lemma_point<T: Domain>(
    s: Seq<Tine<T>>,
    a: int,
    hi: int,
    p: Tine<T>,
    xp: Option<Tine<T>>,
    hp: bool,
)
    requires
        canonical(s),
        window(s, a, hi, p, p),
        p.level() == 0,
        marks(p, entering(s, a), hp, entering(s, hi), xp),
    ensures
        canonical(spliced(s, a, hi, lone(xp))),
        forall|x: int|
            #[trigger] covers(spliced(s, a, hi, lone(xp)), x) == (if p.on(x) {
                hp
            } else {
                covers(s, x)
            }),
{
    reveal(canonical);
    reveal(window);
    reveal(fits);
    let mid = lone(xp);
    let t = spliced(s, a, hi, mid);
    lemma_splice(s, a, hi, mid, p, p);
    lemma_spliced_index(s, a, hi, mid);
    assert forall|x: int|
        #[trigger] covers(t, x) == (if p.on(x) {
            hp
        } else {
            covers(s, x)
        }) by {
        if p.on(x) {
            let k = a + mid.len();
            if k > a {
                assert(t[k - 1] == mid[0]);
            } else if a > 0 {
                assert(t[a - 1] == s[a - 1]);
                assert(s[a - 1].before(p));
            }
            if k < t.len() {
                assert(t[k] == s[hi]);
                assert(p.before(s[hi]));
            }
            lemma_cut_is(t, x, k);
        } else {
            assert(p.right_of(x) || p.left_of(x));
        }
    }
}

/// The tine at the place of `l`, if the tape has one there; `a` is the
/// number of tines left of `l`.
pub open spec fn tine_at<T: Domain>(s: Seq<Tine<T>>, a: int, l: Tine<T>) -> Option<Tine<T>> {
    if 0 <= a < s.len() && s[a].same_place(l) {
        Some(s[a])
    } else {
        None
    }
}

/// The tine at the place of `u`, if the window from index `a` up to index
/// `hi` ends with one.
pub open spec fn upper_at<T: Domain>(s: Seq<Tine<T>>, a: int, hi: int, u: Tine<T>) -> Option<
    Tine<T>,
> {
    if a < hi {
        tine_at(s, hi - 1, u)
    } else {
        None
    }
}

/// The states in which a canonical tape arrives at a window and leaves
/// it, and the tines that it has at the two ends.
pub proof fn lemma_window_states<T: Domain>(s: Seq<Tine<T>>, a: int, hi: int, l: Tine<T>, u: Tine<T>)
    requires
        canonical(s),
        window(s, a, hi, l, u),
    ensures
        0 <= a <= hi <= s.len(),
        entering(s, a) == (a > 0 && s[a - 1].opens()),
        entering(s, hi) == (hi < s.len() && s[hi].closes()),
        match tine_at(s, a, l) {
            Some(t) => t.valid() && t.same_place(l),
            None => true,
        },
        match upper_at(s, a, hi, u) {
            Some(t) => t.valid() && t.same_place(u),
            None => true,
        },
        a > 0 ==> s[a - 1].valid() && s[a - 1].before(l),
        hi < s.len() ==> s[hi].valid() && u.before(s[hi]),
{
    reveal(canonical);
    reveal(window);
    if hi < s.len() {
        assert(s[hi].closes() == entering(s, hi));
    }
    if a < s.len() {
        assert(s[a].valid());
    }
    if hi > 0 {
        assert(s[hi - 1].valid());
    }
    if a > 0 {
        assert(s[a - 1].valid());
    }
}

} // verus!
