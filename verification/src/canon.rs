//! A canonical tape is determined by the sites that it covers.
use crate::bound::Bound;
use crate::domain::Domain;
use crate::tape::{
    ascending, canonical, covers, cut, entering, lemma_cut_bounds, lemma_cut_is, lemma_empty_tape,
    points,
};
use crate::tine::Tine;
use vstd::prelude::*;

verus! {

/// A finite tine stands at an even site; an infinite one has no site.
pub proof fn lemma_place_even<T: Domain>(t: Tine<T>)
    ensures
        t.place() % 2 == 0,
        -1 <= t.level() <= 1,
        t.level() < 0 <==> t == Tine::<T>::Lower(Bound::Infinite),
        t.level() > 0 <==> t == Tine::<T>::Upper(Bound::Infinite),
{
    reveal(Tine::level);
    reveal(Tine::place);
}

/// Around a finite tine a canonical tape covers what the tine says: the
/// site before it if the tine closes, its own site if it holds, and the
/// site after it if it opens.
pub proof fn lemma_around<T: Domain>(s: Seq<Tine<T>>, i: int)
    requires
        canonical(s),
        0 <= i < s.len(),
        s[i].level() == 0,
    ensures
        covers(s, s[i].place() - 1) == s[i].closes(),
        covers(s, s[i].place()) == s[i].holds(),
        covers(s, s[i].place() + 1) == s[i].opens(),
{
    reveal(canonical);
    let q = s[i].place();
    lemma_place_even(s[i]);
    if i > 0 {
        lemma_place_even(s[i - 1]);
        assert(s[i - 1].before(s[i]));
    }
    if i + 1 < s.len() {
        lemma_place_even(s[i + 1]);
        assert(s[i].before(s[i + 1]));
    }
    assert(s[i].closes() == entering(s, i));
    lemma_cut_is(s, q - 1, i);
    lemma_cut_is(s, q, i + 1);
    lemma_cut_is(s, q + 1, i + 1);
}

/// Where no tine stands at an even site, a tape covers the site and its
/// two neighbours alike.
pub proof fn lemma_gap<T: Domain>(s: Seq<Tine<T>>, q: int)
    requires
        ascending(s),
        q % 2 == 0,
        forall|i: int| 0 <= i < s.len() ==> !(#[trigger] s[i]).on(q),
    ensures
        covers(s, q - 1) == covers(s, q),
        covers(s, q + 1) == covers(s, q),
{
    lemma_cut_bounds(s, q);
    let k = cut(s, q);
    if k > 0 {
        lemma_place_even(s[k - 1]);
        assert(!s[k - 1].on(q));
    }
    if k < s.len() {
        lemma_place_even(s[k]);
        assert(!s[k].on(q));
    }
    lemma_cut_is(s, q - 1, k);
    lemma_cut_is(s, q + 1, k);
}

/// The tine at index `i` of one canonical tape also stands in any other
/// canonical tape that covers the same sites.
proof fn lemma_tine_found<T: Domain>(sa: Seq<Tine<T>>, sb: Seq<Tine<T>>, i: int) -> (j: int)
    requires
        canonical(sa),
        canonical(sb),
        forall|x: int| covers(sa, x) == covers(sb, x),
        0 <= i < sa.len(),
    ensures
        0 <= j < sb.len(),
        sb[j] == sa[i],
{
    reveal(canonical);
    let t = sa[i];
    lemma_place_even(t);
    assert(t.valid());
    if t.level() == 0 {
        let q = t.place();
        lemma_around(sa, i);
        assert(covers(sa, q - 1) == covers(sb, q - 1));
        assert(covers(sa, q) == covers(sb, q));
        assert(covers(sa, q + 1) == covers(sb, q + 1));
        if forall|j: int| 0 <= j < sb.len() ==> !(#[trigger] sb[j]).on(q) {
            lemma_gap(sb, q);
            assert(false);
        }
        let j = choose|j: int| 0 <= j < sb.len() && (#[trigger] sb[j]).on(q);
        lemma_around(sb, j);
        lemma_same_tine(t, sb[j]);
        j
    } else if t.level() < 0 {
        if i > 0 {
            lemma_place_even(sa[0]);
            assert(sa[0].before(sa[i]));
        }
        assert(t.closes() == entering(sa, i));
        assert(sa.len() > 1);
        assert(sa[0].before(sa[1]));
        lemma_place_even(sa[1]);
        if sb.len() > 0 {
            lemma_place_even(sb[0]);
            assert(sb[0].valid());
        }
        if sb.len() == 0 || sb[0].level() >= 0 {
            let x1 = if sa[1].level() == 0 {
                sa[1].place() - 1
            } else {
                0
            };
            let x = if sb.len() > 0 && sb[0].level() == 0 && sb[0].place() - 1 < x1 {
                sb[0].place() - 1
            } else {
                x1
            };
            lemma_cut_is(sa, x, 1);
            lemma_cut_is(sb, x, 0);
            assert(covers(sa, x) == covers(sb, x));
            assert(false);
        }
        0
    } else {
        let n = sa.len() as int;
        if i < n - 1 {
            lemma_place_even(sa[n - 1]);
            assert(sa[i].before(sa[n - 1]));
        }
        assert(t.closes() == entering(sa, i));
        assert(n > 1);
        assert(sa[n - 2].before(sa[n - 1]));
        lemma_place_even(sa[n - 2]);
        let m = sb.len() as int;
        if m > 0 {
            lemma_place_even(sb[m - 1]);
            assert(sb[m - 1].valid());
        }
        if m == 0 || sb[m - 1].level() <= 0 {
            let x1 = if sa[n - 2].level() == 0 {
                sa[n - 2].place() + 1
            } else {
                0
            };
            let x = if m > 0 && sb[m - 1].level() == 0 && sb[m - 1].place() + 1 > x1 {
                sb[m - 1].place() + 1
            } else {
                x1
            };
            lemma_cut_is(sa, x, n - 1);
            lemma_cut_is(sb, x, m);
            assert(covers(sa, x) == covers(sb, x));
            assert(false);
        }
        m - 1
    }
}

/// Two valid finite tines at one place that say the same are the same
/// tine.
proof fn lemma_same_tine<T: Domain>(a: Tine<T>, b: Tine<T>)
    requires
        a.valid(),
        b.valid(),
        a.level() == 0,
        b.level() == 0,
        a.place() == b.place(),
        a.closes() == b.closes(),
        a.holds() == b.holds(),
        a.opens() == b.opens(),
    ensures
        a == b,
{
    reveal(Tine::level);
    reveal(Tine::place);
    match (a.bound().point(), b.bound().point()) {
        (Some(p), Some(q)) => {
            T::rank_determines(p, q);
        },
        _ => {},
    }
}

/// Two ascending sequences that hold the same tines are equal.
proof fn lemma_same_tines<T: Domain>(sa: Seq<Tine<T>>, sb: Seq<Tine<T>>)
    requires
        ascending(sa),
        ascending(sb),
        forall|i: int| 0 <= i < sa.len() ==> sb.contains(#[trigger] sa[i]),
        forall|j: int| 0 <= j < sb.len() ==> sa.contains(#[trigger] sb[j]),
    ensures
        sa == sb,
    decreases sa.len(),
{
    if sa.len() == 0 {
        if sb.len() > 0 {
            assert(sa.contains(sb[0]));
        }
        assert(sa =~= sb);
    } else {
        let n = sa.len() as int;
        assert(sb.contains(sa[n - 1]));
        let m = sb.len() as int;
        let j = choose|j: int| 0 <= j < m && sb[j] == sa[n - 1];
        assert(sa.contains(sb[m - 1]));
        let i = choose|i: int| 0 <= i < n && sa[i] == sb[m - 1];
        if j < m - 1 {
            assert(sb[j].before(sb[m - 1]));
            if i < n - 1 {
                assert(sa[i].before(sa[n - 1]));
            }
            assert(false);
        }
        let d1 = sa.drop_last();
        let d2 = sb.drop_last();
        assert forall|a: int, b: int| 0 <= a < b < d1.len() implies #[trigger] d1[a].before(
            #[trigger] d1[b],
        ) by {
            assert(sa[a].before(sa[b]));
        }
        assert forall|a: int, b: int| 0 <= a < b < d2.len() implies #[trigger] d2[a].before(
            #[trigger] d2[b],
        ) by {
            assert(sb[a].before(sb[b]));
        }
        assert forall|a: int| 0 <= a < d1.len() implies d2.contains(#[trigger] d1[a]) by {
            assert(sb.contains(sa[a]));
            let b = choose|b: int| 0 <= b < m && sb[b] == sa[a];
            assert(sa[a].before(sa[n - 1]));
            assert(d2[b] == sa[a]);
        }
        assert forall|b: int| 0 <= b < d2.len() implies d1.contains(#[trigger] d2[b]) by {
            assert(sa.contains(sb[b]));
            let a = choose|a: int| 0 <= a < n && sa[a] == sb[b];
            assert(sb[b].before(sb[m - 1]));
            assert(d1[a] == sb[b]);
        }
        lemma_same_tines(d1, d2);
        assert(sa =~= d1.push(sa[n - 1]));
        assert(sb =~= d2.push(sb[m - 1]));
    }
}

/// A canonical tape is determined by the sites that it covers: two
/// canonical tapes that cover the same sites hold the same tines.
pub proof fn lemma_tape_determined<T: Domain>(sa: Seq<Tine<T>>, sb: Seq<Tine<T>>)
    requires
        canonical(sa),
        canonical(sb),
        forall|x: int| covers(sa, x) == covers(sb, x),
    ensures
        sa == sb,
{
    reveal(canonical);
    assert forall|i: int| 0 <= i < sa.len() implies sb.contains(#[trigger] sa[i]) by {
        let j = lemma_tine_found(sa, sb, i);
    }
    assert forall|j: int| 0 <= j < sb.len() implies sa.contains(#[trigger] sb[j]) by {
        let i = lemma_tine_found(sb, sa, j);
    }
    lemma_same_tines(sa, sb);
}

/// A canonical tape covers no site exactly if it has no tine.
pub proof fn lemma_empty_set<T: Domain>(s: Seq<Tine<T>>)
    requires
        canonical(s),
    ensures
        (s.len() == 0) == (points(s) == Set::<int>::empty()),
{
    let e = Seq::<Tine<T>>::empty();
    lemma_empty_tape(e);
    assert(canonical(e)) by {
        reveal(canonical);
    }
    if s.len() == 0 {
        lemma_empty_tape(s);
        assert(points(s) =~= Set::<int>::empty());
    } else if points(s) == Set::<int>::empty() {
        assert forall|x: int| covers(s, x) == covers(e, x) by {
            assert(points(s).contains(x) == covers(s, x));
        }
        lemma_tape_determined(s, e);
    }
}

} // verus!
