//! The algebra of interval sets.
//!
//! Each law takes the sets that it speaks of, and for every operation that
//! it names a tree that the operation may return: a canonical tree with
//! the sites that the operation promises. A law states the equation of the
//! sets of sites, and concludes that the two trees of the equation hold
//! the same tines, which is how trees compare with `==`.
use crate::bound::Bound;
use crate::canon::{lemma_place_even, lemma_tape_determined};
use crate::domain::{site, Domain};
use crate::hull::lemma_single;
use crate::pieces::{
    all_pieces, any_covers, covered, lemma_pieces_cover, lemma_pieces_points, lemma_pieces_wf,
};
use crate::raw_interval::RawInterval;
use crate::tape::{canonical, covers, entering, lemma_empty_tape, lemma_interval_tape, points};
use crate::tine::Tine;
use crate::tine_tree::TineTree;
use vstd::prelude::*;

verus! {

/// A canonical tree is determined by its set: two canonical trees with
/// the same sites hold the same tines.
pub proof fn law_determined<T: Domain>(a: TineTree<T>, b: TineTree<T>)
    requires
        a.wf(),
        b.wf(),
        a@ == b@,
    ensures
        a.tines() == b.tines(),
{
    assert forall|x: int| covers(a.tines(), x) == covers(b.tines(), x) by {
        assert(points(a.tines()).contains(x) == covers(a.tines(), x));
        assert(points(b.tines()).contains(x) == covers(b.tines(), x));
    }
    lemma_tape_determined(a.tines(), b.tines());
}

/// Idempotence of union: `A ∪ A == A`.
pub proof fn law_union_idempotent<T: Domain>(a: TineTree<T>, aa: TineTree<T>)
    requires
        a.wf(),
        aa.wf(),
        aa@ == a@.union(a@),
    ensures
        a@.union(a@) == a@,
        aa.tines() == a.tines(),
{
    assert(a@.union(a@) =~= a@);
    assert(aa@ =~= a@);
    law_determined(aa, a);
}

/// Idempotence of intersection: `A ∩ A == A`.
pub proof fn law_intersect_idempotent<T: Domain>(a: TineTree<T>, aa: TineTree<T>)
    requires
        a.wf(),
        aa.wf(),
        aa@ == a@.intersect(a@),
    ensures
        a@.intersect(a@) == a@,
        aa.tines() == a.tines(),
{
    assert(a@.intersect(a@) =~= a@);
    assert(aa@ =~= a@);
    law_determined(aa, a);
}

/// Commutativity of union: `A ∪ B == B ∪ A`.
pub proof fn law_union_commutative<T: Domain>(
    a: TineTree<T>,
    b: TineTree<T>,
    ab: TineTree<T>,
    ba: TineTree<T>,
)
    requires
        ab.wf(),
        ba.wf(),
        ab@ == a@.union(b@),
        ba@ == b@.union(a@),
    ensures
        a@.union(b@) == b@.union(a@),
        ab.tines() == ba.tines(),
{
    assert(a@.union(b@) =~= b@.union(a@));
    assert(ab@ =~= ba@);
    law_determined(ab, ba);
}

/// Commutativity of intersection: `A ∩ B == B ∩ A`.
pub proof fn law_intersect_commutative<T: Domain>(
    a: TineTree<T>,
    b: TineTree<T>,
    ab: TineTree<T>,
    ba: TineTree<T>,
)
    requires
        ab.wf(),
        ba.wf(),
        ab@ == a@.intersect(b@),
        ba@ == b@.intersect(a@),
    ensures
        a@.intersect(b@) == b@.intersect(a@),
        ab.tines() == ba.tines(),
{
    assert(a@.intersect(b@) =~= b@.intersect(a@));
    assert(ab@ =~= ba@);
    law_determined(ab, ba);
}

/// Associativity of union: `(A ∪ B) ∪ C == A ∪ (B ∪ C)`.
pub proof fn law_union_associative<T: Domain>(
    a: TineTree<T>,
    b: TineTree<T>,
    c: TineTree<T>,
    ab: TineTree<T>,
    bc: TineTree<T>,
    left: TineTree<T>,
    right: TineTree<T>,
)
    requires
        left.wf(),
        right.wf(),
        ab@ == a@.union(b@),
        bc@ == b@.union(c@),
        left@ == ab@.union(c@),
        right@ == a@.union(bc@),
    ensures
        a@.union(b@).union(c@) == a@.union(b@.union(c@)),
        left.tines() == right.tines(),
{
    assert(a@.union(b@).union(c@) =~= a@.union(b@.union(c@)));
    assert(left@ =~= right@);
    law_determined(left, right);
}

/// Associativity of intersection: `(A ∩ B) ∩ C == A ∩ (B ∩ C)`.
pub proof fn law_intersect_associative<T: Domain>(
    a: TineTree<T>,
    b: TineTree<T>,
    c: TineTree<T>,
    ab: TineTree<T>,
    bc: TineTree<T>,
    left: TineTree<T>,
    right: TineTree<T>,
)
    requires
        left.wf(),
        right.wf(),
        ab@ == a@.intersect(b@),
        bc@ == b@.intersect(c@),
        left@ == ab@.intersect(c@),
        right@ == a@.intersect(bc@),
    ensures
        a@.intersect(b@).intersect(c@) == a@.intersect(b@.intersect(c@)),
        left.tines() == right.tines(),
{
    assert(a@.intersect(b@).intersect(c@) =~= a@.intersect(b@.intersect(c@)));
    assert(left@ =~= right@);
    law_determined(left, right);
}

/// Distributivity: `A ∩ (B ∪ C) == (A ∩ B) ∪ (A ∩ C)`.
pub proof fn law_distributive<T: Domain>(
    a: TineTree<T>,
    b: TineTree<T>,
    c: TineTree<T>,
    bc: TineTree<T>,
    ab: TineTree<T>,
    ac: TineTree<T>,
    left: TineTree<T>,
    right: TineTree<T>,
)
    requires
        left.wf(),
        right.wf(),
        bc@ == b@.union(c@),
        left@ == a@.intersect(bc@),
        ab@ == a@.intersect(b@),
        ac@ == a@.intersect(c@),
        right@ == ab@.union(ac@),
    ensures
        a@.intersect(b@.union(c@)) == a@.intersect(b@).union(a@.intersect(c@)),
        left.tines() == right.tines(),
{
    assert(a@.intersect(b@.union(c@)) =~= a@.intersect(b@).union(a@.intersect(c@)));
    assert(left@ =~= right@);
    law_determined(left, right);
}

/// De Morgan for union: `¬(A ∪ B) == ¬A ∩ ¬B`.
pub proof fn law_de_morgan_union<T: Domain>(
    a: TineTree<T>,
    b: TineTree<T>,
    ab: TineTree<T>,
    na: TineTree<T>,
    nb: TineTree<T>,
    left: TineTree<T>,
    right: TineTree<T>,
)
    requires
        left.wf(),
        right.wf(),
        ab@ == a@.union(b@),
        left@ == ab@.complement(),
        na@ == a@.complement(),
        nb@ == b@.complement(),
        right@ == na@.intersect(nb@),
    ensures
        a@.union(b@).complement() == a@.complement().intersect(b@.complement()),
        left.tines() == right.tines(),
{
    assert(a@.union(b@).complement() =~= a@.complement().intersect(b@.complement()));
    assert(left@ =~= right@);
    law_determined(left, right);
}

/// De Morgan for intersection: `¬(A ∩ B) == ¬A ∪ ¬B`.
pub proof fn law_de_morgan_intersect<T: Domain>(
    a: TineTree<T>,
    b: TineTree<T>,
    ab: TineTree<T>,
    na: TineTree<T>,
    nb: TineTree<T>,
    left: TineTree<T>,
    right: TineTree<T>,
)
    requires
        left.wf(),
        right.wf(),
        ab@ == a@.intersect(b@),
        left@ == ab@.complement(),
        na@ == a@.complement(),
        nb@ == b@.complement(),
        right@ == na@.union(nb@),
    ensures
        a@.intersect(b@).complement() == a@.complement().union(b@.complement()),
        left.tines() == right.tines(),
{
    assert(a@.intersect(b@).complement() =~= a@.complement().union(b@.complement()));
    assert(left@ =~= right@);
    law_determined(left, right);
}

/// Double complement: `¬¬A == A`.
pub proof fn law_double_complement<T: Domain>(a: TineTree<T>, na: TineTree<T>, nna: TineTree<T>)
    requires
        a.wf(),
        nna.wf(),
        na@ == a@.complement(),
        nna@ == na@.complement(),
    ensures
        a@.complement().complement() == a@,
        nna.tines() == a.tines(),
{
    assert(a@.complement().complement() =~= a@);
    assert(nna@ =~= a@);
    law_determined(nna, a);
}

/// The tree without tines is the empty set, and the tree of the full
/// interval is the universe.
pub proof fn law_empty_and_full<T: Domain>(empty: TineTree<T>, full: TineTree<T>)
    requires
        empty.tines() == Seq::<Tine<T>>::empty(),
        full.tines() == Tine::<T>::of_interval(RawInterval::Full),
    ensures
        empty.wf(),
        full.wf(),
        empty@ == Set::<int>::empty(),
        full@ == Set::<int>::full(),
{
    lemma_empty_tape(empty.tines());
    lemma_interval_tape(RawInterval::<T>::Full);
    assert(canonical(empty.tines())) by {
        reveal(canonical);
    }
    assert(empty@ =~= Set::<int>::empty());
    assert(full@ =~= Set::<int>::full());
}

/// Identity and annihilator: `A ∪ ∅ == A`, `A ∩ U == A`, `A ∪ U == U` and
/// `A ∩ ∅ == ∅`.
pub proof fn law_identity_annihilator<T: Domain>(
    a: TineTree<T>,
    empty: TineTree<T>,
    full: TineTree<T>,
    a_or_empty: TineTree<T>,
    a_and_full: TineTree<T>,
    a_or_full: TineTree<T>,
    a_and_empty: TineTree<T>,
)
    requires
        a.wf(),
        empty.tines() == Seq::<Tine<T>>::empty(),
        full.tines() == Tine::<T>::of_interval(RawInterval::Full),
        a_or_empty.wf(),
        a_and_full.wf(),
        a_or_full.wf(),
        a_and_empty.wf(),
        a_or_empty@ == a@.union(empty@),
        a_and_full@ == a@.intersect(full@),
        a_or_full@ == a@.union(full@),
        a_and_empty@ == a@.intersect(empty@),
    ensures
        a_or_empty.tines() == a.tines(),
        a_and_full.tines() == a.tines(),
        a_or_full.tines() == full.tines(),
        a_and_empty.tines() == empty.tines(),
{
    law_empty_and_full(empty, full);
    assert(a_or_empty@ =~= a@);
    assert(a_and_full@ =~= a@);
    assert(a_or_full@ =~= full@);
    assert(a_and_empty@ =~= empty@);
    law_determined(a_or_empty, a);
    law_determined(a_and_full, a);
    law_determined(a_or_full, full);
    law_determined(a_and_empty, empty);
}

/// A set minus itself is empty: `A ∖ A == ∅`.
pub proof fn law_minus_self<T: Domain>(a: TineTree<T>, d: TineTree<T>)
    requires
        d.wf(),
        d@ == a@.difference(a@),
    ensures
        a@.difference(a@) == Set::<int>::empty(),
        d.tines() == Seq::<Tine<T>>::empty(),
{
    assert(a@.difference(a@) =~= Set::<int>::empty());
    let e = Seq::<Tine<T>>::empty();
    lemma_empty_tape(e);
    assert(canonical(e)) by {
        reveal(canonical);
    }
    assert forall|x: int| covers(d.tines(), x) == covers(e, x) by {
        assert(points(d.tines()).contains(x) == covers(d.tines(), x));
        assert(!a@.difference(a@).contains(x));
    }
    lemma_tape_determined(d.tines(), e);
}

/// Membership agrees with the intervals: a tree contains a point exactly
/// if one of its intervals contains the point.
pub proof fn law_membership<T: Domain>(a: TineTree<T>, p: T)
    requires
        a.wf(),
    ensures
        a.has(p) == exists|k: int|
            0 <= k < all_pieces(a.tines()).len() && (#[trigger] all_pieces(a.tines())[k]).has(p),
{
    lemma_pieces_cover(a.tines(), site(p));
    let ivs = all_pieces(a.tines());
    if any_covers(ivs, site(p)) {
        let k = choose|k: int| 0 <= k < ivs.len() && (#[trigger] ivs[k]).covers(site(p));
        assert(ivs[k].has(p));
    }
    if exists|k: int| 0 <= k < ivs.len() && (#[trigger] ivs[k]).has(p) {
        let k = choose|k: int| 0 <= k < ivs.len() && (#[trigger] ivs[k]).has(p);
        assert(ivs[k].covers(site(p)));
    }
}

/// Round trip: the union of the intervals of a tree is the tree.
pub proof fn law_round_trip<T: Domain>(a: TineTree<T>, back: TineTree<T>)
    requires
        a.wf(),
        back.wf(),
        back@ == covered(all_pieces(a.tines())),
    ensures
        back.tines() == a.tines(),
{
    lemma_pieces_points(a.tines());
    law_determined(back, a);
}

/// Canonicality: in a canonical tree each tine stands strictly before the
/// next, so that no two tines share a place and could merge; each tine
/// closes exactly what the tine before it opened, and the last tine opens
/// nothing; an infinite tine stands only at its end of the tree; a tree of
/// one tine holds a lone included point; and each interval of the tree is
/// canonical and not empty.
pub proof fn law_canonical<T: Domain>(a: TineTree<T>)
    requires
        a.wf(),
    ensures
        forall|i: int| 0 <= i < a.tines().len() ==> (#[trigger] a.tines()[i]).valid(),
        forall|i: int|
            0 <= i < a.tines().len() - 1 ==> (#[trigger] a.tines()[i]).before(a.tines()[i + 1])
                && !a.tines()[i].same_place(a.tines()[i + 1]),
        forall|i: int|
            0 <= i < a.tines().len() ==> (#[trigger] a.tines()[i]).closes() == (i > 0
                && a.tines()[i - 1].opens()),
        a.tines().len() > 0 ==> !a.tines().last().opens(),
        forall|i: int|
            0 <= i < a.tines().len() && #[trigger] a.tines()[i] == Tine::<T>::Lower(
                Bound::Infinite,
            ) ==> i == 0,
        forall|i: int|
            0 <= i < a.tines().len() && #[trigger] a.tines()[i] == Tine::<T>::Upper(
                Bound::Infinite,
            ) ==> i == a.tines().len() - 1,
        a.tines().len() == 1 ==> a.tines()[0] matches Tine::Point(Bound::Include(_)),
        forall|k: int|
            0 <= k < all_pieces(a.tines()).len() ==> (#[trigger] all_pieces(a.tines())[k]).wf()
                && !(all_pieces(a.tines())[k] is Empty),
{
    let s = a.tines();
    lemma_pieces_wf(s);
    if s.len() == 1 {
        lemma_single(s);
    }
    reveal(canonical);
    assert forall|i: int| 0 <= i < s.len() - 1 implies (#[trigger] s[i]).before(s[i + 1])
        && !s[i].same_place(s[i + 1]) by {
        assert(s[i].before(s[i + 1]));
    }
    assert forall|i: int| 0 <= i < s.len() implies (#[trigger] s[i]).closes() == (i > 0 && s[i
        - 1].opens()) by {
        assert(s[i].closes() == entering(s, i));
    }
    assert forall|i: int|
        0 <= i < s.len() && #[trigger] s[i] == Tine::<T>::Lower(Bound::Infinite) implies i
        == 0 by {
        lemma_place_even(s[i]);
        if i > 0 {
            lemma_place_even(s[0]);
            assert(s[0].before(s[i]));
        }
    }
    assert forall|i: int|
        0 <= i < s.len() && #[trigger] s[i] == Tine::<T>::Upper(Bound::Infinite) implies i
        == s.len() - 1 by {
        lemma_place_even(s[i]);
        if i < s.len() - 1 {
            lemma_place_even(s[s.len() - 1]);
            assert(s[i].before(s[s.len() - 1]));
        }
    }
}

} // verus!
