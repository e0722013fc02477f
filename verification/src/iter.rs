//! Walking the intervals of a tree from either end.
use crate::bound::Bound;
use crate::domain::Domain;
use crate::pieces::{lemma_piece, lemma_pieces_front, piece, pieces, starts};
use crate::raw_interval::RawInterval;
use crate::tape::{canonical};
use crate::tine::Tine;
use vstd::prelude::*;

verus! {

/// Takes the first interval that begins at a tine from index `front` up to
/// index `back`. Returns the interval and the index behind its first tine,
/// or `None` and `back` if no interval begins in the range.
fn take_front<T: Domain>(tines: &Vec<Tine<T>>, front: usize, back: usize) -> (r: (
    Option<RawInterval<T>>,
    usize,
))
    requires
        canonical(tines@),
        front <= back <= tines@.len(),
    ensures
        front <= r.1 <= back,
        match r.0 {
            Some(iv) => {
                &&& pieces(tines@, front as int, back as int).len() > 0
                &&& iv == pieces(tines@, front as int, back as int).first()
                &&& pieces(tines@, r.1 as int, back as int) == pieces(
                    tines@,
                    front as int,
                    back as int,
                ).drop_first()
            },
            None => pieces(tines@, front as int, back as int).len() == 0 && r.1 == back,
        },
{
    let mut at = front;
    while at < back && is_upper(&tines[at])
        invariant
            front <= at <= back <= tines@.len(),
            pieces(tines@, at as int, back as int) == pieces(tines@, front as int, back as int),
        decreases back - at,
    {
        proof {
            lemma_pieces_front(tines@, at as int, back as int);
        }
        at = at + 1;
    }
    if at >= back {
        return (None, back);
    }
    proof {
        lemma_pieces_front(tines@, at as int, back as int);
        lemma_piece(tines@, at as int);
        assert((seq![piece(tines@, at as int)] + pieces(tines@, at + 1, back as int)).drop_first()
            =~= pieces(tines@, at + 1, back as int));
    }
    let lower = tines[at];
    let interval = match lower {
        // The tine is a single point.
        Tine::Point(Bound::Include(p)) => RawInterval::Point(p),
        // The tine begins an interval, and the next tine ends it.
        _ => {
            let upper = tines[at + 1];
            RawInterval::new(lower.into_inner(), upper.into_inner())
        },
    };
    (Some(interval), at + 1)
}

/// Takes the last interval that begins at a tine from index `front` up to
/// index `back`. Returns the interval and the index of its first tine, or
/// `None` and `front` if no interval begins in the range.
fn take_back<T: Domain>(tines: &Vec<Tine<T>>, front: usize, back: usize) -> (r: (
    Option<RawInterval<T>>,
    usize,
))
    requires
        canonical(tines@),
        front <= back <= tines@.len(),
    ensures
        front <= r.1 <= back,
        match r.0 {
            Some(iv) => {
                &&& pieces(tines@, front as int, back as int).len() > 0
                &&& iv == pieces(tines@, front as int, back as int).last()
                &&& pieces(tines@, front as int, r.1 as int) == pieces(
                    tines@,
                    front as int,
                    back as int,
                ).drop_last()
            },
            None => pieces(tines@, front as int, back as int).len() == 0 && r.1 == front,
        },
{
    let mut at = back;
    while at > front && is_upper(&tines[at - 1])
        invariant
            front <= at <= back <= tines@.len(),
            pieces(tines@, front as int, at as int) == pieces(tines@, front as int, back as int),
        decreases at - front,
    {
        at = at - 1;
    }
    if at <= front {
        return (None, front);
    }
    proof {
        lemma_piece(tines@, at - 1);
        assert(pieces(tines@, front as int, at - 1).push(piece(tines@, at - 1)).drop_last()
            =~= pieces(tines@, front as int, at - 1));
    }
    let lower = tines[at - 1];
    let interval = match lower {
        // The tine is a single point.
        Tine::Point(Bound::Include(p)) => RawInterval::Point(p),
        // The tine begins an interval, and the next tine ends it.
        _ => {
            let upper = tines[at];
            RawInterval::new(lower.into_inner(), upper.into_inner())
        },
    };
    (Some(interval), at - 1)
}

/// Returns `true` if no interval begins at the tine.
fn is_upper<T: Domain>(tine: &Tine<T>) -> (r: bool)
    ensures
        r == !starts(*tine),
{
    match tine {
        Tine::Upper(_) => true,
        _ => false,
    }
}

/// A walk over the intervals of a borrowed tree, from either end.
pub struct RawIntervalIter<'t, T: Domain> {
    tines: &'t Vec<Tine<T>>,
    front: usize,
    back: usize,
}

impl<'t, T: Domain> RawIntervalIter<'t, T> {
    /// The tines of the tree.
    pub closed spec fn tape(&self) -> Seq<Tine<T>> {
        self.tines@
    }

    /// The walk is within the tree, and the tree is canonical.
    pub closed spec fn wf(&self) -> bool {
        canonical(self.tines@) && self.front <= self.back <= self.tines@.len()
    }

    /// The intervals that are left, in ascending order.
    pub closed spec fn view(&self) -> Seq<RawInterval<T>> {
        pieces(self.tines@, self.front as int, self.back as int)
    }

    /// A walk over all intervals of a canonical list of tines.
    pub(crate) fn over(tines: &'t Vec<Tine<T>>) -> (r: Self)
        requires
            canonical(tines@),
        ensures
            r.wf(),
            r.tape() == tines@,
            r@ == pieces(tines@, 0, tines@.len() as int),
    {
        RawIntervalIter { tines, front: 0, back: tines.len() }
    }

    /// Takes the first interval that is left.
    pub fn next(&mut self) -> (r: Option<RawInterval<T>>)
        requires
            old(self).wf(),
        ensures
            final(self).wf(),
            final(self).tape() == old(self).tape(),
            match r {
                Some(iv) => {
                    &&& old(self)@.len() > 0
                    &&& iv == old(self)@.first()
                    &&& final(self)@ == old(self)@.drop_first()
                },
                None => old(self)@.len() == 0 && final(self)@ == old(self)@,
            },
    {
        let (r, front) = take_front(self.tines, self.front, self.back);
        self.front = front;
        r
    }

    /// Takes the last interval that is left.
    pub fn next_back(&mut self) -> (r: Option<RawInterval<T>>)
        requires
            old(self).wf(),
        ensures
            final(self).wf(),
            final(self).tape() == old(self).tape(),
            match r {
                Some(iv) => {
                    &&& old(self)@.len() > 0
                    &&& iv == old(self)@.last()
                    &&& final(self)@ == old(self)@.drop_last()
                },
                None => old(self)@.len() == 0 && final(self)@ == old(self)@,
            },
    {
        let (r, back) = take_back(self.tines, self.front, self.back);
        self.back = back;
        r
    }
}

/// A walk over the intervals of a tree that was given away, from either
/// end.
pub struct IntoIter<T: Domain> {
    tines: Vec<Tine<T>>,
    front: usize,
    back: usize,
}

impl<T: Domain> IntoIter<T> {
    /// The tines of the tree.
    pub closed spec fn tape(&self) -> Seq<Tine<T>> {
        self.tines@
    }

    /// The walk is within the tree, and the tree is canonical.
    pub closed spec fn wf(&self) -> bool {
        canonical(self.tines@) && self.front <= self.back <= self.tines@.len()
    }

    /// The intervals that are left, in ascending order.
    pub closed spec fn view(&self) -> Seq<RawInterval<T>> {
        pieces(self.tines@, self.front as int, self.back as int)
    }

    /// A walk over all intervals of a canonical list of tines.
    pub(crate) fn over(tines: Vec<Tine<T>>) -> (r: Self)
        requires
            canonical(tines@),
        ensures
            r.wf(),
            r.tape() == tines@,
            r@ == pieces(tines@, 0, tines@.len() as int),
    {
        let back = tines.len();
        IntoIter { tines, front: 0, back }
    }

    /// Takes the first interval that is left.
    pub fn next(&mut self) -> (r: Option<RawInterval<T>>)
        requires
            old(self).wf(),
        ensures
            final(self).wf(),
            final(self).tape() == old(self).tape(),
            match r {
                Some(iv) => {
                    &&& old(self)@.len() > 0
                    &&& iv == old(self)@.first()
                    &&& final(self)@ == old(self)@.drop_first()
                },
                None => old(self)@.len() == 0 && final(self)@ == old(self)@,
            },
    {
        let (r, front) = take_front(&self.tines, self.front, self.back);
        self.front = front;
        r
    }

    /// Takes the last interval that is left.
    pub fn next_back(&mut self) -> (r: Option<RawInterval<T>>)
        requires
            old(self).wf(),
        ensures
            final(self).wf(),
            final(self).tape() == old(self).tape(),
            match r {
                Some(iv) => {
                    &&& old(self)@.len() > 0
                    &&& iv == old(self)@.last()
                    &&& final(self)@ == old(self)@.drop_last()
                },
                None => old(self)@.len() == 0 && final(self)@ == old(self)@,
            },
    {
        let (r, back) = take_back(&self.tines, self.front, self.back);
        self.back = back;
        r
    }
}

} // verus!
