use interval_set::bound::Bound;
use interval_set::raw_interval::RawInterval;
use interval_set::tine::Tine;
use interval_set::utilities::Split;
use std::cmp::Ordering;

/// What a finite tine says just before, at and just after its place.
fn states(t: &Tine<i32>) -> (bool, bool, bool) {
    let holds = matches!(t.into_inner(), Bound::Include(_));
    (t.is_upper_bound(), holds, t.is_lower_bound())
}

/// The finite tine at `p` that says the three states, if they differ.
fn tine_of(p: i32, before: bool, at: bool, after: bool) -> Option<Tine<i32>> {
    match (before, at, after) {
        (true, true, true) | (false, false, false) => None,
        (false, true, true) => Some(Tine::Lower(Bound::Include(p))),
        (false, false, true) => Some(Tine::Lower(Bound::Exclude(p))),
        (true, true, false) => Some(Tine::Upper(Bound::Include(p))),
        (true, false, false) => Some(Tine::Upper(Bound::Exclude(p))),
        (false, true, false) => Some(Tine::Point(Bound::Include(p))),
        (true, false, true) => Some(Tine::Point(Bound::Exclude(p))),
    }
}

fn finite_tines(p: i32) -> Vec<Tine<i32>> {
    vec![
        Tine::Lower(Bound::Include(p)),
        Tine::Lower(Bound::Exclude(p)),
        Tine::Point(Bound::Include(p)),
        Tine::Point(Bound::Exclude(p)),
        Tine::Upper(Bound::Include(p)),
        Tine::Upper(Bound::Exclude(p)),
    ]
}

#[test]
fn union_table_is_pointwise_or() {
    for a in finite_tines(7) {
        for b in finite_tines(7) {
            let (ab, aa, ao) = states(&a);
            let (bb, ba, bo) = states(&b);
            assert_eq!(a.union(&b), tine_of(7, ab || bb, aa || ba, ao || bo));
        }
    }
}

#[test]
fn intersect_table_is_pointwise_and() {
    for a in finite_tines(7) {
        for b in finite_tines(7) {
            let (ab, aa, ao) = states(&a);
            let (bb, ba, bo) = states(&b);
            assert_eq!(a.intersect(&b), tine_of(7, ab && bb, aa && ba, ao && bo));
        }
    }
}

#[test]
fn minus_table_is_pointwise_and_not() {
    for a in finite_tines(7) {
        for b in finite_tines(7) {
            let (ab, aa, ao) = states(&a);
            let (bb, ba, bo) = states(&b);
            assert_eq!(a.minus(&b), tine_of(7, ab && !bb, aa && !ba, ao && !bo));
        }
    }
}

#[test]
fn union_rules_named_by_kind() {
    let li = Tine::Lower(Bound::Include(1));
    let le = Tine::Lower(Bound::Exclude(1));
    let ui = Tine::Upper(Bound::Include(1));
    let ue = Tine::Upper(Bound::Exclude(1));
    let pi = Tine::Point(Bound::Include(1));
    let pe = Tine::Point(Bound::Exclude(1));
    assert_eq!(li.union(&le), Some(li));
    assert_eq!(le.union(&li), Some(li));
    assert_eq!(ue.union(&ui), Some(ui));
    assert_eq!(li.union(&ui), None);
    assert_eq!(le.union(&ue), Some(pe));
    assert_eq!(le.union(&pi), Some(li));
    assert_eq!(le.union(&pe), Some(pe));
    assert_eq!(li.union(&pe), None);
    assert_eq!(ue.union(&pi), Some(ui));
    assert_eq!(pi.union(&pi), Some(pi));
    assert_eq!(pe.union(&pe), Some(pe));
    assert_eq!(pi.union(&pe), None);
}

#[test]
fn intersect_and_minus_rules_named_by_kind() {
    let li = Tine::Lower(Bound::Include(1));
    let le = Tine::Lower(Bound::Exclude(1));
    let ui = Tine::Upper(Bound::Include(1));
    let ue = Tine::Upper(Bound::Exclude(1));
    let pi = Tine::Point(Bound::Include(1));
    let pe = Tine::Point(Bound::Exclude(1));
    assert_eq!(li.intersect(&le), Some(le));
    assert_eq!(li.intersect(&ui), Some(pi));
    assert_eq!(li.intersect(&ue), None);
    assert_eq!(le.intersect(&ui), None);
    assert_eq!(ui.intersect(&ue), Some(ue));
    assert_eq!(li.intersect(&pe), Some(le));
    assert_eq!(pi.minus(&pi), None);
    assert_eq!(li.minus(&le), Some(pi));
    assert_eq!(ui.minus(&ue), Some(pi));
    assert_eq!(le.minus(&pi), Some(le));
    assert_eq!(li.minus(&pi), Some(le));
    assert_eq!(pe.minus(&li), Some(ue));
    assert_eq!(pe.minus(&ui), Some(le));
    assert_eq!(pe.minus(&pe), None);
}

#[test]
fn infinite_tines_merge_with_themselves() {
    let low: Tine<i32> = Tine::Lower(Bound::Infinite);
    let up: Tine<i32> = Tine::Upper(Bound::Infinite);
    assert_eq!(low.union(&low), Some(low));
    assert_eq!(up.union(&up), Some(up));
    assert_eq!(low.intersect(&low), Some(low));
    assert_eq!(up.intersect(&up), Some(up));
    assert_eq!(low.minus(&low), None);
    assert_eq!(up.minus(&up), None);
}

#[test]
fn invert_exchanges_inside_and_outside() {
    assert_eq!(Tine::Lower(Bound::Include(3)).invert(), Tine::Upper(Bound::Exclude(3)));
    assert_eq!(Tine::Lower(Bound::Exclude(3)).invert(), Tine::Upper(Bound::Include(3)));
    assert_eq!(Tine::Point(Bound::Include(3)).invert(), Tine::Point(Bound::Exclude(3)));
    assert_eq!(Tine::Point(Bound::Exclude(3)).invert(), Tine::Point(Bound::Include(3)));
    assert_eq!(Tine::Upper(Bound::Include(3)).invert(), Tine::Lower(Bound::Exclude(3)));
    assert_eq!(Tine::Upper(Bound::Exclude(3)).invert(), Tine::Lower(Bound::Include(3)));
    for t in finite_tines(3) {
        assert_eq!(t.invert().invert(), t);
        let (b, a, o) = states(&t);
        assert_eq!(states(&t.invert()), (!b, !a, !o));
    }
}

#[test]
fn sided_predicates() {
    let li = Tine::Lower(Bound::Include(1));
    let ue = Tine::Upper(Bound::Exclude(1));
    let pi = Tine::Point(Bound::Include(1));
    let pe = Tine::Point(Bound::Exclude(1));
    assert!(li.is_lower_bound() && !li.is_upper_bound());
    assert!(ue.is_upper_bound() && !ue.is_lower_bound());
    assert!(pe.is_lower_bound() && pe.is_upper_bound());
    assert!(!pi.is_lower_bound() && !pi.is_upper_bound());
    assert!(pi.is_point_include() && !pi.is_point_exclude());
    assert!(pe.is_point_exclude() && !pe.is_point_include());
    assert!(!li.is_point_include() && !ue.is_point_exclude());
    assert!(Tine::<i32>::Lower(Bound::Infinite).is_lower_bound());
    assert!(Tine::<i32>::Upper(Bound::Infinite).is_upper_bound());
}

#[test]
fn as_ref_and_into_inner() {
    assert_eq!(Tine::Lower(Bound::Include(4)).as_ref(), Some(&4));
    assert_eq!(Tine::Point(Bound::Exclude(5)).as_ref(), Some(&5));
    assert_eq!(Tine::<i32>::Upper(Bound::Infinite).as_ref(), None);
    assert_eq!(Tine::Upper(Bound::Exclude(6)).into_inner(), Bound::Exclude(6));
    assert_eq!(Tine::<i32>::Lower(Bound::Infinite).into_inner(), Bound::Infinite);
}

#[test]
fn tines_of_each_interval_shape() {
    let two = |l, u| Split::Two(Tine::Lower(l), Tine::Upper(u));
    assert_eq!(Tine::<i32>::from_raw_interval(RawInterval::Empty), Split::Zero);
    assert_eq!(
        Tine::from_raw_interval(RawInterval::Point(1)),
        Split::One(Tine::Point(Bound::Include(1)))
    );
    assert_eq!(
        Tine::from_raw_interval(RawInterval::Open(1, 2)),
        two(Bound::Exclude(1), Bound::Exclude(2))
    );
    assert_eq!(
        Tine::from_raw_interval(RawInterval::LeftOpen(1, 2)),
        two(Bound::Exclude(1), Bound::Include(2))
    );
    assert_eq!(
        Tine::from_raw_interval(RawInterval::RightOpen(1, 2)),
        two(Bound::Include(1), Bound::Exclude(2))
    );
    assert_eq!(
        Tine::from_raw_interval(RawInterval::Closed(1, 2)),
        two(Bound::Include(1), Bound::Include(2))
    );
    assert_eq!(
        Tine::from_raw_interval(RawInterval::UpTo(2)),
        two(Bound::Infinite, Bound::Exclude(2))
    );
    assert_eq!(
        Tine::from_raw_interval(RawInterval::UpFrom(1)),
        two(Bound::Exclude(1), Bound::Infinite)
    );
    assert_eq!(
        Tine::from_raw_interval(RawInterval::To(2)),
        two(Bound::Infinite, Bound::Include(2))
    );
    assert_eq!(
        Tine::from_raw_interval(RawInterval::From(1)),
        two(Bound::Include(1), Bound::Infinite)
    );
    assert_eq!(
        Tine::<i32>::from_raw_interval(RawInterval::Full),
        two(Bound::Infinite, Bound::Infinite)
    );
}

#[test]
fn tines_compare_by_place_alone() {
    let low: Tine<i32> = Tine::Lower(Bound::Infinite);
    let up: Tine<i32> = Tine::Upper(Bound::Infinite);
    let a = Tine::Lower(Bound::Include(1));
    let b = Tine::Upper(Bound::Exclude(1));
    let c = Tine::Point(Bound::Include(2));
    assert_eq!(a.partial_cmp(&b), Some(Ordering::Equal));
    assert_eq!(a.partial_cmp(&c), Some(Ordering::Less));
    assert_eq!(c.partial_cmp(&b), Some(Ordering::Greater));
    assert_eq!(low.partial_cmp(&low), Some(Ordering::Equal));
    assert_eq!(up.partial_cmp(&up), Some(Ordering::Equal));
    assert_eq!(low.partial_cmp(&a), Some(Ordering::Less));
    assert_eq!(low.partial_cmp(&up), Some(Ordering::Less));
    assert_eq!(up.partial_cmp(&c), Some(Ordering::Greater));
    assert_eq!(a.partial_cmp(&up), Some(Ordering::Less));
    assert_eq!(a.partial_cmp(&low), Some(Ordering::Greater));
    assert!(a < c && c > a && low < up);
    assert_eq!(Tine::cmp(&a, &b), Ordering::Equal);
    assert_eq!(Tine::cmp(&a, &c), Ordering::Less);
    assert_eq!(Tine::cmp(&up, &low), Ordering::Greater);
    assert!(a.precedes(&c) && !c.precedes(&a) && !a.precedes(&b));
    assert!(a.coincides(&b) && !a.coincides(&c) && !low.coincides(&up));
    assert_eq!(Tine::<i32>::Point(Bound::Infinite).partial_cmp(&a), None);
    assert!(!Tine::<i32>::Point(Bound::Infinite).is_valid());
    assert!(a.is_valid() && low.is_valid());
}
