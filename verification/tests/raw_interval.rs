use interval_set::bound::Bound;
use interval_set::domain::Domain;
use interval_set::raw_interval::{ends_within, inner_lower, inner_upper, RawInterval};

fn bounds() -> Vec<Bound<i32>> {
    let mut out = vec![Bound::Infinite];
    for p in -2..3 {
        out.push(Bound::Include(p));
        out.push(Bound::Exclude(p));
    }
    out
}

fn admits_below(b: &Bound<i32>, p: i32) -> bool {
    match b {
        Bound::Include(l) => *l <= p,
        Bound::Exclude(l) => *l < p,
        Bound::Infinite => true,
    }
}

fn admits_above(b: &Bound<i32>, p: i32) -> bool {
    match b {
        Bound::Include(u) => p <= *u,
        Bound::Exclude(u) => p < *u,
        Bound::Infinite => true,
    }
}

fn shapes() -> Vec<RawInterval<i32>> {
    let mut out = Vec::new();
    for l in bounds() {
        for u in bounds() {
            out.push(RawInterval::new(l, u));
        }
    }
    out
}

#[test]
fn new_folds_bounds_into_shapes() {
    assert_eq!(RawInterval::new(Bound::Include(1), Bound::Include(3)), RawInterval::Closed(1, 3));
    assert_eq!(RawInterval::new(Bound::Include(1), Bound::Include(1)), RawInterval::Point(1));
    assert_eq!(RawInterval::new(Bound::Include(3), Bound::Include(1)), RawInterval::Empty);
    assert_eq!(RawInterval::new(Bound::Include(1), Bound::Exclude(3)), RawInterval::RightOpen(1, 3));
    assert_eq!(RawInterval::new(Bound::Include(1), Bound::Exclude(1)), RawInterval::Empty);
    assert_eq!(RawInterval::new(Bound::Exclude(1), Bound::Include(3)), RawInterval::LeftOpen(1, 3));
    assert_eq!(RawInterval::new(Bound::Exclude(1), Bound::Include(1)), RawInterval::Empty);
    assert_eq!(RawInterval::new(Bound::Exclude(1), Bound::Exclude(3)), RawInterval::Open(1, 3));
    assert_eq!(RawInterval::new(Bound::Exclude(1), Bound::Exclude(1)), RawInterval::Empty);
    assert_eq!(RawInterval::new(Bound::Exclude(3), Bound::Exclude(1)), RawInterval::Empty);
    assert_eq!(RawInterval::new(Bound::Exclude(0), Bound::Exclude(1)), RawInterval::Open(0, 1));
    assert_eq!(RawInterval::new(Bound::Include(1), Bound::Infinite), RawInterval::From(1));
    assert_eq!(RawInterval::new(Bound::Exclude(1), Bound::Infinite), RawInterval::UpFrom(1));
    assert_eq!(RawInterval::new(Bound::Infinite, Bound::Include(1)), RawInterval::To(1));
    assert_eq!(RawInterval::new(Bound::Infinite, Bound::Exclude(1)), RawInterval::UpTo(1));
    assert_eq!(RawInterval::<i32>::new(Bound::Infinite, Bound::Infinite), RawInterval::Full);
}

#[test]
fn new_contains_what_both_bounds_admit() {
    for l in bounds() {
        for u in bounds() {
            let interval = RawInterval::new(l, u);
            for p in -4..5 {
                assert_eq!(interval.contains(&p), admits_below(&l, p) && admits_above(&u, p));
            }
        }
    }
}

#[test]
fn shape_tests() {
    assert!(RawInterval::<i32>::Empty.is_empty());
    assert!(!RawInterval::<i32>::Full.is_empty());
    assert!(!RawInterval::Point(1).is_empty());
    assert!(RawInterval::<i32>::Full.is_full());
    assert!(!RawInterval::<i32>::Empty.is_full());
    assert!(!RawInterval::From(1).is_full());
}

#[test]
fn contains_each_shape() {
    assert!(!RawInterval::Empty.contains(&0));
    assert!(RawInterval::Full.contains(&0));
    assert!(RawInterval::Point(1).contains(&1) && !RawInterval::Point(1).contains(&2));
    let open = RawInterval::Open(1, 4);
    assert!(!open.contains(&1) && open.contains(&2) && open.contains(&3) && !open.contains(&4));
    let left = RawInterval::LeftOpen(1, 4);
    assert!(!left.contains(&1) && left.contains(&4) && !left.contains(&5));
    let right = RawInterval::RightOpen(1, 4);
    assert!(right.contains(&1) && !right.contains(&4) && !right.contains(&0));
    let closed = RawInterval::Closed(1, 4);
    assert!(closed.contains(&1) && closed.contains(&4) && !closed.contains(&0));
    assert!(RawInterval::UpTo(1).contains(&0) && !RawInterval::UpTo(1).contains(&1));
    assert!(RawInterval::To(1).contains(&1) && !RawInterval::To(1).contains(&2));
    assert!(RawInterval::UpFrom(1).contains(&2) && !RawInterval::UpFrom(1).contains(&1));
    assert!(RawInterval::From(1).contains(&1) && !RawInterval::From(1).contains(&0));
}

#[test]
fn intersect_named_cases() {
    let a = RawInterval::Closed(0, 10);
    assert_eq!(a.intersect(&RawInterval::Open(5, 15)), RawInterval::LeftOpen(5, 10));
    assert_eq!(a.intersect(&RawInterval::Closed(10, 15)), RawInterval::Point(10));
    assert_eq!(a.intersect(&RawInterval::Open(10, 15)), RawInterval::Empty);
    assert_eq!(a.intersect(&RawInterval::Closed(11, 15)), RawInterval::Empty);
    assert_eq!(a.intersect(&RawInterval::Empty), RawInterval::Empty);
    assert_eq!(a.intersect(&RawInterval::Full), a);
    assert_eq!(a.intersect(&RawInterval::UpTo(3)), RawInterval::RightOpen(0, 3));
    assert_eq!(a.intersect(&RawInterval::From(3)), RawInterval::Closed(3, 10));
    assert_eq!(a.intersect(&RawInterval::Point(3)), RawInterval::Point(3));
    assert_eq!(
        RawInterval::UpFrom(0).intersect(&RawInterval::To(5)),
        RawInterval::LeftOpen(0, 5)
    );
    assert_eq!(RawInterval::Open(0, 1).intersect(&RawInterval::Open(0, 1)), RawInterval::Open(0, 1));
}

#[test]
fn intersect_contains_what_both_contain() {
    for a in shapes() {
        for b in shapes() {
            let both = a.intersect(&b);
            assert_eq!(both, b.intersect(&a));
            for p in -4..5 {
                assert_eq!(both.contains(&p), a.contains(&p) && b.contains(&p));
            }
        }
    }
}

#[test]
fn closure_includes_the_finite_ends() {
    assert_eq!(RawInterval::Open(1, 4).closure(), RawInterval::Closed(1, 4));
    assert_eq!(RawInterval::LeftOpen(1, 4).closure(), RawInterval::Closed(1, 4));
    assert_eq!(RawInterval::RightOpen(1, 4).closure(), RawInterval::Closed(1, 4));
    assert_eq!(RawInterval::Closed(1, 4).closure(), RawInterval::Closed(1, 4));
    assert_eq!(RawInterval::UpTo(4).closure(), RawInterval::To(4));
    assert_eq!(RawInterval::UpFrom(1).closure(), RawInterval::From(1));
    assert_eq!(RawInterval::To(4).closure(), RawInterval::To(4));
    assert_eq!(RawInterval::From(1).closure(), RawInterval::From(1));
    assert_eq!(RawInterval::Point(1).closure(), RawInterval::Point(1));
    assert_eq!(RawInterval::<i32>::Empty.closure(), RawInterval::Empty);
    assert_eq!(RawInterval::<i32>::Full.closure(), RawInterval::Full);
}

#[test]
fn ends_of_each_shape() {
    assert_eq!(RawInterval::<i32>::Empty.lower_bound(), None);
    assert_eq!(RawInterval::<i32>::Empty.upper_bound(), None);
    assert_eq!(RawInterval::Point(1).lower_bound(), Some(Bound::Include(1)));
    assert_eq!(RawInterval::Point(1).upper_bound(), Some(Bound::Include(1)));
    assert_eq!(RawInterval::LeftOpen(1, 4).lower_bound(), Some(Bound::Exclude(1)));
    assert_eq!(RawInterval::LeftOpen(1, 4).upper_bound(), Some(Bound::Include(4)));
    assert_eq!(RawInterval::UpTo(4).lower_bound(), Some(Bound::Infinite));
    assert_eq!(RawInterval::UpTo(4).upper_bound(), Some(Bound::Exclude(4)));
    assert_eq!(RawInterval::From(1).upper_bound(), Some(Bound::Infinite));
    for l in bounds() {
        for u in bounds() {
            let interval = RawInterval::new(l, u);
            if !interval.is_empty() && !matches!(interval, RawInterval::Point(_)) {
                assert_eq!(interval.lower_bound(), Some(l));
                assert_eq!(interval.upper_bound(), Some(u));
            }
        }
    }
}

#[test]
fn stricter_of_two_ends() {
    assert_eq!(inner_lower(Bound::Include(1), Bound::Exclude(1)), Bound::Exclude(1));
    assert_eq!(inner_lower(Bound::Include(2), Bound::Exclude(1)), Bound::Include(2));
    assert_eq!(inner_lower(Bound::Infinite, Bound::Exclude(1)), Bound::Exclude(1));
    assert_eq!(inner_upper(Bound::Include(1), Bound::Exclude(1)), Bound::Exclude(1));
    assert_eq!(inner_upper(Bound::Include(1), Bound::Exclude(2)), Bound::Include(1));
    assert_eq!(inner_upper(Bound::Include(1), Bound::Infinite), Bound::Include(1));
    for a in bounds() {
        for b in bounds() {
            for p in -4..5 {
                assert_eq!(
                    admits_below(&inner_lower(a, b), p),
                    admits_below(&a, p) && admits_below(&b, p)
                );
                assert_eq!(
                    admits_above(&inner_upper(a, b), p),
                    admits_above(&a, p) && admits_above(&b, p)
                );
            }
            let within = ends_within(&a, &b);
            for p in -4..5 {
                if within && admits_above(&a, p) {
                    assert!(admits_above(&b, p));
                }
                if !within && admits_above(&b, p) {
                    assert!(admits_above(&a, p));
                }
            }
        }
    }
    assert!(ends_within(&Bound::Exclude(1), &Bound::Include(1)));
    assert!(!ends_within(&Bound::Include(1), &Bound::Exclude(1)));
    assert!(ends_within(&Bound::Include(1), &Bound::<i32>::Infinite));
    assert!(!ends_within(&Bound::<i32>::Infinite, &Bound::Include(1)));
}

#[test]
fn bound_as_ref_and_map() {
    assert_eq!(Bound::Include(1).as_ref(), Some(&1));
    assert_eq!(Bound::Exclude(2).as_ref(), Some(&2));
    assert_eq!(Bound::<i32>::Infinite.as_ref(), None);
    assert_eq!(Bound::Include(1).map(|p: i32| p + 1), Bound::Include(2));
    assert_eq!(Bound::Exclude(1).map(|p: i32| p * 10), Bound::Exclude(10));
    assert_eq!(Bound::<i32>::Infinite.map(|p: i32| p + 1), Bound::Infinite);
}

#[test]
fn domain_of_integers() {
    assert!(1i32.precedes(&2) && !2i32.precedes(&1) && !1i32.precedes(&1));
    assert!(1i32.coincides(&1) && !1i32.coincides(&2));
    assert!((-1i64).precedes(&0) && 0u8.precedes(&255) && !255u8.precedes(&0));
    assert!(i128::MIN.precedes(&i128::MAX) && u64::MAX.coincides(&u64::MAX));
    assert!(3usize.precedes(&4) && (-3isize).precedes(&-2) && 7u16.coincides(&7));
    assert!(1i8.precedes(&2) && 1i16.precedes(&2) && 1u32.precedes(&2) && 1u128.precedes(&2));
}
