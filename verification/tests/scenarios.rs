use interval_set::bound::Bound;
use interval_set::raw_interval::RawInterval;
use interval_set::tine::Tine;
use interval_set::tine_tree::TineTree;

fn tree(intervals: Vec<RawInterval<i32>>) -> TineTree<i32> {
    TineTree::from_iter(intervals)
}

fn intervals(tree: &TineTree<i32>) -> Vec<RawInterval<i32>> {
    let mut walk = tree.iter_intervals();
    let mut out = Vec::new();
    while let Some(interval) = walk.next() {
        out.push(interval);
    }
    out
}

fn intervals_reversed(tree: &TineTree<i32>) -> Vec<RawInterval<i32>> {
    let mut walk = tree.iter_intervals();
    let mut out = Vec::new();
    while let Some(interval) = walk.next_back() {
        out.push(interval);
    }
    out
}

#[test]
fn closed_and_open_overlap() {
    let a = tree(vec![RawInterval::Closed(0, 10)]);
    let b = tree(vec![RawInterval::Open(5, 15)]);
    assert_eq!(intervals(&a.union(&b)), vec![RawInterval::RightOpen(0, 15)]);
    assert_eq!(intervals(&a.intersect(&b)), vec![RawInterval::LeftOpen(5, 10)]);
    assert_eq!(intervals(&a.minus(&b)), vec![RawInterval::Closed(0, 5)]);
    assert_eq!(
        intervals(&a.complement()),
        vec![RawInterval::UpTo(0), RawInterval::UpFrom(10)]
    );
}

#[test]
fn closed_and_open_overlap_in_place() {
    let mut u = tree(vec![RawInterval::Closed(0, 10)]);
    u.union_in_place(&RawInterval::Open(5, 15));
    assert_eq!(intervals(&u), vec![RawInterval::RightOpen(0, 15)]);
    let mut i = tree(vec![RawInterval::Closed(0, 10)]);
    i.intersect_in_place(&RawInterval::Open(5, 15));
    assert_eq!(intervals(&i), vec![RawInterval::LeftOpen(5, 10)]);
    let mut m = tree(vec![RawInterval::Closed(0, 10)]);
    m.minus_in_place(&RawInterval::Open(5, 15));
    assert_eq!(intervals(&m), vec![RawInterval::Closed(0, 5)]);
}

#[test]
fn bridge_between_two_closed_intervals() {
    let a = tree(vec![RawInterval::Closed(0, 5), RawInterval::Closed(10, 15)]);
    let b = tree(vec![RawInterval::Closed(5, 10)]);
    assert_eq!(intervals(&a.union(&b)), vec![RawInterval::Closed(0, 15)]);
    assert_eq!(
        intervals(&a.intersect(&b)),
        vec![RawInterval::Point(5), RawInterval::Point(10)]
    );
    assert_eq!(
        intervals(&a.minus(&b)),
        vec![RawInterval::RightOpen(0, 5), RawInterval::LeftOpen(10, 15)]
    );
}

#[test]
fn bridge_between_two_closed_intervals_in_place() {
    let mut u = tree(vec![RawInterval::Closed(0, 5), RawInterval::Closed(10, 15)]);
    u.union_in_place(&RawInterval::Closed(5, 10));
    assert_eq!(intervals(&u), vec![RawInterval::Closed(0, 15)]);
    let mut i = tree(vec![RawInterval::Closed(0, 5), RawInterval::Closed(10, 15)]);
    i.intersect_in_place(&RawInterval::Closed(5, 10));
    assert_eq!(intervals(&i), vec![RawInterval::Point(5), RawInterval::Point(10)]);
    let mut m = tree(vec![RawInterval::Closed(0, 5), RawInterval::Closed(10, 15)]);
    m.minus_in_place(&RawInterval::Closed(5, 10));
    assert_eq!(
        intervals(&m),
        vec![RawInterval::RightOpen(0, 5), RawInterval::LeftOpen(10, 15)]
    );
}

#[test]
fn point_inside_open_interval() {
    let a = tree(vec![RawInterval::Point(3)]);
    let b = tree(vec![RawInterval::Open(2, 4)]);
    assert_eq!(intervals(&a.union(&b)), vec![RawInterval::Open(2, 4)]);
    assert_eq!(intervals(&a.intersect(&b)), vec![RawInterval::Point(3)]);
    assert_eq!(
        intervals(&b.minus(&a)),
        vec![RawInterval::Open(2, 3), RawInterval::Open(3, 4)]
    );
    let mut punctured = tree(vec![RawInterval::Open(2, 4)]);
    punctured.minus_in_place(&RawInterval::Point(3));
    assert_eq!(punctured, b.minus(&a));
    assert!(!punctured.contains(&3));
    assert!(!punctured.contains(&2));
}

#[test]
fn puncture_is_read_from_both_ends() {
    let mut t = tree(vec![RawInterval::Closed(0, 10)]);
    t.minus_in_place(&RawInterval::Point(4));
    t.minus_in_place(&RawInterval::Point(7));
    assert_eq!(
        intervals(&t),
        vec![
            RawInterval::RightOpen(0, 4),
            RawInterval::Open(4, 7),
            RawInterval::LeftOpen(7, 10)
        ]
    );
    assert_eq!(
        intervals_reversed(&t),
        vec![
            RawInterval::LeftOpen(7, 10),
            RawInterval::Open(4, 7),
            RawInterval::RightOpen(0, 4)
        ]
    );
    let mut walk = t.iter_intervals();
    assert_eq!(walk.next(), Some(RawInterval::RightOpen(0, 4)));
    assert_eq!(walk.next_back(), Some(RawInterval::LeftOpen(7, 10)));
    assert_eq!(walk.next_back(), Some(RawInterval::Open(4, 7)));
    assert_eq!(walk.next(), None);
    assert_eq!(walk.next_back(), None);
}

#[test]
fn two_rays_leave_out_one_point() {
    let a = tree(vec![RawInterval::UpTo(0)]);
    let b = tree(vec![RawInterval::UpFrom(0)]);
    let both = a.union(&b);
    assert_eq!(intervals(&both), vec![RawInterval::UpTo(0), RawInterval::UpFrom(0)]);
    assert_eq!(both, tree(vec![RawInterval::Point(0)]).complement());
    assert_eq!(intervals(&both.complement()), vec![RawInterval::Point(0)]);
    assert_eq!(both.lower_bound(), Some(Bound::Infinite));
    assert_eq!(both.upper_bound(), Some(Bound::Infinite));
    assert_eq!(both.enclose(), RawInterval::Full);
}

#[test]
fn abutting_intervals_fuse() {
    let a = tree(vec![RawInterval::RightOpen(0, 1), RawInterval::Closed(1, 2)]);
    assert_eq!(a, tree(vec![RawInterval::Closed(0, 2)]));
    assert_eq!(intervals(&a), vec![RawInterval::Closed(0, 2)]);
    let mut b = TineTree::from_raw_interval(RawInterval::Closed(1, 2));
    b.union_in_place(&RawInterval::RightOpen(0, 1));
    assert_eq!(b, a);
}

#[test]
fn abutting_open_intervals_keep_the_gap() {
    let a = tree(vec![RawInterval::Open(0, 1), RawInterval::Open(1, 2)]);
    assert_eq!(intervals(&a), vec![RawInterval::Open(0, 1), RawInterval::Open(1, 2)]);
    let mut b = a.clone();
    b.union_in_place(&RawInterval::Point(1));
    assert_eq!(intervals(&b), vec![RawInterval::Open(0, 2)]);
}

#[test]
fn set_minus_itself_is_empty() {
    let sets = vec![
        tree(vec![]),
        tree(vec![RawInterval::Full]),
        tree(vec![RawInterval::Point(1)]),
        tree(vec![RawInterval::Closed(0, 5), RawInterval::Open(7, 9), RawInterval::From(12)]),
        tree(vec![RawInterval::UpTo(-3), RawInterval::Point(0), RawInterval::LeftOpen(1, 2)]),
    ];
    for a in sets.iter() {
        let d = a.minus(a);
        assert!(d.is_empty());
        assert_eq!(d, TineTree::new());
        assert_eq!(intervals(&d), vec![]);
    }
}

#[test]
fn empty_and_full_fast_paths() {
    let a = tree(vec![RawInterval::Closed(0, 5), RawInterval::Open(7, 9)]);
    let mut t = a.clone();
    t.union_in_place(&RawInterval::Empty);
    assert_eq!(t, a);
    t.intersect_in_place(&RawInterval::Full);
    assert_eq!(t, a);
    t.minus_in_place(&RawInterval::Empty);
    assert_eq!(t, a);
    t.union_in_place(&RawInterval::Full);
    assert_eq!(t, TineTree::from_raw_interval(RawInterval::Full));
    assert_eq!(intervals(&t), vec![RawInterval::Full]);
    t.minus_in_place(&RawInterval::Full);
    assert!(t.is_empty());
    let mut u = a.clone();
    u.intersect_in_place(&RawInterval::Empty);
    assert!(u.is_empty());
    let mut v = a.clone();
    v.intersect_in_place(&RawInterval::Point(3));
    assert_eq!(intervals(&v), vec![RawInterval::Point(3)]);
    let mut w = a.clone();
    w.intersect_in_place(&RawInterval::Point(6));
    assert!(w.is_empty());
    let mut e = TineTree::<i32>::new();
    e.intersect_in_place(&RawInterval::Closed(0, 1));
    assert!(e.is_empty());
    e.minus_in_place(&RawInterval::Closed(0, 1));
    assert!(e.is_empty());
    assert_eq!(intervals(&TineTree::<i32>::new().complement()), vec![RawInterval::Full]);
    assert!(TineTree::<i32>::from_raw_interval(RawInterval::Full).complement().is_empty());
}

#[test]
fn bounds_and_enclosure() {
    let empty = TineTree::<i32>::new();
    assert_eq!(empty.lower_bound(), None);
    assert_eq!(empty.upper_bound(), None);
    assert_eq!(empty.enclose(), RawInterval::Empty);
    assert_eq!(empty.closure(), RawInterval::Empty);
    let point = tree(vec![RawInterval::Point(4)]);
    assert_eq!(point.lower_bound(), Some(Bound::Include(4)));
    assert_eq!(point.upper_bound(), Some(Bound::Include(4)));
    assert_eq!(point.enclose(), RawInterval::Point(4));
    assert_eq!(point.closure(), RawInterval::Point(4));
    let a = tree(vec![RawInterval::Open(0, 5), RawInterval::RightOpen(7, 9)]);
    assert_eq!(a.lower_bound(), Some(Bound::Exclude(0)));
    assert_eq!(a.upper_bound(), Some(Bound::Exclude(9)));
    assert_eq!(a.enclose(), RawInterval::Open(0, 9));
    assert_eq!(a.closure(), RawInterval::Closed(0, 9));
    let b = tree(vec![RawInterval::UpTo(0), RawInterval::Point(3)]);
    assert_eq!(b.enclose(), RawInterval::To(3));
    assert_eq!(b.closure(), RawInterval::To(3));
    let c = tree(vec![RawInterval::Point(3), RawInterval::UpFrom(5)]);
    assert_eq!(c.enclose(), RawInterval::From(3));
}

#[test]
fn contains_respects_the_ends() {
    let a = tree(vec![RawInterval::LeftOpen(0, 5), RawInterval::Point(8), RawInterval::UpFrom(10)]);
    assert!(!a.contains(&0));
    assert!(a.contains(&1));
    assert!(a.contains(&5));
    assert!(!a.contains(&6));
    assert!(a.contains(&8));
    assert!(!a.contains(&10));
    assert!(a.contains(&11));
    assert!(a.contains(&i32::MAX));
    assert!(!a.contains(&i32::MIN));
}

#[test]
fn from_raw_interval_holds_the_tines() {
    let t = TineTree::from_raw_interval(RawInterval::LeftOpen(1, 4));
    assert_eq!(t.lower_bound(), Some(Bound::Exclude(1)));
    assert_eq!(t.upper_bound(), Some(Bound::Include(4)));
    assert_eq!(intervals(&t), vec![RawInterval::LeftOpen(1, 4)]);
    assert!(TineTree::<i32>::from_raw_interval(RawInterval::Empty).is_empty());
    assert_eq!(TineTree::<i32>::default(), TineTree::new());
}

#[test]
fn owned_walk_gives_the_intervals() {
    let a = tree(vec![RawInterval::Closed(0, 5), RawInterval::Point(8), RawInterval::From(10)]);
    let mut walk = a.into_iter();
    assert_eq!(walk.next(), Some(RawInterval::Closed(0, 5)));
    assert_eq!(walk.next_back(), Some(RawInterval::From(10)));
    assert_eq!(walk.next_back(), Some(RawInterval::Point(8)));
    assert_eq!(walk.next_back(), None);
    assert_eq!(walk.next(), None);
}

#[test]
fn intersect_walks_both_lists() {
    let a = tree(vec![RawInterval::Closed(10, 20)]);
    let b = tree(vec![RawInterval::Closed(0, 5), RawInterval::Closed(12, 15)]);
    assert_eq!(intervals(&a.intersect(&b)), vec![RawInterval::Closed(12, 15)]);
    assert_eq!(intervals(&b.intersect(&a)), vec![RawInterval::Closed(12, 15)]);
    let c = tree(vec![
        RawInterval::Closed(0, 3),
        RawInterval::Closed(5, 8),
        RawInterval::Closed(10, 13),
    ]);
    let d = tree(vec![RawInterval::Open(2, 6), RawInterval::Closed(7, 11)]);
    assert_eq!(
        intervals(&c.intersect(&d)),
        vec![
            RawInterval::LeftOpen(2, 3),
            RawInterval::RightOpen(5, 6),
            RawInterval::Closed(7, 8),
            RawInterval::Closed(10, 11)
        ]
    );
}

#[test]
fn minus_in_place_keeps_what_lies_outside() {
    let mut a = tree(vec![RawInterval::LeftOpen(3, 5)]);
    a.minus_in_place(&RawInterval::Point(3));
    assert_eq!(intervals(&a), vec![RawInterval::LeftOpen(3, 5)]);
    let mut b = tree(vec![RawInterval::Closed(0, 10)]);
    b.minus_in_place(&RawInterval::Closed(3, 5));
    assert_eq!(
        intervals(&b),
        vec![RawInterval::RightOpen(0, 3), RawInterval::LeftOpen(5, 10)]
    );
    let mut c = tree(vec![RawInterval::Closed(0, 10)]);
    c.minus_in_place(&RawInterval::Open(0, 10));
    assert_eq!(intervals(&c), vec![RawInterval::Point(0), RawInterval::Point(10)]);
    let mut d = tree(vec![RawInterval::Full]);
    d.minus_in_place(&RawInterval::To(0));
    assert_eq!(intervals(&d), vec![RawInterval::UpFrom(0)]);
}

#[test]
fn tines_of_a_tree_are_split_by_value() {
    assert_eq!(
        Tine::from_raw_interval(RawInterval::Closed(1, 2)),
        interval_set::utilities::Split::Two(
            Tine::Lower(Bound::Include(1)),
            Tine::Upper(Bound::Include(2))
        )
    );
}

#[test]
fn trees_compare_by_their_tines() {
    let a = tree(vec![RawInterval::Closed(0, 5), RawInterval::Open(7, 9)]);
    let b = tree(vec![RawInterval::Open(7, 9), RawInterval::Closed(0, 5)]);
    assert!(a == b);
    assert!(a != tree(vec![RawInterval::Closed(0, 5), RawInterval::LeftOpen(7, 9)]));
    assert!(a != tree(vec![RawInterval::Closed(0, 5)]));
    assert!(a != tree(vec![RawInterval::Closed(0, 5), RawInterval::Open(7, 10)]));
    assert!(a != tree(vec![RawInterval::Closed(0, 5), RawInterval::Open(7, 9), RawInterval::Point(11)]));
    assert!(TineTree::<i32>::new() == TineTree::new());
    assert!(Tine::Lower(Bound::Include(1)).same(&Tine::Lower(Bound::Include(1))));
    assert!(!Tine::Lower(Bound::Include(1)).same(&Tine::Upper(Bound::Include(1))));
    assert!(!Tine::Lower(Bound::Include(1)).same(&Tine::Lower(Bound::Exclude(1))));
    assert!(!Tine::Lower(Bound::Include(1)).same(&Tine::Lower(Bound::Include(2))));
    assert!(Bound::<i32>::Infinite.same(&Bound::Infinite));
    assert!(!Bound::Include(1).same(&Bound::Infinite));
}
