use interval_set::bound::Bound;
use interval_set::raw_interval::RawInterval;
use interval_set::tine_tree::TineTree;

/// A small generator of numbers, the same on every run.
struct Numbers(u64);

impl Numbers {
    fn next(&mut self, below: u64) -> u64 {
        self.0 = self.0.wrapping_mul(6364136223846793005).wrapping_add(1442695040888963407);
        (self.0 >> 33) % below
    }

    fn bound(&mut self) -> Bound<i32> {
        let p = self.next(13) as i32 - 6;
        match self.next(5) {
            0 => Bound::Infinite,
            1 | 2 => Bound::Include(p),
            _ => Bound::Exclude(p),
        }
    }

    fn interval(&mut self) -> RawInterval<i32> {
        let l = self.bound();
        let u = self.bound();
        RawInterval::new(l, u)
    }

    fn set(&mut self) -> TineTree<i32> {
        let n = self.next(5) as usize;
        let mut intervals = Vec::new();
        for _ in 0..n {
            intervals.push(self.interval());
        }
        TineTree::from_iter(intervals)
    }
}

fn intervals(tree: &TineTree<i32>) -> Vec<RawInterval<i32>> {
    let mut walk = tree.iter_intervals();
    let mut out = Vec::new();
    while let Some(interval) = walk.next() {
        out.push(interval);
    }
    out
}

fn empty() -> TineTree<i32> {
    TineTree::new()
}

fn full() -> TineTree<i32> {
    TineTree::from_raw_interval(RawInterval::Full)
}

#[test]
fn idempotence() {
    let mut numbers = Numbers(1);
    for _ in 0..300 {
        let a = numbers.set();
        assert_eq!(a.union(&a), a);
        assert_eq!(a.intersect(&a), a);
    }
}

#[test]
fn commutativity() {
    let mut numbers = Numbers(2);
    for _ in 0..300 {
        let a = numbers.set();
        let b = numbers.set();
        assert_eq!(a.union(&b), b.union(&a));
        assert_eq!(a.intersect(&b), b.intersect(&a));
    }
}

#[test]
fn associativity() {
    let mut numbers = Numbers(3);
    for _ in 0..300 {
        let a = numbers.set();
        let b = numbers.set();
        let c = numbers.set();
        assert_eq!(a.union(&b).union(&c), a.union(&b.union(&c)));
        assert_eq!(a.intersect(&b).intersect(&c), a.intersect(&b.intersect(&c)));
    }
}

#[test]
fn distributivity() {
    let mut numbers = Numbers(4);
    for _ in 0..300 {
        let a = numbers.set();
        let b = numbers.set();
        let c = numbers.set();
        assert_eq!(a.intersect(&b.union(&c)), a.intersect(&b).union(&a.intersect(&c)));
    }
}

#[test]
fn de_morgan() {
    let mut numbers = Numbers(5);
    for _ in 0..300 {
        let a = numbers.set();
        let b = numbers.set();
        assert_eq!(a.union(&b).complement(), a.complement().intersect(&b.complement()));
        assert_eq!(a.intersect(&b).complement(), a.complement().union(&b.complement()));
    }
}

#[test]
fn double_complement() {
    let mut numbers = Numbers(6);
    for _ in 0..300 {
        let a = numbers.set();
        assert_eq!(a.complement().complement(), a);
    }
}

#[test]
fn identity_and_annihilator() {
    let mut numbers = Numbers(7);
    for _ in 0..300 {
        let a = numbers.set();
        assert_eq!(a.union(&empty()), a);
        assert_eq!(a.intersect(&full()), a);
        assert_eq!(a.union(&full()), full());
        assert_eq!(a.intersect(&empty()), empty());
    }
}

#[test]
fn membership_agrees_with_the_intervals() {
    let mut numbers = Numbers(8);
    for _ in 0..300 {
        let a = numbers.set();
        let parts = intervals(&a);
        for p in -8..9 {
            assert_eq!(a.contains(&p), parts.iter().any(|iv| iv.contains(&p)));
        }
    }
}

#[test]
fn round_trip_through_the_intervals() {
    let mut numbers = Numbers(9);
    for _ in 0..300 {
        let a = numbers.set();
        assert_eq!(TineTree::from_iter(intervals(&a)), a);
        let mut owned = Vec::new();
        let mut walk = a.clone().into_iter();
        while let Some(interval) = walk.next_back() {
            owned.push(interval);
        }
        owned.reverse();
        assert_eq!(owned, intervals(&a));
    }
}

#[test]
fn no_interval_of_a_tree_is_empty_or_touches_the_next() {
    let mut numbers = Numbers(10);
    for _ in 0..300 {
        let a = numbers.set();
        let b = numbers.set();
        for tree in [a.union(&b), a.intersect(&b), a.minus(&b), a.complement()] {
            let parts = intervals(&tree);
            for part in parts.iter() {
                assert!(!part.is_empty());
            }
            for pair in parts.windows(2) {
                assert!(pair[0].intersect(&pair[1]).is_empty());
                assert_ne!(pair[0].upper_bound(), Some(Bound::Infinite));
                let joined = TineTree::from_iter(vec![pair[0], pair[1]]);
                assert_eq!(intervals(&joined).len(), 2);
            }
        }
    }
}

#[test]
fn difference_is_intersection_with_the_complement() {
    let mut numbers = Numbers(11);
    for _ in 0..300 {
        let a = numbers.set();
        let b = numbers.set();
        assert_eq!(a.minus(&b), a.intersect(&b.complement()));
        assert_eq!(a.minus(&a), empty());
    }
}

#[test]
fn in_place_operations_agree_with_the_batch_operations() {
    let mut numbers = Numbers(12);
    for _ in 0..300 {
        let a = numbers.set();
        let interval = numbers.interval();
        let b = TineTree::from_raw_interval(interval);
        let mut u = a.clone();
        u.union_in_place(&interval);
        assert_eq!(u, a.union(&b));
        let mut i = a.clone();
        i.intersect_in_place(&interval);
        assert_eq!(i, a.intersect(&b));
        let mut m = a.clone();
        m.minus_in_place(&interval);
        assert_eq!(m, a.minus(&b));
        let mut twice = u.clone();
        twice.union_in_place(&interval);
        assert_eq!(twice, u);
    }
}

#[test]
fn operations_contain_the_right_points() {
    let mut numbers = Numbers(13);
    for _ in 0..300 {
        let a = numbers.set();
        let b = numbers.set();
        let u = a.union(&b);
        let i = a.intersect(&b);
        let m = a.minus(&b);
        let c = a.complement();
        for p in -8..9 {
            assert_eq!(u.contains(&p), a.contains(&p) || b.contains(&p));
            assert_eq!(i.contains(&p), a.contains(&p) && b.contains(&p));
            assert_eq!(m.contains(&p), a.contains(&p) && !b.contains(&p));
            assert_eq!(c.contains(&p), !a.contains(&p));
        }
    }
}

#[test]
fn enclosure_reaches_from_the_first_interval_to_the_last() {
    let mut numbers = Numbers(14);
    for _ in 0..300 {
        let a = numbers.set();
        let parts = intervals(&a);
        let hull = a.enclose();
        match (parts.first(), parts.last()) {
            (Some(first), Some(last)) => {
                assert_eq!(hull.lower_bound(), first.lower_bound());
                assert_eq!(hull.upper_bound(), last.upper_bound());
                assert_eq!(a.lower_bound(), first.lower_bound());
                assert_eq!(a.upper_bound(), last.upper_bound());
            }
            _ => assert_eq!(hull, RawInterval::Empty),
        }
        assert_eq!(a.closure(), hull.closure());
    }
}
