use cluster_controller::frontier::Frontier;

const ALL: [Frontier; 5] =
    [Frontier::At(0), Frontier::At(3), Frontier::At(5), Frontier::At(u64::MAX), Frontier::Empty];

#[test]
fn empty_frontier_has_no_elements() {
    assert_eq!(Frontier::new(), Frontier::Empty);
    assert!(Frontier::new().is_empty());
    assert_eq!(Frontier::new().elements(), Vec::<u64>::new());
    assert!(!Frontier::new().less_equal(0));
    assert!(!Frontier::new().less_equal(u64::MAX));
    assert!(!Frontier::new().less_than(u64::MAX));
}

#[test]
fn singleton_frontier_holds_its_time() {
    let f = Frontier::from_elem(5);
    assert_eq!(f, Frontier::At(5));
    assert!(!f.is_empty());
    assert_eq!(f.elements(), vec![5]);
    assert!(!f.less_equal(4));
    assert!(f.less_equal(5));
    assert!(f.less_equal(6));
    assert!(!f.less_than(5));
    assert!(f.less_than(6));
}

#[test]
fn minimum_precedes_every_frontier() {
    assert_eq!(Frontier::minimum(), Frontier::At(0));
    for f in ALL {
        assert!(Frontier::minimum().precedes(&f));
    }
}

#[test]
fn every_frontier_precedes_the_empty_one() {
    for f in ALL {
        assert!(f.precedes(&Frontier::Empty));
    }
    assert!(!Frontier::Empty.precedes(&Frontier::At(u64::MAX)));
}

#[test]
fn order_on_frontiers() {
    assert!(Frontier::At(3).precedes(&Frontier::At(3)));
    assert!(Frontier::At(3).precedes(&Frontier::At(5)));
    assert!(!Frontier::At(5).precedes(&Frontier::At(3)));
}

#[test]
fn join_is_the_later_frontier() {
    assert_eq!(Frontier::At(3).join(&Frontier::At(5)), Frontier::At(5));
    assert_eq!(Frontier::At(5).join(&Frontier::At(3)), Frontier::At(5));
    assert_eq!(Frontier::At(5).join(&Frontier::Empty), Frontier::Empty);
    assert_eq!(Frontier::Empty.join(&Frontier::At(5)), Frontier::Empty);
    assert_eq!(Frontier::Empty.join(&Frontier::Empty), Frontier::Empty);
}

#[test]
fn meet_is_the_earlier_frontier() {
    assert_eq!(Frontier::At(3).meet(&Frontier::At(5)), Frontier::At(3));
    assert_eq!(Frontier::At(5).meet(&Frontier::At(3)), Frontier::At(3));
    assert_eq!(Frontier::At(5).meet(&Frontier::Empty), Frontier::At(5));
    assert_eq!(Frontier::Empty.meet(&Frontier::At(5)), Frontier::At(5));
    assert_eq!(Frontier::Empty.meet(&Frontier::Empty), Frontier::Empty);
}

#[test]
fn lattice_laws_on_samples() {
    for a in ALL {
        assert_eq!(a.join(&a), a);
        assert_eq!(a.meet(&a), a);
        for b in ALL {
            assert_eq!(a.join(&b), b.join(&a));
            assert_eq!(a.meet(&b), b.meet(&a));
            assert_eq!(a.join(&a.meet(&b)), a);
            assert_eq!(a.meet(&a.join(&b)), a);
            assert_eq!(a.precedes(&b), a.join(&b) == b);
            assert_eq!(a.precedes(&b), a.meet(&b) == a);
            assert!(a.precedes(&b) || b.precedes(&a));
            for c in ALL {
                assert_eq!(a.join(&b).join(&c), a.join(&b.join(&c)));
                assert_eq!(a.meet(&b).meet(&c), a.meet(&b.meet(&c)));
            }
        }
    }
}

#[test]
fn from_elements_keeps_the_least() {
    assert_eq!(Frontier::from_elements(vec![]), Frontier::Empty);
    assert_eq!(Frontier::from_elements(vec![7]), Frontier::At(7));
    assert_eq!(Frontier::from_elements(vec![7, 3, 9, 3]), Frontier::At(3));
    assert_eq!(Frontier::from_elements(vec![3, 7]), Frontier::At(3));
    assert_eq!(Frontier::from_elements(vec![u64::MAX, 0]), Frontier::At(0));
}

#[test]
fn from_elements_agrees_with_timely() {
    for times in [vec![], vec![4u64], vec![9, 2, 5], vec![1, 1], vec![8, 7, 6, 5]] {
        let antichain = timely::progress::Antichain::from(times.clone());
        assert_eq!(Frontier::from_elements(times).elements(), antichain.elements().to_vec());
    }
}
