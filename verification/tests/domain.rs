use tile_collapse::domain::Domain;

#[test]
fn full_domain_holds_all_four() {
    let d = Domain::full();
    assert_eq!(d.len(), 4);
    for o in 0..4 {
        assert!(d.contains(o));
    }
    assert!(!d.contains(4));
    assert_eq!(d.first(), Some(0));
    assert!(!d.is_empty());
}

#[test]
fn empty_domain_holds_none() {
    let d = Domain::empty();
    assert_eq!(d.len(), 0);
    assert!(d.is_empty());
    assert_eq!(d.first(), None);
    for o in 0..4 {
        assert!(!d.contains(o));
    }
}

#[test]
fn singleton_holds_only_its_member() {
    for o in 0..4 {
        let d = Domain::singleton(o);
        assert_eq!(d.len(), 1);
        assert_eq!(d.first(), Some(o));
        for k in 0..4 {
            assert_eq!(d.contains(k), k == o);
        }
    }
    assert_eq!(Domain::singleton(0).bits, 1);
    assert_eq!(Domain::singleton(1).bits, 2);
    assert_eq!(Domain::singleton(2).bits, 4);
    assert_eq!(Domain::singleton(3).bits, 8);
}

#[test]
fn from_flags_sets_each_bit() {
    let d = Domain::from_flags(true, false, true, false);
    assert_eq!(d.bits, 5);
    assert_eq!(d.len(), 2);
    assert!(d.contains(0));
    assert!(!d.contains(1));
    assert!(d.contains(2));
    assert!(!d.contains(3));
    assert_eq!(Domain::from_flags(false, false, false, true).first(), Some(3));
    assert_eq!(Domain::from_flags(true, true, true, true), Domain::full());
    assert_eq!(Domain::from_flags(false, false, false, false), Domain::empty());
}

#[test]
fn intersect_keeps_common_members() {
    let a = Domain::from_flags(true, true, false, true);
    let b = Domain::from_flags(false, true, true, true);
    let c = a.intersect(&b);
    assert_eq!(c, Domain::from_flags(false, true, false, true));
    assert_eq!(c.len(), 2);
    assert_eq!(a.intersect(&Domain::full()), a);
    assert_eq!(a.intersect(&Domain::empty()), Domain::empty());
    assert_eq!(a.intersect(&a), a);
}

#[test]
fn intersect_is_the_same_either_way_round() {
    for x in 0u8..16 {
        for y in 0u8..16 {
            let a = Domain { bits: x };
            let b = Domain { bits: y };
            assert_eq!(a.intersect(&b), b.intersect(&a));
            assert!(a.intersect(&b).len() <= a.len());
        }
    }
}
