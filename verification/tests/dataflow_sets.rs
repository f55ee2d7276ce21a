use mir::dataflow::LocalSet;
use mir::ids::LocalId;

#[test]
fn stores_local_ids_across_word_boundaries() {
    let mut set = LocalSet::new(130);
    for index in [0, 63, 64, 129] {
        set.insert(LocalId::from_index(index));
    }

    for index in [0, 63, 64, 129] {
        assert!(set.contains(LocalId::from_index(index)));
    }
    set.remove(LocalId::from_index(64));
    assert!(!set.contains(LocalId::from_index(64)));
    for index in [1, 62, 65, 128, 130] {
        assert!(!set.contains(LocalId::from_index(index)));
    }
}

#[test]
fn intersection_reports_only_real_changes() {
    let mut left = LocalSet::new(70);
    left.insert(LocalId::from_index(1));
    left.insert(LocalId::from_index(65));
    let mut right = LocalSet::new(70);
    right.insert(LocalId::from_index(65));

    assert!(left.intersect_with(&right));
    assert!(!left.contains(LocalId::from_index(1)));
    assert!(left.contains(LocalId::from_index(65)));
    assert!(!left.intersect_with(&right));
}

#[test]
fn union_reports_only_real_changes() {
    let mut left = LocalSet::new(70);
    left.insert(LocalId::from_index(3));
    let mut right = LocalSet::new(70);
    right.insert(LocalId::from_index(66));

    assert!(left.union_with(&right));
    assert!(left.contains(LocalId::from_index(3)));
    assert!(left.contains(LocalId::from_index(66)));
    assert!(!left.union_with(&right));
}

#[test]
fn identities_beyond_the_capacity_are_ignored() {
    let mut set = LocalSet::new(10);
    set.insert(LocalId::from_index(64));
    assert!(!set.contains(LocalId::from_index(64)));
    set.insert(LocalId::from_index(63));
    assert!(set.contains(LocalId::from_index(63)));
}
