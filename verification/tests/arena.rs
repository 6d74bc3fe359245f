use tarfs_rs::arena::ArenaTree;

#[test]
fn push_and_get_by_position() {
    let mut a: ArenaTree<u64> = ArenaTree::new();
    assert_eq!(a.len(), 0);
    assert!(a.get(0).is_none());
    assert_eq!(a.push(10), 0);
    assert_eq!(a.push(20), 1);
    assert_eq!(a.len(), 2);
    assert_eq!(*a.get(0).unwrap(), 10);
    assert_eq!(*a.get(1).unwrap(), 20);
    assert!(a.get(2).is_none());
}

#[test]
fn insert_shifts_later_positions() {
    let mut a: ArenaTree<u64> = ArenaTree::new();
    a.push(1);
    a.push(3);
    a.insert(2, 1);
    assert_eq!(*a.get(0).unwrap(), 1);
    assert_eq!(*a.get(1).unwrap(), 2);
    assert_eq!(*a.get(2).unwrap(), 3);
}

#[test]
fn get_mut_updates_in_place() {
    let mut a: ArenaTree<u64> = ArenaTree::new();
    a.push(5);
    if let Some(m) = a.get_mut(0) {
        *m = 7;
    }
    assert_eq!(*a.get(0).unwrap(), 7);
    assert!(a.get_mut(9).is_none());
}

#[test]
fn set_replaces_one_position() {
    let mut a: ArenaTree<u64> = ArenaTree::new();
    a.push(5);
    a.push(6);
    a.set(0, 50);
    assert_eq!(*a.get(0).unwrap(), 50);
    assert_eq!(*a.get(1).unwrap(), 6);
}
