use advanced_constrained_secret_santa::edge_set::EdgeSet;

#[test]
fn new_set_is_empty() {
    let set = EdgeSet::new();
    assert!(!set.contains(&(0, 0)));
    assert!(!set.contains(&(1, 2)));
}

#[test]
fn insert_reports_whether_the_edge_was_new() {
    let mut set = EdgeSet::new();
    assert!(set.insert((1, 2)));
    assert!(!set.insert((1, 2)));
    assert!(set.contains(&(1, 2)));
}

#[test]
fn an_edge_is_not_its_reverse() {
    let mut set = EdgeSet::new();
    set.insert((1, 2));
    assert!(!set.contains(&(2, 1)));
    assert!(set.insert((2, 1)));
    assert!(set.contains(&(2, 1)));
}

#[test]
fn remove_reports_whether_the_edge_was_there() {
    let mut set = EdgeSet::new();
    set.insert((3, 4));
    set.insert((4, 3));
    assert!(set.remove(&(3, 4)));
    assert!(!set.remove(&(3, 4)));
    assert!(!set.contains(&(3, 4)));
    assert!(set.contains(&(4, 3)));
}

#[test]
fn large_indices_are_kept_apart() {
    let mut set = EdgeSet::new();
    assert!(set.insert((usize::MAX, 0)));
    assert!(!set.contains(&(0, usize::MAX)));
    assert!(!set.contains(&(usize::MAX - 1, 0)));
    assert!(!set.contains(&(usize::MAX, 1)));
    assert!(set.insert((0, usize::MAX)));
    assert!(set.insert((usize::MAX, usize::MAX)));
    assert!(set.contains(&(usize::MAX, 0)));
    assert!(set.remove(&(usize::MAX, usize::MAX)));
    assert!(set.contains(&(0, usize::MAX)));
}

#[test]
fn giver_and_receiver_do_not_run_into_each_other() {
    let mut set = EdgeSet::new();
    set.insert((1, 0));
    assert!(!set.contains(&(0, 1)));
    assert!(!set.contains(&(0, 1 << 16)));
    set.insert((0, 12));
    assert!(!set.contains(&(12, 0)));
    assert!(!set.contains(&(1, 2)));
}
