use ure::sys::tree::Tree;

fn links(t: &Tree, uid: u64) -> (Option<u64>, Vec<u64>, Option<u64>, Option<u64>) {
    let n = t.get(&uid).unwrap();
    assert_eq!(n.uid(), uid);
    (n.parent(), n.children().to_vec(), n.next(), n.prev())
}

fn sample() -> Tree {
    let mut t = Tree::new();
    assert_eq!(t.insert(1, None), Ok(()));
    assert_eq!(t.insert(2, Some(&1)), Ok(()));
    assert_eq!(t.insert(3, Some(&1)), Ok(()));
    assert_eq!(t.insert(4, Some(&2)), Ok(()));
    t
}

#[test]
fn insert_threads_nodes_in_post_order() {
    let t = sample();
    assert_eq!(links(&t, 1), (None, vec![2, 3], None, Some(3)));
    assert_eq!(links(&t, 2), (Some(1), vec![4], Some(3), Some(4)));
    assert_eq!(links(&t, 3), (Some(1), vec![], Some(1), Some(2)));
    assert_eq!(links(&t, 4), (Some(2), vec![], Some(2), None));
}

#[test]
fn insert_twice_fails() {
    let mut t = sample();
    assert_eq!(t.insert(2, None), Err(()));
    assert_eq!(links(&t, 2), (Some(1), vec![4], Some(3), Some(4)));
}

#[test]
fn insert_under_an_unknown_parent_makes_a_root() {
    let mut t = sample();
    assert_eq!(t.insert(9, Some(&77)), Ok(()));
    assert_eq!(links(&t, 9), (None, vec![], None, None));
}

#[test]
fn delete_joins_the_thread_and_frees_children() {
    let mut t = sample();
    t.delete(&2);
    assert!(t.get(&2).is_none());
    assert_eq!(links(&t, 1), (None, vec![3], None, Some(3)));
    assert_eq!(links(&t, 3), (Some(1), vec![], Some(1), Some(4)));
    assert_eq!(links(&t, 4), (None, vec![], Some(3), None));
}

#[test]
fn delete_of_an_unknown_node_changes_nothing() {
    let mut t = Tree::default();
    t.delete(&5);
    assert!(t.get(&5).is_none());
}

#[test]
fn delete_undoes_insert() {
    let mut t = sample();
    assert_eq!(t.insert(5, Some(&2)), Ok(()));
    assert_eq!(links(&t, 5), (Some(2), vec![], Some(2), Some(4)));
    t.delete(&5);
    assert!(t.get(&5).is_none());
    assert_eq!(links(&t, 1), (None, vec![2, 3], None, Some(3)));
    assert_eq!(links(&t, 2), (Some(1), vec![4], Some(3), Some(4)));
    assert_eq!(links(&t, 3), (Some(1), vec![], Some(1), Some(2)));
    assert_eq!(links(&t, 4), (Some(2), vec![], Some(2), None));
}
