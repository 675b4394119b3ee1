use ure::game::tree::Tree;
use ure::sys::delete::Delete;

fn sample() -> Tree {
    // roots [1, 5]; 1 -> [2, 3]; 2 -> [4]
    let mut t = Tree::new();
    t.parent(1, None, None);
    t.parent(5, None, None);
    t.parent(2, Some(1), None);
    t.parent(3, Some(1), None);
    t.parent(4, Some(2), None);
    t
}

#[test]
fn parent_appends_and_inserts_children() {
    let mut t = Tree::new();
    t.parent(1, None, None);
    t.parent(2, Some(1), None);
    t.parent(3, Some(1), None);
    t.parent(4, Some(1), Some(0));
    assert_eq!(t.get_children(None), Some(&vec![1]));
    assert_eq!(t.get_children(Some(&1)), Some(&vec![4, 2, 3]));
    assert_eq!(t.get_child(Some(&1), 1), Some(&2));
    assert_eq!(t.get_child(Some(&1), 3), None);
    assert_eq!(t.get_child(None, 0), Some(&1));
    assert_eq!(t.get_children(Some(&9)), None);
    assert_eq!(t.get_child(Some(&9), 0), None);
}

#[test]
fn parent_moves_an_entity_with_its_children() {
    let mut t = sample();
    t.parent(2, Some(5), None);
    assert_eq!(t.get_children(Some(&1)), Some(&vec![3]));
    assert_eq!(t.get_children(Some(&5)), Some(&vec![2]));
    assert_eq!(t.get_children(Some(&2)), Some(&vec![4]));
    t.parent(2, None, Some(0));
    assert_eq!(t.get_children(None), Some(&vec![2, 1, 5]));
    assert_eq!(t.get_children(Some(&5)), Some(&vec![]));
}

#[test]
fn traversal_orders() {
    let t = sample();
    assert_eq!(t.dfs_post(), vec![4, 2, 3, 1, 5]);
    assert_eq!(t.dfs_pre(), vec![1, 2, 4, 3, 5]);
    assert_eq!(t.bfs(), vec![1, 3, 2, 4, 5]);
}

#[test]
fn traversals_of_an_empty_tree() {
    let t = Tree::default();
    assert!(t.dfs_post().is_empty());
    assert!(t.dfs_pre().is_empty());
    assert!(t.bfs().is_empty());
}

#[test]
fn delete_a_leaf() {
    let mut t = sample();
    t.delete(&3);
    assert_eq!(t.get_children(Some(&1)), Some(&vec![2]));
    assert_eq!(t.get_children(Some(&3)), None);
    assert_eq!(t.dfs_post(), vec![4, 2, 1, 5]);
}

#[test]
fn delete_leaves_one_by_one() {
    let mut t = sample();
    t.delete(&4);
    t.delete(&2);
    assert_eq!(t.get_children(Some(&1)), Some(&vec![3]));
    assert_eq!(t.get_children(None), Some(&vec![1, 5]));
    assert_eq!(t.dfs_pre(), vec![1, 3, 5]);
}

#[test]
fn delete_of_an_unknown_entity_changes_nothing() {
    let mut t = sample();
    t.delete(&42);
    assert_eq!(t.dfs_pre(), vec![1, 2, 4, 3, 5]);
}

#[test]
fn each_entity_is_visited_once() {
    let t = sample();
    for order in [t.dfs_post(), t.dfs_pre(), t.bfs()] {
        let mut sorted = order.clone();
        sorted.sort();
        assert_eq!(sorted, vec![1, 2, 3, 4, 5]);
    }
}

#[test]
fn ancestors() {
    let t = sample();
    assert!(t.is_ancestor_or_self_of(1, 4));
    assert!(t.is_ancestor_or_self_of(2, 4));
    assert!(t.is_ancestor_or_self_of(4, 4));
    assert!(!t.is_ancestor_or_self_of(3, 4));
    assert!(!t.is_ancestor_or_self_of(4, 1));
    assert!(!t.is_ancestor_or_self_of(5, 4));
}

#[test]
fn delete_undoes_adding_a_leaf() {
    let mut t = sample();
    t.parent(9, Some(1), Some(1));
    assert_eq!(t.get_children(Some(&1)), Some(&vec![2, 9, 3]));
    t.delete(&9);
    assert_eq!(t.get_children(Some(&1)), Some(&vec![2, 3]));
    assert_eq!(t.dfs_pre(), vec![1, 2, 4, 3, 5]);
}

#[test]
fn parent_under_an_unknown_entity_makes_a_root() {
    let mut t = sample();
    t.parent(9, Some(42), None);
    assert_eq!(t.get_children(None), Some(&vec![1, 5, 9]));
    assert_eq!(t.get_children(Some(&9)), Some(&vec![]));
    assert_eq!(t.get_children(Some(&42)), None);
}
