use ure::game::tree::Tree;
use ure::sys::delete::DeleteQueue;
use ure::sys::Uids;

#[test]
fn delete_removes_now_and_queues() {
    let mut uids = Uids::new();
    let a = uids.add();
    let b = uids.add();
    let mut q = DeleteQueue::new();
    q.delete(&mut uids, a);
    assert!(!uids.contains(&a));
    assert!(uids.contains(&b));
    assert_eq!(q.iter(), vec![a]);
}

#[test]
fn a_queued_id_is_pending_for_two_frames() {
    let mut uids = Uids::new();
    let a = uids.add();
    let mut q = DeleteQueue::default();
    q.delete(&mut uids, a);
    q.start_frame();
    assert_eq!(q.iter(), vec![a]);
    q.start_frame();
    assert!(q.iter().is_empty());
}

#[test]
fn iter_lists_the_previous_frame_first() {
    let mut uids = Uids::new();
    let a = uids.add();
    let b = uids.add();
    let mut q = DeleteQueue::new();
    q.delete(&mut uids, a);
    q.start_frame();
    q.delete(&mut uids, b);
    assert_eq!(q.iter(), vec![a, b]);
}

#[test]
fn apply_deletes_every_pending_id() {
    let mut uids = Uids::new();
    let a = uids.add();
    let b = uids.add();
    let mut tree = Tree::new();
    tree.parent(a, None, None);
    tree.parent(b, None, None);
    tree.parent(7, Some(a), None);
    let mut q = DeleteQueue::new();
    q.delete(&mut uids, b);
    q.start_frame();
    q.delete(&mut tree, 7);
    assert_eq!(tree.get_children(Some(&a)), Some(&vec![]));
    q.apply(&mut tree);
    assert_eq!(tree.get_children(Some(&7)), None);
    assert_eq!(tree.get_children(Some(&b)), None);
    assert_eq!(tree.get_children(Some(&a)), Some(&vec![]));
    assert_eq!(tree.get_children(None), Some(&vec![a]));
}

#[test]
fn apply_deletes_an_id_queued_in_both_frames() {
    let mut uids = Uids::new();
    let a = uids.add();
    let b = uids.add();
    let c = uids.add();
    let mut q = DeleteQueue::new();
    q.delete(&mut uids, a);
    q.start_frame();
    q.delete(&mut uids, a);
    q.delete(&mut uids, b);
    assert_eq!(q.iter().len(), 3);
    assert_eq!(q.iter()[0], a);
    q.apply(&mut uids);
    assert!(!uids.contains(&a));
    assert!(!uids.contains(&b));
    assert!(uids.contains(&c));
}
