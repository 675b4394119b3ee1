use ure::sys::delete::Delete;
use ure::sys::Uids;

#[test]
fn added_ids_are_distinct_and_live() {
    let mut uids = Uids::new();
    let mut seen = Vec::new();
    for _ in 0..100 {
        let id = uids.add();
        assert!(!seen.contains(&id));
        assert!(uids.contains(&id));
        seen.push(id);
    }
    assert_eq!(uids.len(), 100);
}

#[test]
fn fresh_keeps_a_free_candidate() {
    let uids = Uids::new();
    assert_eq!(uids.fresh(12345), 12345);
}

#[test]
fn fresh_picks_the_least_free_id_on_collision() {
    let mut uids = Uids::new();
    let a = uids.add();
    let f = uids.fresh(a);
    assert!(!uids.contains(&f));
    if a != 0 {
        assert_eq!(f, 0);
    }
}

#[test]
fn delete_forgets_an_id() {
    let mut uids = Uids::new();
    let a = uids.add();
    uids.delete(&a);
    assert!(!uids.contains(&a));
    assert_eq!(uids.len(), 0);
}
