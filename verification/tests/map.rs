use ure::sys::map::{Table, DELETED, EMPTY};

#[test]
fn new_table_finds_nothing() {
    let t = Table::new(16);
    assert_eq!(t.get((0, 5)), None);
    assert_eq!(EMPTY, 0);
    assert_eq!(DELETED, 0x7f);
}

#[test]
fn get_finds_what_insert_stored() {
    let mut t = Table::new(16);
    assert_eq!(t.insert((16, 5)), Some(0));
    assert_eq!(t.get((16, 5)), Some(0));
    assert_eq!(t.get((16, 6)), None);
}

#[test]
fn distinct_keys_take_distinct_slots() {
    let mut t = Table::new(16);
    assert_eq!(t.insert((0, 1)), Some(0));
    assert_eq!(t.insert((0, 2)), Some(1));
    assert_eq!(t.get((0, 1)), Some(0));
    assert_eq!(t.get((0, 2)), Some(1));
    assert_eq!(t.get((0, 7)), None);
}

#[test]
fn inserting_again_returns_the_same_slot() {
    let mut t = Table::new(32);
    assert_eq!(t.insert((0, 5)), Some(0));
    assert_eq!(t.insert((0, 5)), Some(0));
    assert_eq!(t.get((0, 5)), Some(0));
}

#[test]
fn probing_starts_at_the_masked_first_half() {
    let mut t = Table::new(32);
    assert_eq!(t.insert((3, -4)), Some(0));
    assert_eq!(t.get((3, -4)), Some(0));
    assert_eq!(t.get((35, -4)), None);
    assert_eq!(t.get((0, -4)), None);
}

#[test]
fn h1_index_masks_the_group_bits() {
    let t = Table::new(32);
    assert_eq!(t.h1_index(0x1234), 0x10);
    assert_eq!(t.h1_index(0x000f), 0);
}
