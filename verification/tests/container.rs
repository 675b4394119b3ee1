use ure::ure_data::container::{Bits, Container, ContainerDefault, One};

#[test]
fn vec_delete_swap_removes_from_the_back() {
    let mut v = vec![0, 1, 2, 3, 4, 5, 6];
    Container::delete(&mut v, 1..3);
    assert_eq!(v, vec![0, 5, 6, 3, 4]);
}

#[test]
fn vec_delete_of_an_empty_range_keeps_everything() {
    let mut v = vec![1, 2, 3];
    Container::delete(&mut v, 2..2);
    assert_eq!(v, vec![1, 2, 3]);
}

#[test]
fn vec_delete_up_to_the_end() {
    let mut v = vec![1, 2, 3, 4];
    Container::delete(&mut v, 2..4);
    assert_eq!(v, vec![1, 2]);
}

#[test]
fn vec_delete_with_a_short_tail() {
    let mut v = vec!['a', 'b', 'c', 'd', 'e'];
    Container::delete(&mut v, 0..3);
    assert_eq!(v, vec!['e', 'd']);
}

#[test]
fn vec_push_and_views() {
    let mut v: Vec<u8> = Vec::new();
    Container::push(&mut v, 7);
    assert_eq!(Container::as_ref(&v), &[7u8][..]);
    Container::as_mut(&mut v)[0] = 9;
    assert_eq!(v, vec![9]);
}

#[test]
fn vec_new_pushes_defaults() {
    let mut v = vec![5u32];
    ContainerDefault::new(&mut v, 3..6);
    assert_eq!(v, vec![5, 0, 0, 0]);
    ContainerDefault::new(&mut v, 4..2);
    assert_eq!(v, vec![5, 0, 0, 0]);
}

#[test]
fn one_keeps_its_value() {
    let mut one = One(3u8);
    Container::push(&mut one, 4);
    Container::delete(&mut one, 0..1);
    ContainerDefault::new(&mut one, 0..5);
    assert_eq!(*Container::as_ref(&one), 3);
    *Container::as_mut(&mut one) = 8;
    assert_eq!(one.0, 8);
}

#[test]
fn option_keeps_its_value() {
    let mut o = Some(2i32);
    Container::push(&mut o, 5);
    Container::delete(&mut o, 0..1);
    assert_eq!(Container::as_ref(&o), Some(&2));
    if let Some(x) = Container::as_mut(&mut o) {
        *x = 6;
    }
    assert_eq!(o, Some(6));
    let none: Option<i32> = None;
    assert_eq!(Container::as_ref(&none), None);
}

#[test]
fn unit_container_holds_nothing() {
    let mut u = ();
    Container::push(&mut u, ());
    Container::delete(&mut u, 0..10);
    ContainerDefault::new(&mut u, 0..3);
    Container::as_ref(&u);
}

#[test]
fn bits_delete_and_push() {
    let mut b = Bits::new();
    ContainerDefault::new(&mut b, 0..4);
    assert_eq!(b.len(), 4);
    assert_eq!(b.get(0), Some(false));
    b.set(1, true);
    Container::push(&mut b, true);
    // bits: 0 1 0 0 1
    Container::delete(&mut b, 0..2);
    // i = 1: bit 1 <- last (1), pop: 0 1 0 0; i = 0: bit 0 <- last (0), pop: 0 1 0
    assert_eq!(b.len(), 3);
    assert_eq!(b.get(0), Some(false));
    assert_eq!(b.get(1), Some(true));
    assert_eq!(b.get(2), Some(false));
    assert_eq!(b.get(3), None);
}
