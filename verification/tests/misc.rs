use std::cell::Cell;
use std::rc::Rc;

use ure::call::Call;
use ure::game::gui::Direction;
use ure::gpu::instancing::{Extension, InstanceSlots};
use ure::sys::gpu::render2d::{diff, Fill, Geometry};

#[test]
fn direction_axis() {
    assert!(Direction::Right.axis(0));
    assert!(!Direction::Right.axis(1));
    assert!(Direction::Down.axis(1));
    assert!(!Direction::Down.axis(0));
}

#[test]
fn diff_gives_what_changed() {
    assert_eq!(diff(&3u8, &3u8), None);
    assert_eq!(diff(&3u8, &4u8), Some(4));
    assert_eq!(diff(&Geometry::Quad, &Geometry::Quad), None);
    assert_eq!(diff(&Geometry::Quad, &Geometry::Mesh(7)), Some(Geometry::Mesh(7)));
    assert_eq!(diff(&Fill::Texture(1), &Fill::Texture(1)), None);
    assert_eq!(diff(&Fill::Texture(1), &Fill::Blank), Some(Fill::Blank));
}

#[test]
fn instance_slots_grow_to_powers_of_two() {
    let mut s = InstanceSlots::new();
    assert_eq!(s.extend(3), Extension { grow: Some(4), start: 0, end: 3 });
    assert_eq!((s.len(), s.capacity()), (3, 4));
    assert_eq!(s.extend(1), Extension { grow: None, start: 3, end: 4 });
    assert_eq!(s.extend(1), Extension { grow: Some(8), start: 4, end: 5 });
    assert_eq!(s.extend(0), Extension { grow: None, start: 5, end: 5 });
    assert_eq!((s.len(), s.capacity()), (5, 8));
}

#[test]
fn call_hands_the_queue_to_the_callback() {
    let seen = Rc::new(Cell::new(0usize));
    let counter = seen.clone();
    let mut call = Call::new(move |queue: &mut Vec<u32>| {
        counter.set(counter.get() + queue.len());
        queue.clear();
    });
    call.add(1);
    call.add(2);
    call.call();
    assert_eq!(seen.get(), 2);
    call.call();
    assert_eq!(seen.get(), 2);
    call.add(3);
    call.call();
    assert_eq!(seen.get(), 3);
}
