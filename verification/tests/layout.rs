use ure::sys::delete::Delete;
use ure::sys::gui::{Align, AxisSize, BoxSize, Direction, Lay, Layout, Pad, Size, Sizing};

fn axis(sizing: Sizing<f32>) -> AxisSize<f32> {
    AxisSize { min: None, max: None, sizing }
}

fn lay(w: Sizing<f32>, h: Sizing<f32>, pad: Pad) -> Lay<f32> {
    Lay {
        size: BoxSize { w: axis(w), h: axis(h) },
        pad,
        gap: 0,
        align: Align::Left,
        direction: Direction::Right,
    }
}

fn sample() -> Layout<f32> {
    let mut l = Layout::new();
    l.insert(1, lay(Sizing::Fit, Sizing::Fit, Pad { up: 2, down: 0, left: 1, right: 1 }), None);
    l.insert(2, lay(Sizing::Size(Size::Fixed(10)), Sizing::Size(Size::Fixed(5)), Pad::default()), Some(1));
    l.insert(
        3,
        lay(Sizing::Size(Size::Fixed(20)), Sizing::Size(Size::Ratio(0.5)), Pad { up: 1, down: 1, left: 0, right: 0 }),
        Some(1),
    );
    l
}

#[test]
fn run_sizes_boxes_from_their_children() {
    let mut l = sample();
    assert_eq!(l.get_rect(&1).unwrap().size, [0, 0]);
    l.run();
    assert_eq!(l.get_rect(&2).unwrap().size, [10, 5]);
    assert_eq!(l.get_rect(&3).unwrap().size, [20, 2]);
    assert_eq!(l.get_rect(&1).unwrap().size, [32, 7]);
    assert_eq!(l.get_rect(&1).unwrap().pos, [0, 0]);
    assert_eq!(l.render_order(), vec![2, 3, 1]);
}

#[test]
fn delete_forgets_a_box() {
    let mut l = sample();
    l.delete(&2);
    assert!(l.get_rect(&2).is_none());
    assert!(l.get_rect(&1).is_some());
    assert_eq!(l.render_order(), vec![2, 3, 1]);
}

#[test]
fn layout_insert_under_an_unknown_parent_makes_a_root() {
    let mut l: Layout<f32> = Layout::default();
    l.insert(7, lay(Sizing::Fit, Sizing::Fit, Pad::default()), Some(99));
    l.run();
    assert_eq!(l.get_rect(&7).unwrap().size, [0, 0]);
    assert_eq!(l.render_order(), vec![7]);
}

fn fit_lay(direction: Direction, gap: u16) -> Lay<f32> {
    Lay {
        size: BoxSize { w: axis(Sizing::Fit), h: axis(Sizing::Fit) },
        pad: Pad::default(),
        gap,
        align: Align::Left,
        direction,
    }
}

#[test]
fn fit_sums_along_and_takes_the_largest_across() {
    let mut l = Layout::default();
    l.insert(1, fit_lay(Direction::Right, 0), None);
    l.insert(2, fit_lay(Direction::Right, 0).fix_size(10, 20), Some(1));
    l.insert(3, fit_lay(Direction::Right, 0).fix_size(30, 40), Some(1));
    l.run();
    assert_eq!(l.get_rect(&1).unwrap().size, [40, 40]);
    assert_eq!(l.get_rect(&2).unwrap().size, [10, 20]);
    assert_eq!(l.get_rect(&3).unwrap().size, [30, 40]);
}

#[test]
fn fit_down_adds_a_gap_between_children() {
    let mut l = Layout::default();
    l.insert(1, fit_lay(Direction::Down, 3), None);
    l.insert(2, fit_lay(Direction::Down, 0).fix_size(10, 20), Some(1));
    l.insert(3, fit_lay(Direction::Down, 0).fix_size(30, 40), Some(1));
    l.insert(4, fit_lay(Direction::Down, 0).fix_size(5, 5), Some(1));
    l.run();
    assert_eq!(l.get_rect(&1).unwrap().size, [30, 71]);
}

#[test]
fn fit_with_one_child_adds_no_gap() {
    let mut l = Layout::default();
    l.insert(1, fit_lay(Direction::Right, 9), None);
    l.insert(2, fit_lay(Direction::Right, 0).fix_size(10, 20), Some(1));
    l.run();
    assert_eq!(l.get_rect(&1).unwrap().size, [10, 20]);
}

#[test]
fn fix_sets_one_axis_or_both() {
    let base = fit_lay(Direction::Down, 4);
    let w = base.fix_w(7);
    assert!(matches!(w.size.w.sizing, Sizing::Size(Size::Fixed(7))));
    assert!(matches!(w.size.h.sizing, Sizing::Fit));
    assert_eq!(w.gap, 4);
    let h = base.fix_h(8);
    assert!(matches!(h.size.w.sizing, Sizing::Fit));
    assert!(matches!(h.size.h.sizing, Sizing::Size(Size::Fixed(8))));
    let b = base.fix_size(1, 2);
    assert!(matches!(b.size.w.sizing, Sizing::Size(Size::Fixed(1))));
    assert!(matches!(b.size.h.sizing, Sizing::Size(Size::Fixed(2))));
}
