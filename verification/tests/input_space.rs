use ure::input::{DeviceInput, InputMap, Route};
use ure::sys::delete::Delete;
use ure::sys::tf::Space;
use ure::ure_data::container::{Bits, Container};

fn map() -> InputMap {
    let mut m = InputMap::new();
    m.device_map.insert(10, 0);
    m.device_map.insert(11, 1);
    m.axis_map.insert(2, 5);
    m.button_map.insert(1, 3);
    m.key_map.insert(65, 7);
    m
}

#[test]
fn route_finds_player_and_action() {
    let m = map();
    assert_eq!(m.route(10, DeviceInput::Motion { axis: 2 }), Some(Route::Analog { player: 0, action: 5 }));
    assert_eq!(m.route(11, DeviceInput::Button { button: 1 }), Some(Route::Digital { player: 1, action: 3 }));
    assert_eq!(m.route(11, DeviceInput::Key { key: 65 }), Some(Route::Digital { player: 1, action: 7 }));
}

#[test]
fn route_ignores_unbound_inputs() {
    let m = map();
    assert_eq!(m.route(99, DeviceInput::Key { key: 65 }), None);
    assert_eq!(m.route(10, DeviceInput::Motion { axis: 9 }), None);
    assert_eq!(m.route(10, DeviceInput::Button { button: 9 }), None);
    assert_eq!(m.route(10, DeviceInput::Key { key: 66 }), None);
    assert_eq!(m.route(10, DeviceInput::Other), None);
}

#[test]
fn space_insert_replace_and_delete() {
    let mut s: Space<[i32; 2]> = Space::default();
    s.insert(1, [1, 2]);
    s.insert(2, [3, 4]);
    s.insert(1, [5, 6]);
    assert_eq!(s.get(&1), Some(&[5, 6]));
    s.delete(&1);
    assert_eq!(s.get(&1), None);
    assert_eq!(s.get(&2), Some(&[3, 4]));
}

fn players(n: usize, bits: usize) -> Vec<Bits> {
    let mut v = Vec::new();
    for _ in 0..n {
        let mut b = Bits::new();
        for _ in 0..bits {
            b.push(false);
        }
        v.push(b);
    }
    v
}

#[test]
fn apply_event_sets_the_pressed_state_of_one_action() {
    let m = map();
    let mut d = players(2, 8);
    assert_eq!(m.apply_event(&mut d, 11, DeviceInput::Key { key: 65 }, true), Some(Route::Digital { player: 1, action: 7 }));
    assert_eq!(d[1].get(7), Some(true));
    for i in 0..7 {
        assert_eq!(d[1].get(i), Some(false));
    }
    for i in 0..8 {
        assert_eq!(d[0].get(i), Some(false));
    }
    assert_eq!(m.apply_event(&mut d, 10, DeviceInput::Button { button: 1 }, true), Some(Route::Digital { player: 0, action: 3 }));
    assert_eq!(d[0].get(3), Some(true));
    assert_eq!(m.apply_event(&mut d, 11, DeviceInput::Key { key: 65 }, false), Some(Route::Digital { player: 1, action: 7 }));
    assert_eq!(d[1].get(7), Some(false));
    assert_eq!(d[0].get(3), Some(true));
}

#[test]
fn apply_event_leaves_digital_state_for_other_events() {
    let m = map();
    let mut d = players(2, 8);
    assert_eq!(m.apply_event(&mut d, 10, DeviceInput::Motion { axis: 2 }, true), Some(Route::Analog { player: 0, action: 5 }));
    assert_eq!(m.apply_event(&mut d, 99, DeviceInput::Key { key: 65 }, true), None);
    assert_eq!(m.apply_event(&mut d, 10, DeviceInput::Key { key: 66 }, true), None);
    assert_eq!(m.apply_event(&mut d, 10, DeviceInput::Other, true), None);
    for p in 0..2 {
        for i in 0..8 {
            assert_eq!(d[p].get(i), Some(false));
        }
    }
}
