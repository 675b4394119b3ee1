//! Routing of device events to the actions of players.
use vstd::prelude::*;
use std::collections::HashMap;

use crate::ure_data::container::{Bits, bits_of};

verus! {

broadcast use vstd::std_specs::hash::group_hash_axioms;

/// What the input map reads of a device event.
#[derive(Debug, Clone, Copy, PartialEq, Eq)]
pub enum DeviceInput {
    /// An axis moved.
    Motion { axis: u32 },
    /// A button was pressed or released.
    Button { button: u32 },
    /// A key, by its physical code, was pressed or released.
    Key { key: u64 },
    /// Any other event.
    Other,
}

/// Which action of which player an event sets.
#[derive(Debug, Clone, Copy, PartialEq, Eq)]
pub enum Route {
    /// The analog action `action` of `player` takes the axis value.
    Analog { player: usize, action: usize },
    /// The digital action `action` of `player` takes the pressed state.
    Digital { player: usize, action: usize },
}

/// The bindings from devices to players and from inputs to actions.
#[derive(Debug, Clone)]
pub struct InputMap {
    pub key_map: HashMap<u64, usize>,
    pub button_map: HashMap<u32, usize>,
    pub axis_map: HashMap<u32, usize>,
    pub device_map: HashMap<u64, usize>,
    pub window_map: HashMap<u64, usize>,
}

impl InputMap {
    /// A map that binds nothing.
    pub fn new() -> (m: Self)
        ensures
            m.key_map@ == Map::<u64, usize>::empty(),
            m.button_map@ == Map::<u32, usize>::empty(),
            m.axis_map@ == Map::<u32, usize>::empty(),
            m.device_map@ == Map::<u64, usize>::empty(),
            m.window_map@ == Map::<u64, usize>::empty(),
    {
        InputMap {
            key_map: HashMap::new(),
            button_map: HashMap::new(),
            axis_map: HashMap::new(),
            device_map: HashMap::new(),
            window_map: HashMap::new(),
        }
    }

    /// Where an event of `device` goes: nowhere when the device has no
    /// player, when the input is bound to no action, or for other events.
    pub open spec fn route_spec(&self, device: u64, input: DeviceInput) -> Option<Route> {
        if !self.device_map@.contains_key(device) {
            None
        } else {
            let player = self.device_map@[device];
            match input {
                DeviceInput::Motion { axis } => if self.axis_map@.contains_key(axis) {
                    Some(Route::Analog { player, action: self.axis_map@[axis] })
                } else {
                    None
                },
                DeviceInput::Button { button } => if self.button_map@.contains_key(button) {
                    Some(Route::Digital { player, action: self.button_map@[button] })
                } else {
                    None
                },
                DeviceInput::Key { key } => if self.key_map@.contains_key(key) {
                    Some(Route::Digital { player, action: self.key_map@[key] })
                } else {
                    None
                },
                DeviceInput::Other => None,
            }
        }
    }

    /// A key event goes to the device's player and the action the key map
    /// binds the key to, and nowhere when the key or the device is unbound,
    /// whatever the other maps hold; likewise a button event reads only the
    /// button map and a motion only the axis map.
    pub proof fn lemma_route_reads_its_own_map(&self, device: u64, key: u64, button: u32, axis: u32)
        ensures
            self.route_spec(device, DeviceInput::Key { key }) is Some
                <==> self.device_map@.contains_key(device) && self.key_map@.contains_key(key),
            self.route_spec(device, DeviceInput::Key { key }) is Some
                ==> self.route_spec(device, DeviceInput::Key { key }) == Some(Route::Digital {
                    player: self.device_map@[device],
                    action: self.key_map@[key],
                }),
            self.route_spec(device, DeviceInput::Button { button }) is Some
                <==> self.device_map@.contains_key(device) && self.button_map@.contains_key(button),
            self.route_spec(device, DeviceInput::Button { button }) is Some
                ==> self.route_spec(device, DeviceInput::Button { button }) == Some(Route::Digital {
                    player: self.device_map@[device],
                    action: self.button_map@[button],
                }),
            self.route_spec(device, DeviceInput::Motion { axis }) is Some
                <==> self.device_map@.contains_key(device) && self.axis_map@.contains_key(axis),
            self.route_spec(device, DeviceInput::Motion { axis }) is Some
                ==> self.route_spec(device, DeviceInput::Motion { axis }) == Some(Route::Analog {
                    player: self.device_map@[device],
                    action: self.axis_map@[axis],
                }),
            self.route_spec(device, DeviceInput::Other) is None,
    {
    }

    /// Two input maps that agree on the devices and on the key map route
    /// every key event alike, whatever their button and axis maps hold.
    pub proof fn lemma_key_route_ignores_other_maps(&self, other: &InputMap, device: u64, key: u64)
        requires
            self.device_map@ == other.device_map@,
            self.key_map@ == other.key_map@,
        ensures
            self.route_spec(device, DeviceInput::Key { key }) == other.route_spec(device, DeviceInput::Key { key }),
    {
        self.lemma_route_reads_its_own_map(device, key, 0, 0);
        other.lemma_route_reads_its_own_map(device, key, 0, 0);
    }

    /// Where an event of `device` goes: nowhere when the device has no
    /// player, when the input is bound to no action, or for other events.
    pub fn route(&self, device: u64, input: DeviceInput) -> (r: Option<Route>)
        ensures
            r == self.route_spec(device, input),
    {
        let player = match self.device_map.get(&device) {
            Some(p) => *p,
            None => return None,
        };
        match input {
            DeviceInput::Motion { axis } => match self.axis_map.get(&axis) {
                Some(action) => Some(Route::Analog { player, action: *action }),
                None => None,
            },
            DeviceInput::Button { button } => match self.button_map.get(&button) {
                Some(action) => Some(Route::Digital { player, action: *action }),
                None => None,
            },
            DeviceInput::Key { key } => match self.key_map.get(&key) {
                Some(action) => Some(Route::Digital { player, action: *action }),
                None => None,
            },
            DeviceInput::Other => None,
        }
    }

    /// Applies an event of `device` to the digital actions of the players,
    /// one bit-vector per player: a button or a key bound to an action sets
    /// that action of the device's player to `pressed`, and nothing else
    /// changes. Returns where the event went; an axis motion changes no
    /// digital action, and its value is for the caller to set.
    pub fn apply_event(&self, digital: &mut Vec<Bits>, device: u64, input: DeviceInput, pressed: bool) -> (r: Option<Route>)
        requires
            self.device_map@.contains_key(device) ==> self.device_map@[device] < old(digital)@.len(),
            forall|player: usize, action: usize| #[trigger] self.route_spec(device, input)
                == Some(Route::Digital { player, action }) ==> action < bits_of(old(digital)@[player as int]).len(),
        ensures
            r == self.route_spec(device, input),
            final(digital)@.len() == old(digital)@.len(),
            match r {
                Some(Route::Digital { player, action }) => {
                    &&& bits_of(final(digital)@[player as int]) == bits_of(old(digital)@[player as int]).update(action as int, pressed)
                    &&& forall|i: int| 0 <= i < old(digital)@.len() && i != player ==> final(digital)@[i] == old(digital)@[i]
                },
                _ => final(digital)@ == old(digital)@,
            },
    {
        let r = self.route(device, input);
        if let Some(Route::Digital { player, action }) = r {
            let mut bits = digital.remove(player);
            bits.set(action, pressed);
            digital.insert(player, bits);
        }
        r
    }
}

} // verus!
