use vstd::prelude::*;
use std::collections::HashMap;

verus! {

broadcast use vstd::std_specs::hash::group_hash_axioms;

/// Whether key `key` counts as pressed in the recorded states `keys`: a key
/// never recorded is not pressed.
pub open spec fn pressed_in(keys: Map<u32, bool>, key: u32) -> bool {
    keys.contains_key(key) && keys[key]
}

/// The keys of the keyboard, by key code, recorded as pressed or released
/// by the window's events.
pub struct InputState {
    pub pressed_keys: HashMap<u32, bool>,
}

impl InputState {
    /// No key recorded.
    pub fn new() -> (s: InputState)
        ensures
            s.pressed_keys@ == Map::<u32, bool>::empty(),
    {
        InputState { pressed_keys: HashMap::new() }
    }

    /// Records key `key` as pressed or released.
    pub fn set_key_press(&mut self, key: u32, is_pressed: bool)
        ensures
            final(self).pressed_keys@ == old(self).pressed_keys@.insert(key, is_pressed),
    {
        self.pressed_keys.insert(key, is_pressed);
    }

    /// Whether key `key` is recorded as pressed.
    pub fn is_key_pressed(&self, key: u32) -> (r: bool)
        ensures
            r == pressed_in(self.pressed_keys@, key),
    {
        match self.pressed_keys.get(&key) {
            Some(p) => *p,
            None => false,
        }
    }

    /// Whether key `key` is recorded as pressed; its record is dropped, so
    /// that one press is acted on once.
    pub fn take_key_pressed(&mut self, key: u32) -> (r: bool)
        ensures
            r == pressed_in(old(self).pressed_keys@, key),
            final(self).pressed_keys@ == old(self).pressed_keys@.remove(key),
    {
        match self.pressed_keys.remove(&key) {
            Some(p) => p,
            None => false,
        }
    }
}

/// A press is taken once: after recording `key` as pressed, taking it says
/// pressed, and the key then reads as not pressed until recorded again;
/// other keys keep their state.
pub proof fn lemma_press_taken_once(keys: Map<u32, bool>, key: u32, other: u32)
    requires
        other != key,
    ensures
        pressed_in(keys.insert(key, true), key),
        !pressed_in(keys.insert(key, true).remove(key), key),
        pressed_in(keys.insert(key, true).remove(key), other) == pressed_in(keys, other),
{
}

} // verus!
