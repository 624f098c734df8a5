//! Keyboard state of the engine, updated by each key event and read by the systems of
//! a frame. Keys are identified by their integer code.
use vstd::prelude::*;
use std::collections::HashSet;

verus! {

/// A key event: pressed or released, with the key's code.
#[derive(Clone, Copy, PartialEq, Eq, Debug, Structural)]
pub enum KeyEvent {
    Pressed(u32),
    Released(u32),
}

/// Keys held down, and those pressed and released since the end of the last frame.
pub struct InputState {
    held: HashSet<u32>,
    just_pressed: HashSet<u32>,
    just_released: HashSet<u32>,
}

impl InputState {
    pub closed spec fn spec_held(&self) -> Set<u32> {
        self.held@
    }

    pub closed spec fn spec_just_pressed(&self) -> Set<u32> {
        self.just_pressed@
    }

    pub closed spec fn spec_just_released(&self) -> Set<u32> {
        self.just_released@
    }

    /// No key down, nothing pressed or released.
    pub fn new() -> (r: InputState)
        ensures
            r.spec_held() == Set::<u32>::empty(),
            r.spec_just_pressed() == Set::<u32>::empty(),
            r.spec_just_released() == Set::<u32>::empty(),
    {
        InputState { held: HashSet::new(), just_pressed: HashSet::new(), just_released: HashSet::new() }
    }

    /// Whether `key` is held down.
    pub fn is_held(&self, key: u32) -> (r: bool)
        ensures
            r == self.spec_held().contains(key),
    {
        broadcast use vstd::std_specs::hash::group_hash_axioms;

        self.held.contains(&key)
    }

    /// Whether `key` was pressed during the frame.
    pub fn just_pressed(&self, key: u32) -> (r: bool)
        ensures
            r == self.spec_just_pressed().contains(key),
    {
        broadcast use vstd::std_specs::hash::group_hash_axioms;

        self.just_pressed.contains(&key)
    }

    /// Whether `key` was released during the frame.
    pub fn just_released(&self, key: u32) -> (r: bool)
        ensures
            r == self.spec_just_released().contains(key),
    {
        broadcast use vstd::std_specs::hash::group_hash_axioms;

        self.just_released.contains(&key)
    }

    /// Records a key event: a pressed key is held and pressed this frame; a released
    /// key is no longer held and released this frame.
    pub fn apply(&mut self, event: KeyEvent)
        ensures
            match event {
                KeyEvent::Pressed(k) => {
                    &&& final(self).spec_held() == old(self).spec_held().insert(k)
                    &&& final(self).spec_just_pressed() == old(self).spec_just_pressed().insert(k)
                    &&& final(self).spec_just_released() == old(self).spec_just_released()
                },
                KeyEvent::Released(k) => {
                    &&& final(self).spec_held() == old(self).spec_held().remove(k)
                    &&& final(self).spec_just_pressed() == old(self).spec_just_pressed()
                    &&& final(self).spec_just_released() == old(self).spec_just_released().insert(k)
                },
            },
    {
        broadcast use vstd::std_specs::hash::group_hash_axioms;

        match event {
            KeyEvent::Pressed(k) => {
                self.held.insert(k);
                self.just_pressed.insert(k);
            },
            KeyEvent::Released(k) => {
                self.held.remove(&k);
                self.just_released.insert(k);
            },
        }
    }

    /// At the end of each frame: forgets what was momentary, keeps the held keys.
    pub fn end_frame(&mut self)
        ensures
            final(self).spec_held() == old(self).spec_held(),
            final(self).spec_just_pressed() == Set::<u32>::empty(),
            final(self).spec_just_released() == Set::<u32>::empty(),
    {
        self.just_pressed.clear();
        self.just_released.clear();
    }

    /// When the window loses the focus: nothing is held any more (the camera must not
    /// keep moving), and the frame's events are forgotten.
    pub fn clear(&mut self)
        ensures
            final(self).spec_held() == Set::<u32>::empty(),
            final(self).spec_just_pressed() == Set::<u32>::empty(),
            final(self).spec_just_released() == Set::<u32>::empty(),
    {
        self.held.clear();
        self.end_frame();
    }
}

} // verus!
