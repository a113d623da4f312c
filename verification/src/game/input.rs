//! Input vocabulary shared with the windowing layer, and the held / just
//! pressed state of keys and mouse buttons. Keys are the windowing layer's
//! key codes as integers; pointer motion and wheel deltas stay with the
//! windowing layer.

use std::collections::HashSet;
use vstd::prelude::*;

verus! {

/// Game-relevant mouse buttons (the windowing layer's enum carries more and
/// is mapped onto these).
#[derive(Debug, Clone, Copy, PartialEq, Eq, Hash, Structural)]
pub enum MouseButton {
    Left,
    Right,
}

/// Slot of a button in the per-button flags.
pub open spec fn button_slot(b: MouseButton) -> int {
    match b {
        MouseButton::Left => 0,
        MouseButton::Right => 1,
    }
}

fn slot_of(b: MouseButton) -> (r: usize)
    ensures
        r == button_slot(b),
        r < 2,
{
    match b {
        MouseButton::Left => 0,
        MouseButton::Right => 1,
    }
}

/// Which keys and buttons are held, and which went down this frame.
pub struct InputState {
    pressed: HashSet<u32>,
    just_pressed: HashSet<u32>,
    mouse_held: [bool; 2],
    mouse_just_pressed: [bool; 2],
}

impl InputState {
    /// Keys held down.
    pub closed spec fn held_keys(&self) -> Set<u32> {
        self.pressed@
    }

    /// Keys that went down this frame.
    pub closed spec fn pressed_keys(&self) -> Set<u32> {
        self.just_pressed@
    }

    pub closed spec fn button_held(&self, b: MouseButton) -> bool {
        self.mouse_held[button_slot(b)]
    }

    pub closed spec fn button_pressed(&self, b: MouseButton) -> bool {
        self.mouse_just_pressed[button_slot(b)]
    }

    pub fn new() -> (r: Self)
        ensures
            r.held_keys() == Set::<u32>::empty(),
            r.pressed_keys() == Set::<u32>::empty(),
            forall|b: MouseButton| !#[trigger] r.button_held(b) && !r.button_pressed(b),
    {
        InputState {
            pressed: HashSet::new(),
            just_pressed: HashSet::new(),
            mouse_held: [false, false],
            mouse_just_pressed: [false, false],
        }
    }

    /// A key went down or up. A press counts once per up→down edge: a
    /// repeat while held is not a new press.
    pub fn set_key(&mut self, key: u32, down: bool)
        ensures
            final(self).held_keys() == if down {
                old(self).held_keys().insert(key)
            } else {
                old(self).held_keys().remove(key)
            },
            final(self).pressed_keys() == if down && !old(self).held_keys().contains(key) {
                old(self).pressed_keys().insert(key)
            } else {
                old(self).pressed_keys()
            },
            forall|b: MouseButton| #[trigger] final(self).button_held(b) == old(self).button_held(b)
                && final(self).button_pressed(b) == old(self).button_pressed(b),
    {
        if down {
            if self.pressed.insert(key) {
                self.just_pressed.insert(key);
            }
        } else {
            self.pressed.remove(&key);
        }
    }

    pub fn is_down(&self, key: u32) -> (r: bool)
        ensures
            r == self.held_keys().contains(key),
    {
        self.pressed.contains(&key)
    }

    /// True only in the frame the key went down (until `end_frame`).
    pub fn key_pressed(&self, key: u32) -> (r: bool)
        ensures
            r == self.pressed_keys().contains(key),
    {
        self.just_pressed.contains(&key)
    }

    /// A mouse button went down or up, with the same edge rule as keys.
    pub fn set_mouse_button(&mut self, button: MouseButton, down: bool)
        ensures
            final(self).held_keys() == old(self).held_keys(),
            final(self).pressed_keys() == old(self).pressed_keys(),
            final(self).button_held(button) == down,
            final(self).button_pressed(button) == (old(self).button_pressed(button) || (down && !old(
                self,
            ).button_held(button))),
            forall|b: MouseButton|
                b != button ==> #[trigger] final(self).button_held(b) == old(self).button_held(b)
                    && final(self).button_pressed(b) == old(self).button_pressed(b),
    {
        let i = slot_of(button);
        if down {
            if !self.mouse_held[i] {
                self.mouse_just_pressed[i] = true;
            }
            self.mouse_held[i] = true;
        } else {
            self.mouse_held[i] = false;
        }
    }

    pub fn mouse_down(&self, button: MouseButton) -> (r: bool)
        ensures
            r == self.button_held(button),
    {
        self.mouse_held[slot_of(button)]
    }

    pub fn mouse_pressed(&self, button: MouseButton) -> (r: bool)
        ensures
            r == self.button_pressed(button),
    {
        self.mouse_just_pressed[slot_of(button)]
    }

    /// Consumes this frame's press edges; what is held stays held.
    pub fn end_frame(&mut self)
        ensures
            final(self).held_keys() == old(self).held_keys(),
            final(self).pressed_keys() == Set::<u32>::empty(),
            forall|b: MouseButton| #[trigger] final(self).button_held(b) == old(self).button_held(b)
                && !final(self).button_pressed(b),
    {
        self.just_pressed.clear();
        self.mouse_just_pressed = [false, false];
    }

    /// Drops everything held or pressed (focus was lost, so no release
    /// events will come for what is held now).
    pub fn clear(&mut self)
        ensures
            final(self).held_keys() == Set::<u32>::empty(),
            final(self).pressed_keys() == Set::<u32>::empty(),
            forall|b: MouseButton| !#[trigger] final(self).button_held(b) && !final(self).button_pressed(b),
    {
        self.pressed.clear();
        self.just_pressed.clear();
        self.mouse_held = [false, false];
        self.mouse_just_pressed = [false, false];
    }
}

impl Default for InputState {
    fn default() -> (r: Self)
        ensures
            r.held_keys() == Set::<u32>::empty(),
            r.pressed_keys() == Set::<u32>::empty(),
            forall|b: MouseButton| !#[trigger] r.button_held(b) && !r.button_pressed(b),
    {
        InputState::new()
    }
}

} // verus!
