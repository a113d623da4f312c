use git_craft::game::input::{InputState, MouseButton};

// Key codes as the windowing layer numbers them; any distinct integers do.
const KEY_F: u32 = 5;
const KEY_W: u32 = 22;

#[test]
fn key_pressed_fires_once_per_press_edge() {
    let mut input = InputState::default();
    input.set_key(KEY_F, true);
    assert!(input.key_pressed(KEY_F));
    assert!(input.is_down(KEY_F));
    input.end_frame();
    assert!(!input.key_pressed(KEY_F), "edge consumed");
    assert!(input.is_down(KEY_F), "still held");
    input.set_key(KEY_F, true); // OS key-repeat while held
    assert!(!input.key_pressed(KEY_F), "repeat is not a new edge");
    input.set_key(KEY_F, false);
    input.set_key(KEY_F, true);
    assert!(input.key_pressed(KEY_F), "release + press = new edge");
}

#[test]
fn mouse_buttons_track_edges_and_held_state() {
    let mut input = InputState::default();
    input.set_mouse_button(MouseButton::Left, true);
    assert!(input.mouse_pressed(MouseButton::Left));
    assert!(input.mouse_down(MouseButton::Left));
    assert!(!input.mouse_pressed(MouseButton::Right));
    input.end_frame();
    assert!(!input.mouse_pressed(MouseButton::Left));
    assert!(input.mouse_down(MouseButton::Left));
    input.set_mouse_button(MouseButton::Left, false);
    assert!(!input.mouse_down(MouseButton::Left));
}

#[test]
fn clear_drops_everything() {
    let mut input = InputState::default();
    input.set_key(KEY_W, true);
    input.set_mouse_button(MouseButton::Right, true);
    input.clear();
    assert!(!input.is_down(KEY_W));
    assert!(!input.key_pressed(KEY_W));
    assert!(!input.mouse_down(MouseButton::Right));
    assert!(!input.mouse_pressed(MouseButton::Right));
}

#[test]
fn a_press_released_in_the_same_frame_still_counts() {
    let mut input = InputState::new();
    input.set_key(KEY_W, true);
    input.set_key(KEY_W, false);
    assert!(input.key_pressed(KEY_W));
    assert!(!input.is_down(KEY_W));
    input.set_mouse_button(MouseButton::Right, true);
    input.set_mouse_button(MouseButton::Right, false);
    assert!(input.mouse_pressed(MouseButton::Right));
    assert!(!input.mouse_down(MouseButton::Right));
    input.end_frame();
    assert!(!input.key_pressed(KEY_W) && !input.mouse_pressed(MouseButton::Right));
}
