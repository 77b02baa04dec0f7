use engine::animation::{RainbowAnimation, RAINBOW_TRANSITION};
use engine::camera::CameraSync;
use engine::events::{CommandResult, Event, MouseButton};
use engine::input::{ElementState, InputDevice, KeyCode, KeyState, Modifiers, PointerButton};

fn red(phase: u32) -> [u8; 3] {
    [phase as u8, 7, 9]
}

#[test]
fn rainbow_starts_black() {
    let a = RainbowAnimation::new();
    assert_eq!(a.get_current_color(), [0, 0, 0]);
}

#[test]
fn rainbow_first_update_samples_phase_one() {
    let mut a = RainbowAnimation::new();
    a.update(16, red);
    assert_eq!(a.get_current_color(), [1, 7, 9]);
}

#[test]
fn rainbow_ignores_delta_time() {
    let mut a = RainbowAnimation::new();
    let mut b = RainbowAnimation::new();
    for _ in 0..10 {
        a.update(1, red);
        b.update(1000, red);
    }
    assert_eq!(a.get_current_color(), b.get_current_color());
}

#[test]
fn rainbow_phase_is_a_triangle_wave() {
    let mut a = RainbowAnimation::new();
    for k in 1u32..=600 {
        a.update(0, red);
        let m = k % 300;
        let expected = if m <= RAINBOW_TRANSITION { m } else { 300 - m };
        assert_eq!(a.get_current_color()[0] as u32, expected, "update {}", k);
    }
}

#[test]
fn rainbow_peaks_after_transition() {
    let mut a = RainbowAnimation::new();
    for _ in 0..150 {
        a.update(0, red);
    }
    assert_eq!(a.get_current_color(), [150, 7, 9]);
    a.update(0, red);
    assert_eq!(a.get_current_color(), [149, 7, 9]);
}

#[test]
fn rainbow_reset_restarts_cycle() {
    let mut a = RainbowAnimation::new();
    for _ in 0..42 {
        a.update(0, red);
    }
    a.reset();
    assert_eq!(a.get_current_color(), [0, 0, 0]);
    a.update(0, red);
    assert_eq!(a.get_current_color(), [1, 7, 9]);
}

#[test]
fn key_state_default_is_released() {
    let k = KeyState::default();
    assert!(!k.up_pressed && !k.down_pressed && !k.left_pressed && !k.right_pressed);
    assert!(!k.shift_pressed && !k.cmd_pressed);
    assert_eq!(k.input_device, InputDevice::Mouse { middle_pressed: false });
    assert!(!InputDevice::default().pan());
}

#[test]
fn wasd_set_direction_flags() {
    let mut k = KeyState::default();
    k.update_keys(KeyCode::W, ElementState::Pressed);
    k.update_keys(KeyCode::A, ElementState::Pressed);
    assert!(k.up_pressed && k.left_pressed);
    assert!(!k.down_pressed && !k.right_pressed);
    k.update_keys(KeyCode::W, ElementState::Released);
    k.update_keys(KeyCode::S, ElementState::Pressed);
    k.update_keys(KeyCode::D, ElementState::Pressed);
    assert!(!k.up_pressed && k.down_pressed && k.right_pressed && k.left_pressed);
}

#[test]
fn other_keys_change_nothing() {
    let mut k = KeyState::default();
    k.update_keys(KeyCode::W, ElementState::Pressed);
    let before = k;
    k.update_keys(KeyCode::Other, ElementState::Pressed);
    assert_eq!(k, before);
}

#[test]
fn middle_button_pans() {
    let mut k = KeyState::default();
    k.update_mouse(&ElementState::Pressed, &PointerButton::Middle);
    assert!(k.input_device.pan());
    k.update_mouse(&ElementState::Released, &PointerButton::Middle);
    assert!(!k.input_device.pan());
}

#[test]
fn left_button_pans_only_with_modifier() {
    let mut k = KeyState::default();
    k.update_mouse(&ElementState::Pressed, &PointerButton::Left);
    assert!(!k.input_device.pan());
    k.set_modifiers(&Modifiers { shift: true, ctrl: false, alt: false, logo: false });
    assert!(k.shift_pressed && !k.cmd_pressed);
    k.update_mouse(&ElementState::Pressed, &PointerButton::Left);
    assert!(k.input_device.pan());
    k.set_modifiers(&Modifiers { shift: false, ctrl: true, alt: true, logo: true });
    assert!(!k.shift_pressed && k.cmd_pressed);
    k.update_mouse(&ElementState::Released, &PointerButton::Left);
    assert!(!k.input_device.pan());
}

#[test]
fn other_buttons_stop_panning() {
    let mut k = KeyState::default();
    k.update_mouse(&ElementState::Pressed, &PointerButton::Middle);
    k.update_mouse(&ElementState::Pressed, &PointerButton::Right);
    assert!(!k.input_device.pan());
    k.update_mouse(&ElementState::Pressed, &PointerButton::Middle);
    k.update_mouse(&ElementState::Pressed, &PointerButton::Other(8));
    assert!(!k.input_device.pan());
}

#[test]
fn camera_light_count_marks_dirty_only_on_change() {
    let mut c = CameraSync::new();
    assert_eq!(c.light_count(), 0);
    assert!(!c.take_dirty());
    c.update_light_count(3);
    assert_eq!(c.light_count(), 3);
    assert!(c.take_dirty());
    assert!(!c.take_dirty());
    c.update_light_count(3);
    assert!(!c.take_dirty());
    c.mark_dirty();
    assert!(c.dirty());
    assert!(c.dirty());
    assert!(c.take_dirty());
    assert!(!c.dirty());
    assert_eq!(c.light_count(), 3);
}

#[test]
fn events_compare_by_value() {
    let e = Event::CommandResult(CommandResult::ClickQuery(0));
    assert_eq!(e, Event::CommandResult(CommandResult::ClickQuery(0)));
    assert_ne!(e, Event::CommandResult(CommandResult::ClickQuery(5)));
    let c = Event::Click { x: 3, y: 4, mouse_button: MouseButton::Left };
    assert_ne!(c, Event::Click { x: 3, y: 4, mouse_button: MouseButton::Right });
}
