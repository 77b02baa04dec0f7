use vstd::prelude::*;

verus! {

/// Keys that steer the camera; every other key is `Other`.
#[derive(Debug, Clone, Copy, PartialEq, Eq, Structural)]
pub enum KeyCode {
    W,
    A,
    S,
    D,
    Other,
}

/// Whether a key or button went down or up.
#[derive(Debug, Clone, Copy, PartialEq, Eq, Structural)]
pub enum ElementState {
    Pressed,
    Released,
}

/// A mouse button as the windowing system reports it.
#[derive(Debug, Clone, Copy, PartialEq, Eq, Structural)]
pub enum PointerButton {
    Left,
    Right,
    Middle,
    Other(u16),
}

/// The modifier keys held down.
#[derive(Debug, Clone, Copy, PartialEq, Eq, Structural)]
pub struct Modifiers {
    pub shift: bool,
    pub ctrl: bool,
    pub alt: bool,
    pub logo: bool,
}

/// The device that drives panning and orbiting of the camera.
#[derive(Debug, Clone, Copy, PartialEq, Eq, Structural)]
pub enum InputDevice {
    Mouse { middle_pressed: bool },
}

impl InputDevice {
    /// Whether the device currently asks for panning / orbiting.
    pub fn pan(&self) -> (r: bool)
        ensures
            r == (match *self {
                InputDevice::Mouse { middle_pressed } => middle_pressed,
            }),
    {
        match self {
            InputDevice::Mouse { middle_pressed } => *middle_pressed,
        }
    }
}

impl Default for InputDevice {
    fn default() -> (r: Self)
        ensures
            r == (InputDevice::Mouse { middle_pressed: false }),
    {
        InputDevice::Mouse { middle_pressed: false }
    }
}

/// The keys and buttons the camera controller looks at.
#[derive(Debug, Clone, Copy, PartialEq, Eq, Structural)]
pub struct KeyState {
    pub up_pressed: bool,
    pub down_pressed: bool,
    pub left_pressed: bool,
    pub right_pressed: bool,
    pub shift_pressed: bool,
    pub input_device: InputDevice,
    pub cmd_pressed: bool,
}

/// Nothing pressed.
pub open spec fn key_state_released() -> KeyState {
    KeyState {
        up_pressed: false,
        down_pressed: false,
        left_pressed: false,
        right_pressed: false,
        shift_pressed: false,
        input_device: InputDevice::Mouse { middle_pressed: false },
        cmd_pressed: false,
    }
}

/// The key state after `keycode` went to `state`: W, S, A and D set the
/// up, down, left and right flags; other keys change nothing.
pub open spec fn key_state_after_key(k: KeyState, keycode: KeyCode, state: ElementState) -> KeyState {
    let pressed = state == ElementState::Pressed;
    match keycode {
        KeyCode::W => KeyState { up_pressed: pressed, ..k },
        KeyCode::S => KeyState { down_pressed: pressed, ..k },
        KeyCode::A => KeyState { left_pressed: pressed, ..k },
        KeyCode::D => KeyState { right_pressed: pressed, ..k },
        KeyCode::Other => k,
    }
}

/// W moves forwards, S backwards, A left and D right: each key sets its
/// own direction flag to whether it is down and leaves every other flag as
/// it was; any other key changes nothing.
pub proof fn lemma_key_directions(k: KeyState, keycode: KeyCode, state: ElementState)
    ensures
        key_state_after_key(k, keycode, state).up_pressed == (if keycode is W { state is Pressed } else { k.up_pressed }),
        key_state_after_key(k, keycode, state).down_pressed == (if keycode is S { state is Pressed } else { k.down_pressed }),
        key_state_after_key(k, keycode, state).left_pressed == (if keycode is A { state is Pressed } else { k.left_pressed }),
        key_state_after_key(k, keycode, state).right_pressed == (if keycode is D { state is Pressed } else { k.right_pressed }),
        key_state_after_key(k, keycode, state).shift_pressed == k.shift_pressed,
        key_state_after_key(k, keycode, state).cmd_pressed == k.cmd_pressed,
        key_state_after_key(k, keycode, state).input_device == k.input_device,
{
}

/// The key state after a mouse button event: the middle button, or the left
/// button while shift or the command key is held, sets the pan flag to
/// whether the button is down; any other button clears it.
pub open spec fn key_state_after_mouse(k: KeyState, state: ElementState, button: PointerButton) -> KeyState {
    let pressed = state == ElementState::Pressed;
    let pan = match button {
        PointerButton::Middle => pressed,
        PointerButton::Left => if k.cmd_pressed || k.shift_pressed { pressed } else { false },
        _ => false,
    };
    KeyState { input_device: InputDevice::Mouse { middle_pressed: pan }, ..k }
}

/// Panning is on exactly while the middle button is down, or the left
/// button is down with shift or the command key held; a mouse event
/// changes no key flag.
pub proof fn lemma_mouse_pan(k: KeyState, state: ElementState, button: PointerButton)
    ensures
        key_state_after_mouse(k, state, button).input_device == (InputDevice::Mouse {
            middle_pressed: state is Pressed && (button is Middle || (button is Left && (k.cmd_pressed
                || k.shift_pressed))),
        }),
        key_state_after_mouse(k, state, button).up_pressed == k.up_pressed,
        key_state_after_mouse(k, state, button).down_pressed == k.down_pressed,
        key_state_after_mouse(k, state, button).left_pressed == k.left_pressed,
        key_state_after_mouse(k, state, button).right_pressed == k.right_pressed,
        key_state_after_mouse(k, state, button).shift_pressed == k.shift_pressed,
        key_state_after_mouse(k, state, button).cmd_pressed == k.cmd_pressed,
{
}

impl Default for KeyState {
    fn default() -> (r: Self)
        ensures
            r == key_state_released(),
    {
        KeyState {
            up_pressed: false,
            down_pressed: false,
            left_pressed: false,
            right_pressed: false,
            shift_pressed: false,
            input_device: InputDevice::default(),
            cmd_pressed: false,
        }
    }
}

impl KeyState {
    /// Records a key going down or up.
    pub fn update_keys(&mut self, keycode: KeyCode, state: ElementState)
        ensures
            *final(self) == key_state_after_key(*old(self), keycode, state),
            final(self).up_pressed == (if keycode is W { state is Pressed } else { old(self).up_pressed }),
            final(self).down_pressed == (if keycode is S { state is Pressed } else { old(self).down_pressed }),
            final(self).left_pressed == (if keycode is A { state is Pressed } else { old(self).left_pressed }),
            final(self).right_pressed == (if keycode is D { state is Pressed } else { old(self).right_pressed }),
            final(self).shift_pressed == old(self).shift_pressed,
            final(self).cmd_pressed == old(self).cmd_pressed,
            final(self).input_device == old(self).input_device,
    {
        let pressed = match state {
            ElementState::Pressed => true,
            ElementState::Released => false,
        };
        match keycode {
            KeyCode::W => self.up_pressed = pressed,
            KeyCode::S => self.down_pressed = pressed,
            KeyCode::A => self.left_pressed = pressed,
            KeyCode::D => self.right_pressed = pressed,
            KeyCode::Other => {},
        }
    }

    /// Records a mouse button going down or up.
    pub fn update_mouse(&mut self, state: &ElementState, button: &PointerButton)
        ensures
            *final(self) == key_state_after_mouse(*old(self), *state, *button),
    {
        let pressed = match state {
            ElementState::Pressed => true,
            ElementState::Released => false,
        };
        match button {
            PointerButton::Middle => self.input_device = InputDevice::Mouse { middle_pressed: pressed },
            PointerButton::Left if self.cmd_pressed || self.shift_pressed => {
                self.input_device = InputDevice::Mouse { middle_pressed: pressed }
            },
            _ => self.input_device = InputDevice::Mouse { middle_pressed: false },
        }
    }

    /// Records the modifier keys: shift, and the logo key as the command key.
    pub fn set_modifiers(&mut self, state: &Modifiers)
        ensures
            *final(self) == (KeyState { shift_pressed: state.shift, cmd_pressed: state.logo, ..*old(self) }),
    {
        self.shift_pressed = state.shift;
        self.cmd_pressed = state.logo;
    }
}

} // verus!
