//! Physical controls: what an input can be bound to.

use vstd::prelude::*;

verus! {

/// A key, named by the number the device layer gives to its place on the keyboard.
#[derive(Clone, Copy, PartialEq, Eq, Structural, Hash, Debug)]
pub struct Scancode(pub i32);

/// A button of the gamepad, by the device layer's number for it.
#[derive(Clone, Copy, PartialEq, Eq, Structural, Hash, Debug)]
pub struct GamepadButton(pub i32);

/// An analog axis of the gamepad, by the device layer's number for it.
#[derive(Clone, Copy, PartialEq, Eq, Structural, Hash, Debug)]
pub struct GamepadAxis(pub i32);

/// A control that is either pressed or released.
#[derive(Clone, Copy, PartialEq, Eq, Structural, Hash, Debug)]
pub enum ButtonControl {
    Keyboard(Scancode),
    Gamepad(GamepadButton),
}

/// A control that yields a value between -1 and 1.
#[derive(Clone, Copy, PartialEq, Eq, Structural, Hash, Debug)]
pub enum AxisControl {
    /// Two keys acting as one axis: the first pulls towards -1, the second towards 1.
    Keyboard(Scancode, Scancode),
    Gamepad(GamepadAxis),
}

/// A physical source of input. Two controls are the same binding target
/// exactly when they are equal as values.
#[derive(Clone, Copy, PartialEq, Eq, Structural, Hash, Debug)]
pub enum Control {
    Button(ButtonControl),
    Axis(AxisControl),
}

} // verus!
