use game_engine::inputs::input::normalize;
use game_engine::inputs::{
    AxisBinding, AxisControl, AxisInputData, ButtonInputData, ButtonState, DeviceEvent,
    FrameSignals, GamepadAxis, Input, Scancode, AXIS_MAX,
};

#[test]
fn new_button_is_up_and_unchanged() {
    let button = ButtonInputData::new();
    assert_eq!(button.value, ButtonState::Up);
    assert!(!button.changed_this_frame);
    assert!(button.controls.is_empty());
}

#[test]
fn new_axis_is_at_zero() {
    assert_eq!(AxisInputData::new().value(), 0);
}

#[test]
fn axis_max_is_the_largest_reading() {
    assert_eq!(AXIS_MAX, i16::MAX);
}

#[test]
fn normalize_keeps_readings_within_range() {
    assert_eq!(normalize(0), 0);
    assert_eq!(normalize(1), 1);
    assert_eq!(normalize(i16::MAX), 32767);
    assert_eq!(normalize(-32767), -32767);
    assert_eq!(normalize(i16::MIN), -32767);
    assert_eq!(normalize(-12345) as f64 / AXIS_MAX as f64, -12345.0 / 32767.0);
}

#[test]
fn key_pair_value_follows_the_held_keys() {
    let pair = AxisControl::Keyboard(Scancode(4), Scancode(7));
    let mut binding = AxisBinding::new(pair);
    assert_eq!(binding.value(), 0);
    binding.positive_down = true;
    assert_eq!(binding.value(), 32767);
    binding.negative_down = true;
    assert_eq!(binding.value(), 0);
    binding.positive_down = false;
    assert_eq!(binding.value(), -32767);
}

#[test]
fn unbound_inputs_ignore_every_frame() {
    let frame = FrameSignals::collect(&vec![
        DeviceEvent::KeyDown { scancode: Some(Scancode(4)) },
        DeviceEvent::ControllerAxisMotion { axis: GamepadAxis(0), value: 900 },
    ]);
    let mut button = Input::Button(ButtonInputData::new());
    button.apply(&frame);
    match button {
        Input::Button(b) => {
            assert_eq!(b.value, ButtonState::Up);
            assert!(!b.changed_this_frame);
        }
        Input::Axis(_) => panic!("a button became an axis"),
    }
    let mut axis = Input::Axis(AxisInputData::new());
    axis.apply(&frame);
    match axis {
        Input::Axis(a) => assert_eq!(a.value(), 0),
        Input::Button(_) => panic!("an axis became a button"),
    }
}

#[test]
fn a_frame_without_events_clears_the_changed_flag() {
    let mut button = ButtonInputData::new();
    button.value = ButtonState::Down;
    button.changed_this_frame = true;
    button.apply(&FrameSignals::new());
    assert_eq!(button.value, ButtonState::Down);
    assert!(!button.changed_this_frame);
}
