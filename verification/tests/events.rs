use game_engine::inputs::{
    ButtonControl, ButtonState, DeviceEvent, FrameSignals, GamepadAxis, GamepadButton, Scancode,
};

const KEY_W: Scancode = Scancode(26);
const KEY_S: Scancode = Scancode(22);

#[test]
fn empty_table_knows_no_control() {
    let table = FrameSignals::new();
    assert_eq!(table.button(&ButtonControl::Keyboard(KEY_W)), None);
    assert_eq!(table.axis(&GamepadAxis(1)), None);
}

#[test]
fn collect_keeps_the_last_event_of_each_control() {
    let table = FrameSignals::collect(&vec![
        DeviceEvent::KeyDown { scancode: Some(KEY_W) },
        DeviceEvent::KeyDown { scancode: Some(KEY_S) },
        DeviceEvent::ControllerAxisMotion { axis: GamepadAxis(1), value: 7 },
        DeviceEvent::KeyUp { scancode: Some(KEY_W) },
        DeviceEvent::ControllerButtonDown { button: GamepadButton(2) },
        DeviceEvent::ControllerAxisMotion { axis: GamepadAxis(1), value: -9 },
    ]);
    assert_eq!(table.button(&ButtonControl::Keyboard(KEY_W)), Some(ButtonState::Up));
    assert_eq!(table.button(&ButtonControl::Keyboard(KEY_S)), Some(ButtonState::Down));
    assert_eq!(table.button(&ButtonControl::Gamepad(GamepadButton(2))), Some(ButtonState::Down));
    assert_eq!(table.button(&ButtonControl::Gamepad(GamepadButton(3))), None);
    assert_eq!(table.axis(&GamepadAxis(1)), Some(-9));
    assert_eq!(table.axis(&GamepadAxis(0)), None);
}

#[test]
fn keys_and_gamepad_buttons_with_one_number_are_told_apart() {
    let table = FrameSignals::collect(&vec![DeviceEvent::ControllerButtonUp {
        button: GamepadButton(26),
    }]);
    assert_eq!(table.button(&ButtonControl::Keyboard(KEY_W)), None);
    assert_eq!(table.button(&ButtonControl::Gamepad(GamepadButton(26))), Some(ButtonState::Up));
}

#[test]
fn events_without_a_control_are_dropped() {
    let mut table = FrameSignals::new();
    table.record(&DeviceEvent::KeyDown { scancode: None });
    table.record(&DeviceEvent::KeyUp { scancode: None });
    table.record(&DeviceEvent::Other);
    table.record(&DeviceEvent::KeyDown { scancode: Some(KEY_S) });
    assert_eq!(table.button(&ButtonControl::Keyboard(KEY_S)), Some(ButtonState::Down));
    assert_eq!(table.button(&ButtonControl::Keyboard(KEY_W)), None);
}

#[test]
fn record_replaces_what_the_control_said_before() {
    let mut table = FrameSignals::new();
    table.record(&DeviceEvent::ControllerAxisMotion { axis: GamepadAxis(0), value: i16::MAX });
    table.record(&DeviceEvent::ControllerAxisMotion { axis: GamepadAxis(0), value: i16::MIN });
    assert_eq!(table.axis(&GamepadAxis(0)), Some(i16::MIN));
}
