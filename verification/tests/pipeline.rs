use game_engine::inputs::{
    AxisControl, AxisInputData, ButtonControl, ButtonInputData, ButtonState, Control, DeviceEvent,
    GamepadAxis, GamepadButton, Input, InputRegistrationError, InputScheme, InputsPipeline,
    Scancode, AXIS_MAX,
};

#[derive(Clone, Copy, PartialEq, Eq, Hash, Debug)]
enum Id {
    Jump,
    Fire,
    Move,
    Steer,
}

impl InputScheme for Id {}

const SPACE: Scancode = Scancode(44);
const KEY_A: Scancode = Scancode(4);
const KEY_D: Scancode = Scancode(7);
const KEY_F: Scancode = Scancode(9);
const KEY_Q: Scancode = Scancode(20);
const PAD_A: GamepadButton = GamepadButton(0);
const LEFT_X: GamepadAxis = GamepadAxis(0);

fn key(code: Scancode) -> Control {
    Control::Button(ButtonControl::Keyboard(code))
}

fn pad(button: GamepadButton) -> Control {
    Control::Button(ButtonControl::Gamepad(button))
}

fn key_pair(negative: Scancode, positive: Scancode) -> Control {
    Control::Axis(AxisControl::Keyboard(negative, positive))
}

fn stick(axis: GamepadAxis) -> Control {
    Control::Axis(AxisControl::Gamepad(axis))
}

fn key_down(code: Scancode) -> DeviceEvent {
    DeviceEvent::KeyDown { scancode: Some(code) }
}

fn key_up(code: Scancode) -> DeviceEvent {
    DeviceEvent::KeyUp { scancode: Some(code) }
}

fn moved(axis: GamepadAxis, value: i16) -> DeviceEvent {
    DeviceEvent::ControllerAxisMotion { axis, value }
}

fn button() -> Input {
    Input::Button(ButtonInputData::new())
}

fn axis() -> Input {
    Input::Axis(AxisInputData::new())
}

fn button_of(pipeline: &InputsPipeline<Id>, id: Id) -> (ButtonState, bool) {
    match pipeline.read(&id) {
        Some(Input::Button(button)) => (button.value, button.changed_this_frame),
        _ => panic!("no button registered under {:?}", id),
    }
}

fn raw_axis_of(pipeline: &InputsPipeline<Id>, id: Id) -> i16 {
    match pipeline.read(&id) {
        Some(Input::Axis(axis)) => axis.value(),
        _ => panic!("no axis registered under {:?}", id),
    }
}

fn axis_of(pipeline: &InputsPipeline<Id>, id: Id) -> f64 {
    raw_axis_of(pipeline, id) as f64 / AXIS_MAX as f64
}

fn busy_owner(result: Result<(), InputRegistrationError<Id>>) -> Option<Id> {
    match result {
        Ok(()) => None,
        Err(InputRegistrationError::ControlBusy(owner)) => Some(owner),
    }
}

#[test]
fn new_pipeline_has_no_inputs_and_no_owners() {
    let pipeline = InputsPipeline::<Id>::new();
    assert!(pipeline.read(&Id::Jump).is_none());
    assert_eq!(pipeline.owner(&key(SPACE)), None);
}

#[test]
fn registration_makes_the_input_readable_and_owns_every_control() {
    let mut pipeline = InputsPipeline::<Id>::new();
    let result = pipeline.register(Id::Jump, button(), &vec![key(SPACE), pad(PAD_A)]);
    assert!(result.is_ok());
    assert!(pipeline.read(&Id::Jump).is_some());
    assert_eq!(pipeline.owner(&key(SPACE)), Some(Id::Jump));
    assert_eq!(pipeline.owner(&pad(PAD_A)), Some(Id::Jump));
    assert_eq!(pipeline.owner(&key(KEY_F)), None);
    assert!(pipeline.read(&Id::Fire).is_none());
}

#[test]
fn conflict_leaves_no_partial_registration() {
    let mut pipeline = InputsPipeline::<Id>::new();
    assert!(pipeline.register(Id::Fire, button(), &vec![key(KEY_F)]).is_ok());

    let jump = pipeline.register(Id::Jump, button(), &vec![key(SPACE), key(KEY_F)]);
    assert_eq!(busy_owner(jump), Some(Id::Fire));
    assert_eq!(pipeline.owner(&key(SPACE)), None);
    assert_eq!(pipeline.owner(&key(KEY_F)), Some(Id::Fire));
    assert!(pipeline.read(&Id::Jump).is_none());

    assert!(pipeline.register(Id::Jump, button(), &vec![key(SPACE)]).is_ok());
    assert_eq!(pipeline.owner(&key(SPACE)), Some(Id::Jump));
}

#[test]
fn conflict_names_the_owner_of_the_first_busy_control() {
    let mut pipeline = InputsPipeline::<Id>::new();
    pipeline.register(Id::Fire, button(), &vec![key(KEY_F)]).unwrap();
    pipeline.register(Id::Jump, button(), &vec![key(SPACE)]).unwrap();

    let first = pipeline.register(Id::Move, axis(), &vec![key(KEY_Q), key(SPACE), key(KEY_F)]);
    assert_eq!(busy_owner(first), Some(Id::Jump));
    let second = pipeline.register(Id::Move, axis(), &vec![key(KEY_F), key(SPACE)]);
    assert_eq!(busy_owner(second), Some(Id::Fire));
    assert_eq!(pipeline.owner(&key(KEY_Q)), None);
    assert!(pipeline.read(&Id::Move).is_none());
}

#[test]
fn registering_a_name_twice_is_refused() {
    let mut pipeline = InputsPipeline::<Id>::new();
    pipeline.register(Id::Jump, button(), &vec![key(SPACE)]).unwrap();
    pipeline.process_events(&vec![key_down(SPACE)]);

    let again = pipeline.register(Id::Jump, button(), &vec![key(KEY_Q)]);
    assert_eq!(busy_owner(again), Some(Id::Jump));
    assert_eq!(pipeline.owner(&key(KEY_Q)), None);
    assert_eq!(button_of(&pipeline, Id::Jump), (ButtonState::Down, true));

    let overlapping = pipeline.register(Id::Jump, button(), &vec![key(SPACE)]);
    assert_eq!(busy_owner(overlapping), Some(Id::Jump));
}

#[test]
fn a_pair_of_keys_does_not_take_the_keys_themselves() {
    let mut pipeline = InputsPipeline::<Id>::new();
    pipeline.register(Id::Move, axis(), &vec![key_pair(KEY_A, KEY_D)]).unwrap();
    assert_eq!(pipeline.owner(&key_pair(KEY_A, KEY_D)), Some(Id::Move));
    assert_eq!(pipeline.owner(&key(KEY_A)), None);
    assert_eq!(pipeline.owner(&key_pair(KEY_D, KEY_A)), None);
    assert!(pipeline.register(Id::Fire, button(), &vec![key(KEY_A)]).is_ok());
}

#[test]
fn a_control_named_twice_in_a_request_is_bound_once() {
    let mut pipeline = InputsPipeline::<Id>::new();
    let result = pipeline.register(Id::Jump, button(), &vec![key(SPACE), key(SPACE)]);
    assert!(result.is_ok());
    match pipeline.read(&Id::Jump) {
        Some(Input::Button(button)) => {
            assert_eq!(button.controls, vec![ButtonControl::Keyboard(SPACE)])
        }
        _ => panic!("no button registered"),
    }
}

#[test]
fn a_button_is_bound_to_the_button_controls_of_the_request_only() {
    let mut pipeline = InputsPipeline::<Id>::new();
    pipeline
        .register(Id::Jump, button(), &vec![key(SPACE), stick(LEFT_X), pad(PAD_A)])
        .unwrap();
    assert_eq!(pipeline.owner(&stick(LEFT_X)), Some(Id::Jump));
    match pipeline.read(&Id::Jump) {
        Some(Input::Button(button)) => assert_eq!(
            button.controls,
            vec![ButtonControl::Keyboard(SPACE), ButtonControl::Gamepad(PAD_A)]
        ),
        _ => panic!("no button registered"),
    }
    pipeline.process_events(&vec![moved(LEFT_X, 12000)]);
    assert_eq!(button_of(&pipeline, Id::Jump), (ButtonState::Up, false));
}

#[test]
fn registered_inputs_start_in_their_default_state() {
    let mut pipeline = InputsPipeline::<Id>::new();
    pipeline.register(Id::Jump, button(), &vec![key(SPACE)]).unwrap();
    pipeline.register(Id::Move, axis(), &vec![key_pair(KEY_A, KEY_D)]).unwrap();
    pipeline.register(Id::Steer, axis(), &vec![stick(LEFT_X)]).unwrap();

    assert_eq!(button_of(&pipeline, Id::Jump), (ButtonState::Up, false));
    assert_eq!(axis_of(&pipeline, Id::Move), 0.0);
    assert_eq!(axis_of(&pipeline, Id::Steer), 0.0);

    pipeline.process_events(&vec![]);
    pipeline.process_events(&vec![]);
    assert_eq!(button_of(&pipeline, Id::Jump), (ButtonState::Up, false));
    assert_eq!(axis_of(&pipeline, Id::Move), 0.0);
    assert_eq!(axis_of(&pipeline, Id::Steer), 0.0);
}

#[test]
fn the_state_handed_in_at_registration_is_put_back_to_default() {
    let mut held = ButtonInputData::new();
    held.value = ButtonState::Down;
    held.changed_this_frame = true;
    let mut pipeline = InputsPipeline::<Id>::new();
    pipeline.register(Id::Jump, Input::Button(held), &vec![key(SPACE)]).unwrap();
    assert_eq!(button_of(&pipeline, Id::Jump), (ButtonState::Up, false));
}

#[test]
fn button_reports_edges() {
    let mut pipeline = InputsPipeline::<Id>::new();
    pipeline.register(Id::Jump, button(), &vec![key(SPACE)]).unwrap();

    pipeline.process_events(&vec![key_down(SPACE)]);
    assert_eq!(button_of(&pipeline, Id::Jump), (ButtonState::Down, true));
    pipeline.process_events(&vec![]);
    assert_eq!(button_of(&pipeline, Id::Jump), (ButtonState::Down, false));
    pipeline.process_events(&vec![key_up(SPACE)]);
    assert_eq!(button_of(&pipeline, Id::Jump), (ButtonState::Up, true));
    pipeline.process_events(&vec![]);
    assert_eq!(button_of(&pipeline, Id::Jump), (ButtonState::Up, false));
}

#[test]
fn a_repeated_press_is_no_edge() {
    let mut pipeline = InputsPipeline::<Id>::new();
    pipeline.register(Id::Jump, button(), &vec![key(SPACE)]).unwrap();
    pipeline.process_events(&vec![key_down(SPACE)]);
    pipeline.process_events(&vec![key_down(SPACE)]);
    assert_eq!(button_of(&pipeline, Id::Jump), (ButtonState::Down, false));
}

#[test]
fn gamepad_button_reports_edges() {
    let mut pipeline = InputsPipeline::<Id>::new();
    pipeline.register(Id::Fire, button(), &vec![pad(PAD_A)]).unwrap();
    pipeline.process_events(&vec![DeviceEvent::ControllerButtonDown { button: PAD_A }]);
    assert_eq!(button_of(&pipeline, Id::Fire), (ButtonState::Down, true));
    pipeline.process_events(&vec![DeviceEvent::ControllerButtonUp { button: PAD_A }]);
    assert_eq!(button_of(&pipeline, Id::Fire), (ButtonState::Up, true));
}

#[test]
fn the_later_event_of_a_control_wins() {
    let mut pipeline = InputsPipeline::<Id>::new();
    pipeline.register(Id::Jump, button(), &vec![key(SPACE)]).unwrap();

    pipeline.process_events(&vec![key_down(SPACE), key_up(SPACE)]);
    assert_eq!(button_of(&pipeline, Id::Jump), (ButtonState::Up, false));
    pipeline.process_events(&vec![key_up(SPACE), key_down(SPACE)]);
    assert_eq!(button_of(&pipeline, Id::Jump), (ButtonState::Down, true));
    pipeline.process_events(&vec![key_down(SPACE), key_up(SPACE), key_down(SPACE)]);
    assert_eq!(button_of(&pipeline, Id::Jump), (ButtonState::Down, false));
}

#[test]
fn the_last_bound_control_with_an_event_wins() {
    let mut pipeline = InputsPipeline::<Id>::new();
    pipeline.register(Id::Jump, button(), &vec![key(SPACE), key(KEY_Q)]).unwrap();

    pipeline.process_events(&vec![key_up(KEY_Q), key_down(SPACE)]);
    assert_eq!(button_of(&pipeline, Id::Jump), (ButtonState::Up, false));
    pipeline.process_events(&vec![key_down(KEY_Q), key_down(SPACE)]);
    assert_eq!(button_of(&pipeline, Id::Jump), (ButtonState::Down, true));
    pipeline.process_events(&vec![key_up(SPACE)]);
    assert_eq!(button_of(&pipeline, Id::Jump), (ButtonState::Up, true));
}

#[test]
fn composed_axis_keeps_its_level() {
    let mut pipeline = InputsPipeline::<Id>::new();
    pipeline.register(Id::Move, axis(), &vec![key_pair(KEY_A, KEY_D)]).unwrap();

    pipeline.process_events(&vec![key_down(KEY_D)]);
    assert_eq!(axis_of(&pipeline, Id::Move), 1.0);
    pipeline.process_events(&vec![]);
    assert_eq!(axis_of(&pipeline, Id::Move), 1.0);
    pipeline.process_events(&vec![]);
    assert_eq!(axis_of(&pipeline, Id::Move), 1.0);
    pipeline.process_events(&vec![key_up(KEY_D)]);
    assert_eq!(axis_of(&pipeline, Id::Move), 0.0);
}

#[test]
fn composed_axis_adds_up_both_keys() {
    let mut pipeline = InputsPipeline::<Id>::new();
    pipeline.register(Id::Move, axis(), &vec![key_pair(KEY_A, KEY_D)]).unwrap();

    pipeline.process_events(&vec![key_down(KEY_A)]);
    assert_eq!(axis_of(&pipeline, Id::Move), -1.0);
    assert_eq!(raw_axis_of(&pipeline, Id::Move), -32767);
    pipeline.process_events(&vec![key_down(KEY_D)]);
    assert_eq!(axis_of(&pipeline, Id::Move), 0.0);
    pipeline.process_events(&vec![key_up(KEY_A)]);
    assert_eq!(axis_of(&pipeline, Id::Move), 1.0);
    assert_eq!(raw_axis_of(&pipeline, Id::Move), 32767);
    pipeline.process_events(&vec![key_up(KEY_D), key_down(KEY_A)]);
    assert_eq!(axis_of(&pipeline, Id::Move), -1.0);
}

#[test]
fn analog_axis_is_normalized_and_kept() {
    let mut pipeline = InputsPipeline::<Id>::new();
    pipeline.register(Id::Steer, axis(), &vec![stick(LEFT_X)]).unwrap();

    pipeline.process_events(&vec![moved(LEFT_X, 32767)]);
    assert_eq!(axis_of(&pipeline, Id::Steer), 1.0);
    pipeline.process_events(&vec![]);
    assert_eq!(axis_of(&pipeline, Id::Steer), 1.0);
    pipeline.process_events(&vec![moved(LEFT_X, 100), moved(LEFT_X, -16384)]);
    assert_eq!(raw_axis_of(&pipeline, Id::Steer), -16384);
    assert_eq!(axis_of(&pipeline, Id::Steer), -16384.0 / 32767.0);
    pipeline.process_events(&vec![moved(LEFT_X, 0)]);
    assert_eq!(axis_of(&pipeline, Id::Steer), 0.0);
}

#[test]
fn analog_axis_never_leaves_the_unit_range() {
    let mut pipeline = InputsPipeline::<Id>::new();
    pipeline.register(Id::Steer, axis(), &vec![stick(LEFT_X)]).unwrap();
    pipeline.process_events(&vec![moved(LEFT_X, i16::MIN)]);
    assert_eq!(raw_axis_of(&pipeline, Id::Steer), -32767);
    assert_eq!(axis_of(&pipeline, Id::Steer), -1.0);
    pipeline.process_events(&vec![moved(LEFT_X, -32767)]);
    assert_eq!(axis_of(&pipeline, Id::Steer), -1.0);
}

#[test]
fn axis_with_keys_and_stick_reads_them_in_binding_order() {
    let mut pipeline = InputsPipeline::<Id>::new();
    pipeline
        .register(Id::Move, axis(), &vec![key_pair(KEY_A, KEY_D), stick(LEFT_X)])
        .unwrap();
    pipeline.process_events(&vec![key_down(KEY_D), moved(LEFT_X, -32767)]);
    assert_eq!(axis_of(&pipeline, Id::Move), -1.0);
    pipeline.process_events(&vec![]);
    assert_eq!(axis_of(&pipeline, Id::Move), 1.0);
}

#[test]
fn unmapped_events_change_nothing() {
    let mut pipeline = InputsPipeline::<Id>::new();
    pipeline.register(Id::Jump, button(), &vec![key(SPACE)]).unwrap();
    pipeline.register(Id::Move, axis(), &vec![key_pair(KEY_A, KEY_D)]).unwrap();
    pipeline.register(Id::Steer, axis(), &vec![stick(LEFT_X)]).unwrap();
    pipeline.process_events(&vec![key_down(SPACE), key_down(KEY_A), moved(LEFT_X, 5000)]);

    pipeline.process_events(&vec![
        key_down(KEY_Q),
        key_up(KEY_F),
        DeviceEvent::ControllerButtonDown { button: PAD_A },
        moved(GamepadAxis(3), -20000),
        DeviceEvent::KeyDown { scancode: None },
        DeviceEvent::KeyUp { scancode: None },
        DeviceEvent::Other,
    ]);
    assert_eq!(button_of(&pipeline, Id::Jump), (ButtonState::Down, false));
    assert_eq!(axis_of(&pipeline, Id::Move), -1.0);
    assert_eq!(raw_axis_of(&pipeline, Id::Steer), 5000);
    assert_eq!(pipeline.owner(&key(KEY_Q)), None);
}

#[test]
fn an_unmapped_event_among_mapped_ones_is_passed_over() {
    let mut with = InputsPipeline::<Id>::new();
    let mut without = InputsPipeline::<Id>::new();
    with.register(Id::Jump, button(), &vec![key(SPACE)]).unwrap();
    without.register(Id::Jump, button(), &vec![key(SPACE)]).unwrap();

    with.process_events(&vec![key_up(SPACE), key_down(KEY_Q), key_down(SPACE)]);
    without.process_events(&vec![key_up(SPACE), key_down(SPACE)]);
    assert_eq!(button_of(&with, Id::Jump), button_of(&without, Id::Jump));
    assert_eq!(button_of(&with, Id::Jump), (ButtonState::Down, true));
}

#[test]
fn inputs_do_not_disturb_each_other() {
    let mut pipeline = InputsPipeline::<Id>::new();
    pipeline.register(Id::Jump, button(), &vec![key(SPACE)]).unwrap();
    pipeline.register(Id::Fire, button(), &vec![key(KEY_F), pad(PAD_A)]).unwrap();
    pipeline.process_events(&vec![key_down(KEY_F)]);
    assert_eq!(button_of(&pipeline, Id::Jump), (ButtonState::Up, false));
    assert_eq!(button_of(&pipeline, Id::Fire), (ButtonState::Down, true));
    pipeline.process_events(&vec![key_down(SPACE)]);
    assert_eq!(button_of(&pipeline, Id::Jump), (ButtonState::Down, true));
    assert_eq!(button_of(&pipeline, Id::Fire), (ButtonState::Down, false));
}
