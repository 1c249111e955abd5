//! Device events, and what a frame's worth of them says about each control.

use super::assoc::{as_map, distinct_keys, has_key, lemma_absent, lemma_entry, lemma_push, lemma_update};
use super::control::{AxisControl, ButtonControl, Control, GamepadAxis, GamepadButton, Scancode};
use vstd::prelude::*;

verus! {

/// Whether a button is held.
#[derive(Clone, Copy, PartialEq, Eq, Structural, Debug)]
pub enum ButtonState {
    Down,
    Up,
}

/// One raw event of the device layer, reduced to what the inputs read of it.
#[derive(Clone, Copy, PartialEq, Eq, Debug)]
pub enum DeviceEvent {
    /// A key went down. The device layer may fail to say which.
    KeyDown { scancode: Option<Scancode> },
    /// A key came up. The device layer may fail to say which.
    KeyUp { scancode: Option<Scancode> },
    ControllerButtonDown { button: GamepadButton },
    ControllerButtonUp { button: GamepadButton },
    /// An analog axis moved to `value`, anywhere in the range of `i16`.
    ControllerAxisMotion { axis: GamepadAxis, value: i16 },
    /// Any event that no control answers to.
    Other,
}

impl DeviceEvent {
    /// The button control that the event is a press or release of, with the
    /// state it leaves that control in.
    pub open spec fn button_signal(self) -> Option<(ButtonControl, ButtonState)> {
        match self {
            DeviceEvent::KeyDown { scancode: Some(key) } => Some(
                (ButtonControl::Keyboard(key), ButtonState::Down),
            ),
            DeviceEvent::KeyUp { scancode: Some(key) } => Some(
                (ButtonControl::Keyboard(key), ButtonState::Up),
            ),
            DeviceEvent::ControllerButtonDown { button } => Some(
                (ButtonControl::Gamepad(button), ButtonState::Down),
            ),
            DeviceEvent::ControllerButtonUp { button } => Some(
                (ButtonControl::Gamepad(button), ButtonState::Up),
            ),
            _ => None,
        }
    }

    /// The analog axis that the event is a sample of, with the raw reading.
    pub open spec fn axis_sample(self) -> Option<(GamepadAxis, i16)> {
        match self {
            DeviceEvent::ControllerAxisMotion { axis, value } => Some((axis, value)),
            _ => None,
        }
    }

    /// The control that the event belongs to. An event without one is dropped.
    pub open spec fn control(self) -> Option<Control> {
        match self.button_signal() {
            Some((button, _)) => Some(Control::Button(button)),
            None => match self.axis_sample() {
                Some((axis, _)) => Some(Control::Axis(AxisControl::Gamepad(axis))),
                None => None,
            },
        }
    }
}

/// What the controls reported during one frame: of each control its last
/// report, and nothing of a control that reported nothing.
pub struct FrameView {
    pub buttons: Map<ButtonControl, ButtonState>,
    pub axes: Map<GamepadAxis, i16>,
}

impl FrameView {
    /// The frame in which nothing happened.
    pub open spec fn silent() -> FrameView {
        FrameView { buttons: Map::empty(), axes: Map::empty() }
    }

    /// The frame with one more event at its end. The event replaces what its
    /// control reported before.
    pub open spec fn record(self, event: DeviceEvent) -> FrameView {
        FrameView {
            buttons: match event.button_signal() {
                Some((button, state)) => self.buttons.insert(button, state),
                None => self.buttons,
            },
            axes: match event.axis_sample() {
                Some((axis, raw)) => self.axes.insert(axis, raw),
                None => self.axes,
            },
        }
    }

    /// The state that the last press or release of `button` left it in.
    pub open spec fn button(self, button: ButtonControl) -> Option<ButtonState> {
        self.buttons.get(button)
    }

    /// The last raw reading of `axis`.
    pub open spec fn axis(self, axis: GamepadAxis) -> Option<i16> {
        self.axes.get(axis)
    }
}

/// The events of one frame in the order they came, sorted by control: the
/// later event of a control wins.
pub open spec fn signals_of(events: Seq<DeviceEvent>) -> FrameView
    decreases events.len(),
{
    if events.len() == 0 {
        FrameView::silent()
    } else {
        signals_of(events.drop_last()).record(events.last())
    }
}

/// The table that a frame's events are sorted into before the inputs read it.
pub struct FrameSignals {
    buttons: Vec<(ButtonControl, ButtonState)>,
    axes: Vec<(GamepadAxis, i16)>,
}

impl View for FrameSignals {
    type V = FrameView;

    closed spec fn view(&self) -> FrameView {
        FrameView { buttons: as_map(self.buttons@), axes: as_map(self.axes@) }
    }
}

impl FrameSignals {
    /// Each control has one row at most.
    pub closed spec fn wf(&self) -> bool {
        distinct_keys(self.buttons@) && distinct_keys(self.axes@)
    }

    /// The table of a frame without events.
    pub fn new() -> (table: Self)
        ensures
            table.wf(),
            table@ == FrameView::silent(),
    {
        let table = FrameSignals { buttons: Vec::new(), axes: Vec::new() };
        assert(table@.buttons =~= Map::empty());
        assert(table@.axes =~= Map::empty());
        table
    }

    /// Sorts a frame's events by control.
    pub fn collect(events: &Vec<DeviceEvent>) -> (table: Self)
        ensures
            table.wf(),
            table@ == signals_of(events@),
    {
        let mut table = FrameSignals::new();
        let mut i: usize = 0;
        while i < events.len()
            invariant
                i <= events.len(),
                table.wf(),
                table@ == signals_of(events@.take(i as int)),
            decreases events.len() - i,
        {
            proof {
                assert(events@.take(i + 1).drop_last() == events@.take(i as int));
            }
            table.record(&events[i]);
            i += 1;
        }
        assert(events@.take(i as int) == events@);
        table
    }

    /// Enters one more event. An event that belongs to no control changes nothing.
    pub fn record(&mut self, event: &DeviceEvent)
        requires
            old(self).wf(),
        ensures
            final(self).wf(),
            final(self)@ == old(self)@.record(*event),
    {
        match event {
            DeviceEvent::KeyDown { scancode: Some(key) } => {
                self.set_button(ButtonControl::Keyboard(*key), ButtonState::Down);
            },
            DeviceEvent::KeyUp { scancode: Some(key) } => {
                self.set_button(ButtonControl::Keyboard(*key), ButtonState::Up);
            },
            DeviceEvent::ControllerButtonDown { button } => {
                self.set_button(ButtonControl::Gamepad(*button), ButtonState::Down);
            },
            DeviceEvent::ControllerButtonUp { button } => {
                self.set_button(ButtonControl::Gamepad(*button), ButtonState::Up);
            },
            DeviceEvent::ControllerAxisMotion { axis, value } => {
                self.set_axis(*axis, *value);
            },
            _ => {},
        }
    }

    /// The state that the frame's last press or release of `button` left it
    /// in; `None` where the frame holds neither.
    pub fn button(&self, button: &ButtonControl) -> (state: Option<ButtonState>)
        requires
            self.wf(),
        ensures
            state == self@.button(*button),
    {
        match self.button_row(button) {
            Some(i) => Some(self.buttons[i].1),
            None => None,
        }
    }

    /// The frame's last raw reading of `axis`; `None` where it did not move.
    pub fn axis(&self, axis: &GamepadAxis) -> (raw: Option<i16>)
        requires
            self.wf(),
        ensures
            raw == self@.axis(*axis),
    {
        match self.axis_row(axis) {
            Some(i) => Some(self.axes[i].1),
            None => None,
        }
    }

    fn button_row(&self, button: &ButtonControl) -> (row: Option<usize>)
        requires
            self.wf(),
        ensures
            match row {
                Some(i) => i < self.buttons.len() && self.buttons[i as int].0 == *button
                    && self@.buttons.contains_key(*button) && self@.buttons[*button]
                    == self.buttons[i as int].1,
                None => !has_key(self.buttons@, *button) && !self@.buttons.contains_key(*button),
            },
    {
        let mut i: usize = 0;
        while i < self.buttons.len()
            invariant
                self.wf(),
                i <= self.buttons.len(),
                forall|j: int| 0 <= j < i ==> (#[trigger] self.buttons@[j]).0 != *button,
            decreases self.buttons.len() - i,
        {
            if self.buttons[i].0 == *button {
                proof {
                    lemma_entry(self.buttons@, i as int);
                }
                return Some(i);
            }
            i += 1;
        }
        proof {
            lemma_absent(self.buttons@, *button);
        }
        None
    }

    fn axis_row(&self, axis: &GamepadAxis) -> (row: Option<usize>)
        requires
            self.wf(),
        ensures
            match row {
                Some(i) => i < self.axes.len() && self.axes[i as int].0 == *axis
                    && self@.axes.contains_key(*axis) && self@.axes[*axis] == self.axes[i as int].1,
                None => !has_key(self.axes@, *axis) && !self@.axes.contains_key(*axis),
            },
    {
        let mut i: usize = 0;
        while i < self.axes.len()
            invariant
                self.wf(),
                i <= self.axes.len(),
                forall|j: int| 0 <= j < i ==> (#[trigger] self.axes@[j]).0 != *axis,
            decreases self.axes.len() - i,
        {
            if self.axes[i].0 == *axis {
                proof {
                    lemma_entry(self.axes@, i as int);
                }
                return Some(i);
            }
            i += 1;
        }
        proof {
            lemma_absent(self.axes@, *axis);
        }
        None
    }

    fn set_button(&mut self, button: ButtonControl, state: ButtonState)
        requires
            old(self).wf(),
        ensures
            final(self).wf(),
            final(self)@.buttons == old(self)@.buttons.insert(button, state),
            final(self)@.axes == old(self)@.axes,
    {
        match self.button_row(&button) {
            Some(i) => {
                proof {
                    lemma_update(self.buttons@, i as int, state);
                }
                self.buttons[i] = (button, state);
            },
            None => {
                proof {
                    lemma_push(self.buttons@, button, state);
                }
                self.buttons.push((button, state));
            },
        }
    }

    fn set_axis(&mut self, axis: GamepadAxis, raw: i16)
        requires
            old(self).wf(),
        ensures
            final(self).wf(),
            final(self)@.axes == old(self)@.axes.insert(axis, raw),
            final(self)@.buttons == old(self)@.buttons,
    {
        match self.axis_row(&axis) {
            Some(i) => {
                proof {
                    lemma_update(self.axes@, i as int, raw);
                }
                self.axes[i] = (axis, raw);
            },
            None => {
                proof {
                    lemma_push(self.axes@, axis, raw);
                }
                self.axes.push((axis, raw));
            },
        }
    }
}

} // verus!
