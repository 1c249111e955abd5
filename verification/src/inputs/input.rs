//! Named inputs: their state, and how one frame changes it.

use super::control::{AxisControl, ButtonControl, Control, GamepadAxis, Scancode};
use super::event::{ButtonState, DeviceEvent, FrameSignals, FrameView};
use vstd::prelude::*;

verus! {

/// The axis value that stands for 1. An axis value `v` is the fraction
/// `v / AXIS_MAX`, so that it lies between -1 and 1.
pub const AXIS_MAX: i16 = 32767;

/// A raw analog reading as an axis value. The one reading below `-AXIS_MAX`
/// is raised to it.
pub open spec fn normalized(raw: i16) -> i16 {
    if raw < -AXIS_MAX {
        (-AXIS_MAX) as i16
    } else {
        raw
    }
}

/// Whether a key is held after a frame, given whether it was held before.
pub open spec fn held(frame: FrameView, key: Scancode, before: bool) -> bool {
    match frame.button(ButtonControl::Keyboard(key)) {
        Some(state) => state == ButtonState::Down,
        None => before,
    }
}

/// An axis control bound to an input. For a pair of keys it remembers which
/// of the two is held, from frame to frame.
#[derive(Clone, Copy, Debug)]
pub struct AxisBinding {
    pub control: AxisControl,
    pub negative_down: bool,
    pub positive_down: bool,
}

impl AxisBinding {
    /// The binding of a control of which no event was seen yet.
    pub open spec fn fresh(control: AxisControl) -> AxisBinding {
        AxisBinding { control, negative_down: false, positive_down: false }
    }

    /// The binding after a frame: each key of a pair is held or not as its
    /// last event of the frame says, and as before where the frame has none.
    pub open spec fn after_frame(self, frame: FrameView) -> AxisBinding {
        match self.control {
            AxisControl::Keyboard(negative, positive) => AxisBinding {
                control: self.control,
                negative_down: held(frame, negative, self.negative_down),
                positive_down: held(frame, positive, self.positive_down),
            },
            AxisControl::Gamepad(_) => self,
        }
    }

    /// The binding is of a pair of keys, and this is one of the two.
    pub open spec fn uses_key(self, button: ButtonControl) -> bool {
        match self.control {
            AxisControl::Keyboard(negative, positive) => button == ButtonControl::Keyboard(negative)
                || button == ButtonControl::Keyboard(positive),
            AxisControl::Gamepad(_) => false,
        }
    }

    /// The value of a pair of keys: 1 for the positive key, -1 for the
    /// negative key, 0 for both and for neither.
    pub open spec fn level(self) -> i16 {
        if self.positive_down == self.negative_down {
            0
        } else if self.positive_down {
            AXIS_MAX
        } else {
            (-AXIS_MAX) as i16
        }
    }
}

/// The state of a button after its controls were read in the order they
/// were bound in: each control with a press or release in the frame sets
/// the state, so that the last such control wins; with no such control
/// the state stays.
pub open spec fn button_outcome(
    before: ButtonState,
    controls: Seq<ButtonControl>,
    frame: FrameView,
) -> ButtonState
    decreases controls.len(),
{
    if controls.len() == 0 {
        before
    } else {
        match frame.button(controls.last()) {
            Some(state) => state,
            None => button_outcome(before, controls.drop_last(), frame),
        }
    }
}

/// The value of an axis after its bindings, already brought up to the frame,
/// were read in the order they were bound in. A pair of keys sets the value
/// to its level; an analog axis sets it to the frame's last reading, and
/// leaves it where the frame has none.
pub open spec fn axis_outcome(before: i16, bindings: Seq<AxisBinding>, frame: FrameView) -> i16
    decreases bindings.len(),
{
    if bindings.len() == 0 {
        before
    } else {
        let last = bindings.last();
        match last.control {
            AxisControl::Keyboard(_, _) => last.level(),
            AxisControl::Gamepad(axis) => match frame.axis(axis) {
                Some(raw) => normalized(raw),
                None => axis_outcome(before, bindings.drop_last(), frame),
            },
        }
    }
}

/// A button input as a value.
pub struct ButtonInputView {
    pub value: ButtonState,
    pub changed_this_frame: bool,
    pub controls: Seq<ButtonControl>,
}

/// An axis input as a value.
pub struct AxisInputView {
    pub value: i16,
    pub bindings: Seq<AxisBinding>,
}

/// An input as a value.
pub enum InputView {
    Button(ButtonInputView),
    Axis(AxisInputView),
}

impl ButtonInputView {
    /// No control is bound twice.
    pub open spec fn wf(self) -> bool {
        self.controls.no_duplicates()
    }

    /// The button after a frame: in the state that its controls leave it
    /// in, and changed exactly if that is not the state it had.
    pub open spec fn after_frame(self, frame: FrameView) -> ButtonInputView {
        let value = button_outcome(self.value, self.controls, frame);
        ButtonInputView { value, changed_this_frame: value != self.value, controls: self.controls }
    }
}

impl AxisInputView {
    /// The value lies between -1 and 1, and no control is bound twice.
    pub open spec fn wf(self) -> bool {
        &&& -AXIS_MAX <= self.value <= AXIS_MAX
        &&& forall|i: int, j: int|
            0 <= i < j < self.bindings.len() ==> (#[trigger] self.bindings[i]).control
                != (#[trigger] self.bindings[j]).control
    }

    /// Some binding is of this control.
    pub open spec fn binds(self, control: AxisControl) -> bool {
        exists|i: int|
            0 <= i < self.bindings.len() && (#[trigger] self.bindings[i]).control == control
    }

    pub open spec fn after_frame(self, frame: FrameView) -> AxisInputView {
        let bindings = self.bindings.map_values(|b: AxisBinding| b.after_frame(frame));
        AxisInputView { value: axis_outcome(self.value, bindings, frame), bindings }
    }
}

impl InputView {
    pub open spec fn wf(self) -> bool {
        match self {
            InputView::Button(button) => button.wf(),
            InputView::Axis(axis) => axis.wf(),
        }
    }

    /// The input is bound to the control. A button is bound to button
    /// controls only, an axis to axis controls only.
    pub open spec fn binds(self, control: Control) -> bool {
        match (self, control) {
            (InputView::Button(button), Control::Button(c)) => button.controls.contains(c),
            (InputView::Axis(axis), Control::Axis(c)) => axis.binds(c),
            _ => false,
        }
    }

    /// The control is of the input's kind.
    pub open spec fn takes(self, control: Control) -> bool {
        match (self, control) {
            (InputView::Button(_), Control::Button(_)) => true,
            (InputView::Axis(_), Control::Axis(_)) => true,
            _ => false,
        }
    }

    /// The input of the same kind in its first state: a button up and
    /// unchanged, an axis at 0, bound to nothing.
    pub open spec fn unbound(self) -> InputView {
        match self {
            InputView::Button(_) => InputView::Button(
                ButtonInputView {
                    value: ButtonState::Up,
                    changed_this_frame: false,
                    controls: Seq::empty(),
                },
            ),
            InputView::Axis(_) => InputView::Axis(
                AxisInputView { value: 0, bindings: Seq::empty() },
            ),
        }
    }

    /// The input reads what a frame says of this button control: it is a
    /// button bound to it, or an axis bound to a pair of keys of which it is
    /// one.
    pub open spec fn heeds_button(self, button: ButtonControl) -> bool {
        match self {
            InputView::Button(b) => b.controls.contains(button),
            InputView::Axis(a) => exists|i: int|
                0 <= i < a.bindings.len() && (#[trigger] a.bindings[i]).uses_key(button),
        }
    }

    /// The input reads what a frame says of this analog axis.
    pub open spec fn heeds_axis(self, axis: GamepadAxis) -> bool {
        match self {
            InputView::Button(_) => false,
            InputView::Axis(a) => a.binds(AxisControl::Gamepad(axis)),
        }
    }

    /// The input reads what a frame says of the control of this event.
    pub open spec fn heeds(self, event: DeviceEvent) -> bool {
        ||| event.button_signal() matches Some((button, _)) && self.heeds_button(button)
        ||| event.axis_sample() matches Some((axis, _)) && self.heeds_axis(axis)
    }

    /// The input is in its first state: a button up and unchanged, an axis
    /// at 0 with no key held.
    pub open spec fn at_rest(self) -> bool {
        match self {
            InputView::Button(b) => b.value == ButtonState::Up && !b.changed_this_frame,
            InputView::Axis(a) => a.value == 0 && forall|i: int|
                0 <= i < a.bindings.len() ==> !(#[trigger] a.bindings[i]).negative_down
                    && !a.bindings[i].positive_down,
        }
    }

    /// The input with one more control bound behind the others. A control
    /// that is bound already, or is not of the input's kind, leaves the
    /// input as it is.
    pub open spec fn with_control(self, control: Control) -> InputView {
        match (self, control) {
            (InputView::Button(button), Control::Button(c)) => if button.controls.contains(c) {
                self
            } else {
                InputView::Button(
                    ButtonInputView {
                        value: button.value,
                        changed_this_frame: button.changed_this_frame,
                        controls: button.controls.push(c),
                    },
                )
            },
            (InputView::Axis(axis), Control::Axis(c)) => if axis.binds(c) {
                self
            } else {
                InputView::Axis(
                    AxisInputView {
                        value: axis.value,
                        bindings: axis.bindings.push(AxisBinding::fresh(c)),
                    },
                )
            },
            _ => self,
        }
    }

    /// The input with the controls bound one after the other.
    pub open spec fn with_controls(self, controls: Seq<Control>) -> InputView
        decreases controls.len(),
    {
        if controls.len() == 0 {
            self
        } else {
            self.with_controls(controls.drop_last()).with_control(controls.last())
        }
    }

    /// The input after a frame.
    pub open spec fn after_frame(self, frame: FrameView) -> InputView {
        match self {
            InputView::Button(button) => InputView::Button(button.after_frame(frame)),
            InputView::Axis(axis) => InputView::Axis(axis.after_frame(frame)),
        }
    }
}

/// A button input: up or down, whether the last frame changed that, and the
/// controls it is bound to, in the order they were bound in.
pub struct ButtonInputData {
    pub value: ButtonState,
    pub changed_this_frame: bool,
    pub controls: Vec<ButtonControl>,
}

/// An axis input: a value between -1 and 1, as a fraction of `AXIS_MAX`.
pub struct AxisInputData {
    value: i16,
    controls: Vec<AxisBinding>,
}

/// A named input.
pub enum Input {
    Button(ButtonInputData),
    Axis(AxisInputData),
}

impl View for ButtonInputData {
    type V = ButtonInputView;

    open spec fn view(&self) -> ButtonInputView {
        ButtonInputView {
            value: self.value,
            changed_this_frame: self.changed_this_frame,
            controls: self.controls@,
        }
    }
}

impl View for AxisInputData {
    type V = AxisInputView;

    closed spec fn view(&self) -> AxisInputView {
        AxisInputView { value: self.value, bindings: self.controls@ }
    }
}

impl View for Input {
    type V = InputView;

    open spec fn view(&self) -> InputView {
        match self {
            Input::Button(button) => InputView::Button(button@),
            Input::Axis(axis) => InputView::Axis(axis@),
        }
    }
}

impl ButtonInputData {
    /// A button that is up, unchanged, and bound to nothing.
    pub fn new() -> (button: Self)
        ensures
            button.value == ButtonState::Up,
            !button.changed_this_frame,
            button.controls@ == Seq::<ButtonControl>::empty(),
    {
        ButtonInputData { value: ButtonState::Up, changed_this_frame: false, controls: Vec::new() }
    }

    /// Brings the button up to a frame.
    pub fn apply(&mut self, frame: &FrameSignals)
        requires
            frame.wf(),
        ensures
            final(self)@ == old(self)@.after_frame(frame@),
    {
        let ghost before = self@;
        let mut value = self.value;
        let mut i: usize = 0;
        while i < self.controls.len()
            invariant
                frame.wf(),
                i <= self.controls.len(),
                before == self@,
                value == button_outcome(before.value, before.controls.take(i as int), frame@),
            decreases self.controls.len() - i,
        {
            proof {
                assert(before.controls.take(i + 1).drop_last() == before.controls.take(i as int));
            }
            match frame.button(&self.controls[i]) {
                Some(state) => {
                    value = state;
                },
                None => {},
            }
            i += 1;
        }
        assert(before.controls.take(i as int) == before.controls);
        self.changed_this_frame = value != self.value;
        self.value = value;
    }
}

impl AxisBinding {
    /// The binding of a control of which no event was seen yet.
    pub fn new(control: AxisControl) -> (binding: Self)
        ensures
            binding == AxisBinding::fresh(control),
    {
        AxisBinding { control, negative_down: false, positive_down: false }
    }

    /// The value of a pair of keys, from which of the two is held.
    pub fn value(&self) -> (value: i16)
        ensures
            value == self.level(),
    {
        let mut value: i16 = 0;
        if self.negative_down {
            value = value - AXIS_MAX;
        }
        if self.positive_down {
            value = value + AXIS_MAX;
        }
        value
    }
}

/// A raw analog reading as an axis value.
pub fn normalize(raw: i16) -> (value: i16)
    ensures
        value == normalized(raw),
        -AXIS_MAX <= value <= AXIS_MAX,
{
    if raw < -AXIS_MAX {
        -AXIS_MAX
    } else {
        raw
    }
}

/// Whether a key is held after a frame, given whether it was held before.
fn key_held(frame: &FrameSignals, key: Scancode, before: bool) -> (down: bool)
    requires
        frame.wf(),
    ensures
        down == held(frame@, key, before),
{
    match frame.button(&ButtonControl::Keyboard(key)) {
        Some(state) => state == ButtonState::Down,
        None => before,
    }
}

impl AxisInputData {
    /// An axis at 0 that is bound to nothing.
    pub fn new() -> (axis: Self)
        ensures
            axis@.value == 0,
            axis@.bindings == Seq::<AxisBinding>::empty(),
    {
        AxisInputData { value: 0, controls: Vec::new() }
    }

    /// The value of the axis, as a fraction of `AXIS_MAX`.
    pub fn value(&self) -> (value: i16)
        ensures
            value == self@.value,
    {
        self.value
    }

    /// Brings the axis up to a frame.
    pub fn apply(&mut self, frame: &FrameSignals)
        requires
            frame.wf(),
        ensures
            final(self)@ == old(self)@.after_frame(frame@),
    {
        let ghost before = self@;
        let ghost after = before.bindings.map_values(|b: AxisBinding| b.after_frame(frame@));
        let mut i: usize = 0;
        while i < self.controls.len()
            invariant
                frame.wf(),
                i <= self.controls.len(),
                self.controls@.len() == before.bindings.len(),
                after == before.bindings.map_values(|b: AxisBinding| b.after_frame(frame@)),
                forall|j: int| 0 <= j < i ==> self.controls@[j] == after[j],
                forall|j: int| i <= j < self.controls@.len() ==> self.controls@[j] == before.bindings[j],
                self.value == axis_outcome(before.value, after.take(i as int), frame@),
            decreases self.controls.len() - i,
        {
            proof {
                assert(after.take(i + 1).drop_last() == after.take(i as int));
                assert(after.take(i + 1).last() == before.bindings[i as int].after_frame(frame@));
            }
            let binding = self.controls[i];
            match binding.control {
                AxisControl::Keyboard(negative, positive) => {
                    let next = AxisBinding {
                        control: binding.control,
                        negative_down: key_held(frame, negative, binding.negative_down),
                        positive_down: key_held(frame, positive, binding.positive_down),
                    };
                    self.value = next.value();
                    self.controls[i] = next;
                },
                AxisControl::Gamepad(axis) => {
                    match frame.axis(&axis) {
                        Some(raw) => {
                            self.value = normalize(raw);
                        },
                        None => {},
                    }
                },
            }
            i += 1;
        }
        assert(after.take(i as int) == after);
        assert(self.controls@ =~= after);
    }
}

impl Input {
    /// Brings the input up to a frame.
    pub fn apply(&mut self, frame: &FrameSignals)
        requires
            frame.wf(),
        ensures
            final(self)@ == old(self)@.after_frame(frame@),
    {
        match self {
            Input::Button(button) => button.apply(frame),
            Input::Axis(axis) => axis.apply(frame),
        }
    }
}

impl ButtonInputData {
    /// Binds one more control behind the others, unless it is bound already.
    pub(crate) fn bind(&mut self, control: ButtonControl)
        ensures
            InputView::Button(final(self)@) == InputView::Button(old(self)@).with_control(
                Control::Button(control),
            ),
    {
        let mut i: usize = 0;
        while i < self.controls.len()
            invariant
                i <= self.controls.len(),
                *self == *old(self),
                forall|j: int| 0 <= j < i ==> self.controls@[j] != control,
            decreases self.controls.len() - i,
        {
            if self.controls[i] == control {
                return ;
            }
            i += 1;
        }
        self.controls.push(control);
    }
}

impl AxisInputData {
    /// Binds one more control behind the others, unless it is bound already.
    pub(crate) fn bind(&mut self, control: AxisControl)
        ensures
            InputView::Axis(final(self)@) == InputView::Axis(old(self)@).with_control(
                Control::Axis(control),
            ),
    {
        let mut i: usize = 0;
        while i < self.controls.len()
            invariant
                i <= self.controls.len(),
                *self == *old(self),
                forall|j: int| 0 <= j < i ==> (#[trigger] self.controls@[j]).control != control,
            decreases self.controls.len() - i,
        {
            if self.controls[i].control == control {
                return ;
            }
            i += 1;
        }
        self.controls.push(AxisBinding::new(control));
    }
}

impl Input {
    /// Puts the input into its first state and unbinds it.
    pub(crate) fn reset(&mut self)
        ensures
            final(self)@ == old(self)@.unbound(),
    {
        match self {
            Input::Button(button) => {
                *button = ButtonInputData::new();
            },
            Input::Axis(axis) => {
                *axis = AxisInputData::new();
            },
        }
    }

    /// Binds one more control behind the others. A control that is bound
    /// already, or is not of the input's kind, changes nothing.
    pub(crate) fn bind(&mut self, control: &Control)
        ensures
            final(self)@ == old(self)@.with_control(*control),
    {
        match self {
            Input::Button(button) => {
                match control {
                    Control::Button(c) => button.bind(*c),
                    Control::Axis(_) => {},
                }
            },
            Input::Axis(axis) => {
                match control {
                    Control::Button(_) => {},
                    Control::Axis(c) => axis.bind(*c),
                }
            },
        }
    }
}

/// Binding a control keeps an input well formed, and binds that control, if
/// it is of the input's kind, and no other.
pub proof fn lemma_with_control(input: InputView, control: Control)
    requires
        input.wf(),
    ensures
        input.with_control(control).wf(),
        input.with_control(control).unbound() == input.unbound(),
        forall|c: Control| #[trigger]
            input.with_control(control).binds(c) <==> input.binds(c) || (c == control
                && input.takes(c)),
{
    let bound = input.with_control(control);
    match (input, control) {
        (InputView::Button(button), Control::Button(k)) => {
            if !button.controls.contains(k) {
                let longer = button.controls.push(k);
                assert forall|c: Control| #[trigger] bound.binds(c) <==> input.binds(c) || (c
                    == control && input.takes(c)) by {
                    if let Control::Button(b) = c {
                        if longer.contains(b) {
                            let i = choose|i: int| 0 <= i < longer.len() && longer[i] == b;
                            if i < button.controls.len() {
                                assert(button.controls[i] == b);
                            }
                        }
                        if button.controls.contains(b) {
                            let i = choose|i: int|
                                0 <= i < button.controls.len() && button.controls[i] == b;
                            assert(longer[i] == b);
                        }
                        if b == k {
                            assert(longer[button.controls.len() as int] == b);
                        }
                    }
                }
            }
        },
        (InputView::Axis(axis), Control::Axis(k)) => {
            if !axis.binds(k) {
                let longer = axis.bindings.push(AxisBinding::fresh(k));
                let after = AxisInputView { value: axis.value, bindings: longer };
                assert forall|c: Control| #[trigger] bound.binds(c) <==> input.binds(c) || (c
                    == control && input.takes(c)) by {
                    if let Control::Axis(a) = c {
                        if after.binds(a) {
                            let i = choose|i: int|
                                0 <= i < longer.len() && (#[trigger] longer[i]).control == a;
                            if i < axis.bindings.len() {
                                assert(axis.bindings[i].control == a);
                            }
                        }
                        if axis.binds(a) {
                            let i = choose|i: int|
                                0 <= i < axis.bindings.len() && (#[trigger] axis.bindings[i]).control
                                    == a;
                            assert(longer[i].control == a);
                        }
                        if a == k {
                            assert(longer[axis.bindings.len() as int].control == a);
                        }
                    }
                }
            }
        },
        _ => {},
    }
}

/// Binding controls one after the other keeps an input well formed, and
/// binds those of them that are of the input's kind, and no others.
pub proof fn lemma_with_controls(input: InputView, controls: Seq<Control>)
    requires
        input.wf(),
    ensures
        input.with_controls(controls).wf(),
        input.with_controls(controls).unbound() == input.unbound(),
        forall|c: Control| #[trigger]
            input.with_controls(controls).binds(c) <==> input.binds(c) || (controls.contains(c)
                && input.takes(c)),
    decreases controls.len(),
{
    if controls.len() > 0 {
        let earlier = input.with_controls(controls.drop_last());
        lemma_with_controls(input, controls.drop_last());
        lemma_with_control(earlier, controls.last());
        assert forall|c: Control| #[trigger]
            input.with_controls(controls).binds(c) <==> input.binds(c) || (controls.contains(c)
                && input.takes(c)) by {
            assert(earlier.takes(c) == input.takes(c));
            if controls.drop_last().contains(c) {
                let i = choose|i: int|
                    0 <= i < controls.drop_last().len() && controls.drop_last()[i] == c;
                assert(controls[i] == c);
            }
            if controls.contains(c) {
                let i = choose|i: int| 0 <= i < controls.len() && controls[i] == c;
                if i < controls.len() - 1 {
                    assert(controls.drop_last()[i] == c);
                }
            }
        }
    }
}

/// The value of an axis stays between -1 and 1.
pub proof fn lemma_axis_outcome_bounded(before: i16, bindings: Seq<AxisBinding>, frame: FrameView)
    requires
        -AXIS_MAX <= before <= AXIS_MAX,
    ensures
        -AXIS_MAX <= axis_outcome(before, bindings, frame) <= AXIS_MAX,
    decreases bindings.len(),
{
    if bindings.len() > 0 {
        lemma_axis_outcome_bounded(before, bindings.drop_last(), frame);
    }
}

/// A frame keeps an input well formed, of its kind, and bound to the
/// same controls.
pub proof fn lemma_after_frame(input: InputView, frame: FrameView)
    requires
        input.wf(),
    ensures
        input.after_frame(frame).wf(),
        input.after_frame(frame).unbound() == input.unbound(),
        forall|c: Control| #[trigger] input.after_frame(frame).binds(c) <==> input.binds(c),
{
    match input {
        InputView::Button(_) => {},
        InputView::Axis(axis) => {
            let after = axis.after_frame(frame);
            lemma_axis_outcome_bounded(axis.value, after.bindings, frame);
            assert forall|i: int| 0 <= i < axis.bindings.len() implies (#[trigger] after.bindings[i]).control
                == axis.bindings[i].control by {}
            assert forall|c: Control| #[trigger]
                input.after_frame(frame).binds(c) <==> input.binds(c) by {
                if let Control::Axis(a) = c {
                    if after.binds(a) {
                        let i = choose|i: int|
                            0 <= i < after.bindings.len() && (#[trigger] after.bindings[i]).control
                                == a;
                        assert(axis.bindings[i].control == a);
                    }
                    if axis.binds(a) {
                        let i = choose|i: int|
                            0 <= i < axis.bindings.len() && (#[trigger] axis.bindings[i]).control
                                == a;
                        assert(after.bindings[i].control == a);
                    }
                }
            }
        },
    }
}

} // verus!
