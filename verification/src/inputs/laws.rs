//! What holds of every frame and every input, whatever the events are.

use super::control::{AxisControl, ButtonControl, Control, GamepadAxis};
use super::event::{signals_of, ButtonState, DeviceEvent, FrameView};
use super::input::{
    axis_outcome, button_outcome, normalized, AxisBinding, AxisInputView, ButtonInputView,
    InputView,
};
use super::pipeline::{made_of, PipelineView};
use vstd::prelude::*;

verus! {

/// Last event wins, for buttons: where the events of a frame hold a press
/// or release of a button control, and no later one of the same control,
/// the frame says of that control what this event says.
pub proof fn lemma_last_button_event_wins(
    events: Seq<DeviceEvent>,
    i: int,
    button: ButtonControl,
    state: ButtonState,
)
    requires
        0 <= i < events.len(),
        events[i].button_signal() == Some((button, state)),
        forall|j: int|
            i < j < events.len() ==> !((#[trigger] events[j]).button_signal() matches Some((b, _))
                && b == button),
    ensures
        signals_of(events).button(button) == Some(state),
    decreases events.len(),
{
    if i < events.len() - 1 {
        let earlier = events.drop_last();
        assert(earlier[i] == events[i]);
        assert forall|j: int| i < j < earlier.len() implies !((#[trigger] earlier[j]).button_signal() matches Some(
            (b, _),
        ) && b == button) by {
            assert(earlier[j] == events[j]);
        }
        lemma_last_button_event_wins(earlier, i, button, state);
        assert(!(events[events.len() - 1].button_signal() matches Some((b, _)) && b == button));
    }
}

/// Last event wins, for analog axes: where the events of a frame hold a
/// sample of an axis, and no later one of the same axis, the frame's
/// reading of that axis is this sample.
pub proof fn lemma_last_axis_event_wins(
    events: Seq<DeviceEvent>,
    i: int,
    axis: GamepadAxis,
    raw: i16,
)
    requires
        0 <= i < events.len(),
        events[i].axis_sample() == Some((axis, raw)),
        forall|j: int|
            i < j < events.len() ==> !((#[trigger] events[j]).axis_sample() matches Some((a, _))
                && a == axis),
    ensures
        signals_of(events).axis(axis) == Some(raw),
    decreases events.len(),
{
    if i < events.len() - 1 {
        let earlier = events.drop_last();
        assert(earlier[i] == events[i]);
        assert forall|j: int| i < j < earlier.len() implies !((#[trigger] earlier[j]).axis_sample() matches Some(
            (a, _),
        ) && a == axis) by {
            assert(earlier[j] == events[j]);
        }
        lemma_last_axis_event_wins(earlier, i, axis, raw);
        assert(!(events[events.len() - 1].axis_sample() matches Some((a, _)) && a == axis));
    }
}

/// A frame says nothing of a button control that none of its events is a
/// press or release of, and nothing of an analog axis that none of its
/// events is a sample of.
pub proof fn lemma_silent_controls(events: Seq<DeviceEvent>)
    ensures
        forall|button: ButtonControl|
            (forall|j: int|
                0 <= j < events.len() ==> !((#[trigger] events[j]).button_signal() matches Some(
                    (b, _),
                ) && b == button)) ==> #[trigger] signals_of(events).button(button) is None,
        forall|axis: GamepadAxis|
            (forall|j: int|
                0 <= j < events.len() ==> !((#[trigger] events[j]).axis_sample() matches Some(
                    (a, _),
                ) && a == axis)) ==> #[trigger] signals_of(events).axis(axis) is None,
    decreases events.len(),
{
    if events.len() > 0 {
        let earlier = events.drop_last();
        lemma_silent_controls(earlier);
        assert forall|button: ButtonControl|
            (forall|j: int|
                0 <= j < events.len() ==> !((#[trigger] events[j]).button_signal() matches Some(
                    (b, _),
                ) && b == button)) implies #[trigger] signals_of(events).button(button) is None by {
            assert forall|j: int| 0 <= j < earlier.len() implies !((#[trigger] earlier[j]).button_signal() matches Some(
                (b, _),
            ) && b == button) by {
                assert(earlier[j] == events[j]);
            }
            assert(signals_of(earlier).button(button) is None);
            assert(!(events[events.len() - 1].button_signal() matches Some((b, _)) && b == button));
        }
        assert forall|axis: GamepadAxis|
            (forall|j: int|
                0 <= j < events.len() ==> !((#[trigger] events[j]).axis_sample() matches Some(
                    (a, _),
                ) && a == axis)) implies #[trigger] signals_of(events).axis(axis) is None by {
            assert forall|j: int| 0 <= j < earlier.len() implies !((#[trigger] earlier[j]).axis_sample() matches Some(
                (a, _),
            ) && a == axis) by {
                assert(earlier[j] == events[j]);
            }
            assert(signals_of(earlier).axis(axis) is None);
            assert(!(events[events.len() - 1].axis_sample() matches Some((a, _)) && a == axis));
        }
    }
}

/// One more event, anywhere among the events of a frame, changes what the
/// frame says of the control of that event only.
pub proof fn lemma_one_more_event(events: Seq<DeviceEvent>, at: int, event: DeviceEvent)
    requires
        0 <= at <= events.len(),
    ensures
        forall|button: ButtonControl|
            !(event.button_signal() matches Some((b, _)) && b == button) ==> #[trigger] signals_of(
                events.insert(at, event),
            ).button(button) == signals_of(events).button(button),
        forall|axis: GamepadAxis|
            !(event.axis_sample() matches Some((a, _)) && a == axis) ==> #[trigger] signals_of(
                events.insert(at, event),
            ).axis(axis) == signals_of(events).axis(axis),
    decreases events.len(),
{
    let longer = events.insert(at, event);
    if at == events.len() {
        assert(longer.drop_last() == events);
        assert(longer.last() == event);
        assert(signals_of(longer) == signals_of(events).record(event));
    } else {
        let earlier = events.drop_last();
        assert(longer.drop_last() == earlier.insert(at, event));
        assert(longer.last() == events.last());
        lemma_one_more_event(earlier, at, event);
        assert(signals_of(longer) == signals_of(earlier.insert(at, event)).record(events.last()));
        assert(signals_of(events) == signals_of(earlier).record(events.last()));
        assert forall|button: ButtonControl|
            !(event.button_signal() matches Some((b, _)) && b == button) implies #[trigger] signals_of(
            longer,
        ).button(button) == signals_of(events).button(button) by {
            assert(signals_of(earlier.insert(at, event)).button(button) == signals_of(
                earlier,
            ).button(button));
        }
        assert forall|axis: GamepadAxis|
            !(event.axis_sample() matches Some((a, _)) && a == axis) implies #[trigger] signals_of(
            longer,
        ).axis(axis) == signals_of(events).axis(axis) by {
            assert(signals_of(earlier.insert(at, event)).axis(axis) == signals_of(earlier).axis(
                axis,
            ));
        }
    }
}

proof fn lemma_button_outcome_alike(
    before: ButtonState,
    controls: Seq<ButtonControl>,
    one: FrameView,
    other: FrameView,
)
    requires
        forall|i: int|
            0 <= i < controls.len() ==> one.button(#[trigger] controls[i]) == other.button(
                controls[i],
            ),
    ensures
        button_outcome(before, controls, one) == button_outcome(before, controls, other),
    decreases controls.len(),
{
    if controls.len() > 0 {
        let earlier = controls.drop_last();
        assert forall|i: int| 0 <= i < earlier.len() implies one.button(#[trigger] earlier[i])
            == other.button(earlier[i]) by {
            assert(earlier[i] == controls[i]);
        }
        lemma_button_outcome_alike(before, earlier, one, other);
        assert(one.button(controls[controls.len() - 1]) == other.button(controls.last()));
    }
}

proof fn lemma_axis_outcome_alike(
    before: i16,
    bindings: Seq<AxisBinding>,
    one: FrameView,
    other: FrameView,
)
    requires
        forall|i: int|
            0 <= i < bindings.len() ==> ((#[trigger] bindings[i]).control matches AxisControl::Gamepad(
                axis,
            ) ==> one.axis(axis) == other.axis(axis)),
    ensures
        axis_outcome(before, bindings, one) == axis_outcome(before, bindings, other),
    decreases bindings.len(),
{
    if bindings.len() > 0 {
        let earlier = bindings.drop_last();
        assert forall|i: int| 0 <= i < earlier.len() implies ((#[trigger] earlier[i]).control matches AxisControl::Gamepad(
            axis,
        ) ==> one.axis(axis) == other.axis(axis)) by {
            assert(earlier[i] == bindings[i]);
        }
        lemma_axis_outcome_alike(before, earlier, one, other);
        let last = bindings[bindings.len() - 1];
        assert(last.control matches AxisControl::Gamepad(axis) ==> one.axis(axis) == other.axis(
            axis,
        ));
    }
}

/// Two frames that say the same of every control that an input reads leave
/// the input in the same state.
pub proof fn lemma_frames_alike(input: InputView, one: FrameView, other: FrameView)
    requires
        forall|button: ButtonControl| #[trigger]
            input.heeds_button(button) ==> one.button(button) == other.button(button),
        forall|axis: GamepadAxis| #[trigger]
            input.heeds_axis(axis) ==> one.axis(axis) == other.axis(axis),
    ensures
        input.after_frame(one) == input.after_frame(other),
{
    match input {
        InputView::Button(button) => {
            assert forall|i: int| 0 <= i < button.controls.len() implies one.button(
                #[trigger] button.controls[i],
            ) == other.button(button.controls[i]) by {
                assert(input.heeds_button(button.controls[i]));
            }
            lemma_button_outcome_alike(button.value, button.controls, one, other);
        },
        InputView::Axis(axis) => {
            let first = axis.bindings.map_values(|b: AxisBinding| b.after_frame(one));
            let second = axis.bindings.map_values(|b: AxisBinding| b.after_frame(other));
            assert forall|i: int| 0 <= i < axis.bindings.len() implies first[i] == second[i] by {
                let binding = axis.bindings[i];
                match binding.control {
                    AxisControl::Keyboard(negative, positive) => {
                        assert(binding.uses_key(ButtonControl::Keyboard(negative)));
                        assert(binding.uses_key(ButtonControl::Keyboard(positive)));
                        assert(input.heeds_button(ButtonControl::Keyboard(negative)));
                        assert(input.heeds_button(ButtonControl::Keyboard(positive)));
                    },
                    AxisControl::Gamepad(_) => {},
                }
            }
            assert(first =~= second);
            assert forall|i: int| 0 <= i < first.len() implies ((#[trigger] first[i]).control matches AxisControl::Gamepad(
                a,
            ) ==> one.axis(a) == other.axis(a)) by {
                if let AxisControl::Gamepad(a) = first[i].control {
                    assert(axis.bindings[i].control == AxisControl::Gamepad(a));
                    assert(input.heeds_axis(a));
                }
            }
            lemma_axis_outcome_alike(axis.value, first, one, other);
        },
    }
}

/// Unmapped events, input by input: an event of a control that the input
/// does not read, put anywhere among the events of a frame, changes
/// nothing of the input's state after that frame.
pub proof fn lemma_unheeded_event(
    input: InputView,
    events: Seq<DeviceEvent>,
    at: int,
    event: DeviceEvent,
)
    requires
        0 <= at <= events.len(),
        !input.heeds(event),
    ensures
        input.after_frame(signals_of(events.insert(at, event))) == input.after_frame(
            signals_of(events),
        ),
{
    lemma_one_more_event(events, at, event);
    lemma_frames_alike(input, signals_of(events.insert(at, event)), signals_of(events));
}

/// No input reads an event of a control that is not taken.
pub proof fn lemma_unmapped_is_unheeded<T>(pipeline: PipelineView<T>, event: DeviceEvent, id: T)
    requires
        pipeline.consistent(),
        !pipeline.mapped(event),
        pipeline.inputs.contains_key(id),
    ensures
        !pipeline.inputs[id].heeds(event),
{
    let input = pipeline.inputs[id];
    if input.heeds(event) {
        match (input, event.button_signal(), event.axis_sample()) {
            (InputView::Button(_), Some((b, _)), _) => {
                assert(input.binds(Control::Button(b)));
                assert(pipeline.registry.contains_key(Control::Button(b)));
            },
            (InputView::Axis(axis), Some((b, _)), _) => {
                let i = choose|i: int|
                    0 <= i < axis.bindings.len() && (#[trigger] axis.bindings[i]).uses_key(b);
                let pair = Control::Axis(axis.bindings[i].control);
                assert(input.binds(pair));
                assert(pipeline.registry.contains_key(pair));
                assert(made_of(pair, Control::Button(b)));
            },
            (InputView::Axis(_), None, Some((a, _))) => {
                assert(input.binds(Control::Axis(AxisControl::Gamepad(a))));
                assert(pipeline.registry.contains_key(Control::Axis(AxisControl::Gamepad(a))));
            },
            _ => {},
        }
        assert(false);
    }
}

/// Unmapped events: an event of a control that is not taken, put anywhere
/// among the events of a frame, changes nothing of the pipeline after that
/// frame. So does an event that belongs to no control at all.
pub proof fn lemma_unmapped_event<T>(
    pipeline: PipelineView<T>,
    events: Seq<DeviceEvent>,
    at: int,
    event: DeviceEvent,
)
    requires
        pipeline.consistent(),
        0 <= at <= events.len(),
        !pipeline.mapped(event),
    ensures
        pipeline.after_frame(signals_of(events.insert(at, event))) == pipeline.after_frame(
            signals_of(events),
        ),
{
    let with = signals_of(events.insert(at, event));
    let without = signals_of(events);
    assert forall|id: T| #[trigger] pipeline.inputs.contains_key(id) implies pipeline.inputs[id].after_frame(
        with,
    ) == pipeline.inputs[id].after_frame(without) by {
        lemma_unmapped_is_unheeded(pipeline, event, id);
        lemma_unheeded_event(pipeline.inputs[id], events, at, event);
    }
    assert(pipeline.after_frame(with).inputs =~= pipeline.after_frame(without).inputs);
}

proof fn lemma_button_outcome_silent(before: ButtonState, controls: Seq<ButtonControl>)
    ensures
        button_outcome(before, controls, FrameView::silent()) == before,
    decreases controls.len(),
{
    if controls.len() > 0 {
        lemma_button_outcome_silent(before, controls.drop_last());
    }
}

proof fn lemma_axis_outcome_at_rest(bindings: Seq<AxisBinding>)
    requires
        forall|i: int|
            0 <= i < bindings.len() ==> !(#[trigger] bindings[i]).negative_down
                && !bindings[i].positive_down,
    ensures
        axis_outcome(0, bindings, FrameView::silent()) == 0,
    decreases bindings.len(),
{
    if bindings.len() > 0 {
        let earlier = bindings.drop_last();
        assert forall|i: int| 0 <= i < earlier.len() implies !(#[trigger] earlier[i]).negative_down
            && !earlier[i].positive_down by {
            assert(earlier[i] == bindings[i]);
        }
        lemma_axis_outcome_at_rest(earlier);
        let last = bindings[bindings.len() - 1];
        assert(!last.negative_down && !last.positive_down);
    }
}

/// An input is registered in its first state, whatever it is bound to.
pub proof fn lemma_registered_at_rest(input: InputView, controls: Seq<Control>)
    ensures
        input.unbound().with_controls(controls).at_rest(),
    decreases controls.len(),
{
    if controls.len() > 0 {
        lemma_registered_at_rest(input, controls.drop_last());
        let earlier = input.unbound().with_controls(controls.drop_last());
        let bound = earlier.with_control(controls.last());
        match (earlier, bound) {
            (InputView::Axis(a), InputView::Axis(b)) => {
                assert forall|i: int| 0 <= i < b.bindings.len() implies !(#[trigger] b.bindings[i]).negative_down
                    && !b.bindings[i].positive_down by {
                    if i < a.bindings.len() {
                        assert(b.bindings[i] == a.bindings[i]);
                    }
                }
            },
            _ => {},
        }
    }
}

/// Default state: an input in its first state stays in it through every
/// frame without an event of a control that it reads; so through every
/// frame without events.
pub proof fn lemma_undisturbed_input_rests(input: InputView, events: Seq<DeviceEvent>)
    requires
        input.at_rest(),
        forall|i: int| 0 <= i < events.len() ==> !input.heeds(#[trigger] events[i]),
    ensures
        input.after_frame(signals_of(events)) == input,
{
    let frame = signals_of(events);
    lemma_silent_controls(events);
    assert forall|button: ButtonControl| #[trigger] input.heeds_button(button) implies frame.button(
        button,
    ) == FrameView::silent().button(button) by {
        assert forall|j: int| 0 <= j < events.len() implies !((#[trigger] events[j]).button_signal() matches Some(
            (b, _),
        ) && b == button) by {
            assert(!input.heeds(events[j]));
        }
    }
    assert forall|axis: GamepadAxis| #[trigger] input.heeds_axis(axis) implies frame.axis(axis)
        == FrameView::silent().axis(axis) by {
        assert forall|j: int| 0 <= j < events.len() implies !((#[trigger] events[j]).axis_sample() matches Some(
            (a, _),
        ) && a == axis) by {
            assert(!input.heeds(events[j]));
        }
    }
    lemma_frames_alike(input, frame, FrameView::silent());
    match input {
        InputView::Button(button) => {
            lemma_button_outcome_silent(button.value, button.controls);
        },
        InputView::Axis(axis) => {
            let stepped = axis.bindings.map_values(
                |b: AxisBinding| b.after_frame(FrameView::silent()),
            );
            assert(stepped =~= axis.bindings);
            lemma_axis_outcome_at_rest(axis.bindings);
        },
    }
}

/// Default state, for the pipeline: while every input is in its first
/// state, a frame without an event of a taken control leaves the pipeline
/// as it is.
pub proof fn lemma_undisturbed_pipeline_rests<T>(
    pipeline: PipelineView<T>,
    events: Seq<DeviceEvent>,
)
    requires
        pipeline.consistent(),
        pipeline.at_rest(),
        forall|i: int| 0 <= i < events.len() ==> !pipeline.mapped(#[trigger] events[i]),
    ensures
        pipeline.after_frame(signals_of(events)) == pipeline,
{
    assert forall|id: T| #[trigger] pipeline.inputs.contains_key(id) implies pipeline.inputs[id].after_frame(
        signals_of(events),
    ) == pipeline.inputs[id] by {
        assert forall|i: int| 0 <= i < events.len() implies !pipeline.inputs[id].heeds(
            #[trigger] events[i],
        ) by {
            lemma_unmapped_is_unheeded(pipeline, events[i], id);
        }
        lemma_undisturbed_input_rests(pipeline.inputs[id], events);
    }
    assert(pipeline.after_frame(signals_of(events)).inputs =~= pipeline.inputs);
}

/// Default state, at registration: where every input is in its first
/// state, so is every input after one more is registered.
pub proof fn lemma_registration_keeps_rest<T>(
    pipeline: PipelineView<T>,
    id: T,
    input: InputView,
    controls: Seq<Control>,
)
    requires
        pipeline.at_rest(),
    ensures
        pipeline.with_input(id, input, controls).at_rest(),
{
    lemma_registered_at_rest(input, controls);
}

/// Edge detection: a button bound to one control takes the state that the
/// frame's last press or release of that control left it in, and has
/// changed exactly if that state is not the one it had. In a frame without
/// such an event it keeps its state and has not changed.
pub proof fn lemma_single_control_edge(button: ButtonInputView, frame: FrameView)
    requires
        button.controls.len() == 1,
    ensures
        match frame.button(button.controls[0]) {
            Some(state) => button.after_frame(frame).value == state && button.after_frame(
                frame,
            ).changed_this_frame == (state != button.value),
            None => button.after_frame(frame).value == button.value && !button.after_frame(
                frame,
            ).changed_this_frame,
        },
{
    assert(button.controls.drop_last().len() == 0);
    assert(button_outcome(button.value, button.controls.drop_last(), frame) == button.value);
}

/// A button keeps its state, unchanged, through a frame that has no press
/// or release of a control it is bound to.
pub proof fn lemma_button_keeps_state(button: ButtonInputView, frame: FrameView)
    requires
        forall|i: int|
            0 <= i < button.controls.len() ==> frame.button(#[trigger] button.controls[i]) is None,
    ensures
        button.after_frame(frame).value == button.value,
        !button.after_frame(frame).changed_this_frame,
{
    assert forall|i: int| 0 <= i < button.controls.len() implies frame.button(
        #[trigger] button.controls[i],
    ) == FrameView::silent().button(button.controls[i]) by {}
    lemma_button_outcome_alike(button.value, button.controls, frame, FrameView::silent());
    lemma_button_outcome_silent(button.value, button.controls);
}

/// Level of a pair of keys: an axis whose last control is a pair of keys
/// has, after every frame, the value of the keys that are held then; and
/// it keeps that value through every further frame that has no event of
/// either key.
pub proof fn lemma_key_pair_holds_level(axis: AxisInputView, first: FrameView, next: FrameView)
    requires
        axis.bindings.len() > 0,
        axis.bindings.last().control is Keyboard,
        forall|button: ButtonControl| #[trigger]
            axis.bindings.last().uses_key(button) ==> next.button(button) is None,
    ensures
        axis.after_frame(first).value == axis.bindings.last().after_frame(first).level(),
        axis.after_frame(first).after_frame(next).value == axis.after_frame(first).value,
{
    let last = axis.bindings.last();
    let once = axis.after_frame(first);
    let twice = once.after_frame(next);
    assert(once.bindings.last() == last.after_frame(first));
    assert(twice.bindings.last() == last.after_frame(first).after_frame(next));
    match last.control {
        AxisControl::Keyboard(negative, positive) => {
            assert(last.uses_key(ButtonControl::Keyboard(negative)));
            assert(last.uses_key(ButtonControl::Keyboard(positive)));
        },
        AxisControl::Gamepad(_) => {},
    }
}

/// An axis whose last control is an analog axis takes the frame's last
/// reading of it, normalized.
pub proof fn lemma_analog_axis_reading(axis: AxisInputView, frame: FrameView, raw: i16)
    requires
        axis.bindings.len() > 0,
        axis.bindings.last().control matches AxisControl::Gamepad(a) && frame.axis(a) == Some(raw),
    ensures
        axis.after_frame(frame).value == normalized(raw),
{
    let last = axis.bindings.last();
    assert(axis.after_frame(frame).bindings.last() == last.after_frame(frame));
}

} // verus!
