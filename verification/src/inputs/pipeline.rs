//! The pipeline: which input owns which control, and the state of each input.

use super::assoc::{
    as_map, distinct_keys, has_key, lemma_absent, lemma_entry, lemma_push, lemma_values_mapped,
};
use super::control::{AxisControl, ButtonControl, Control};
use super::event::{signals_of, DeviceEvent, FrameSignals, FrameView};
use super::input::{lemma_after_frame, lemma_with_controls, Input, InputView};
use std::fmt::Debug;
use std::hash::Hash;
use vstd::prelude::*;
use vstd::std_specs::cmp::PartialEqSpec;

verus! {

/// The names that a game gives to its inputs: most often a small enum. A
/// pipeline tells two names apart with `==`.
pub trait InputScheme: Hash + Eq + Debug + Copy {

}

/// `==` on `T` holds of two names exactly if they are the same name, as it
/// does where `PartialEq` is derived.
pub open spec fn compares_exactly<T: PartialEq>() -> bool {
    &&& T::obeys_eq_spec()
    &&& forall|a: T, b: T| #[trigger] a.eq_spec(&b) <==> a == b
}

/// Why an input was not registered.
#[derive(Debug)]
pub enum InputRegistrationError<T: InputScheme> {
    /// A control of the request belongs to the input of this name already.
    ControlBusy(T),
}

/// A pipeline as a value: the owner of each control that has one, and the
/// state of each registered input.
#[verifier::reject_recursive_types(T)]
pub struct PipelineView<T> {
    pub registry: Map<Control, T>,
    pub inputs: Map<T, InputView>,
}

impl<T> PipelineView<T> {
    /// What holds of every pipeline: the owner of a control is a registered
    /// input, each input is well formed, and each control that an input is
    /// bound to is owned by that input.
    pub open spec fn consistent(self) -> bool {
        &&& forall|control: Control| #[trigger]
            self.registry.contains_key(control) ==> self.inputs.contains_key(
                self.registry[control],
            )
        &&& forall|id: T| #[trigger] self.inputs.contains_key(id) ==> self.inputs[id].wf()
        &&& forall|id: T, control: Control|
            self.inputs.contains_key(id) && #[trigger] self.inputs[id].binds(control)
                ==> self.registry.contains_key(control) && self.registry[control] == id
    }

    /// The control at place `i` of `controls` has an owner, and none before
    /// it has one.
    pub open spec fn first_taken(self, controls: Seq<Control>, i: int) -> bool {
        &&& 0 <= i < controls.len()
        &&& self.registry.contains_key(controls[i])
        &&& forall|j: int| 0 <= j < i ==> !self.registry.contains_key(#[trigger] controls[j])
    }

    /// An input can be registered under `id` with `controls`: none of the
    /// controls has an owner, and no input is registered under `id`.
    pub open spec fn admits(self, id: T, controls: Seq<Control>) -> bool {
        &&& forall|i: int|
            0 <= i < controls.len() ==> !self.registry.contains_key(#[trigger] controls[i])
        &&& !self.inputs.contains_key(id)
    }

    /// `owner` stands in the way of registering an input under `id` with
    /// `controls`: it owns the first of the controls that has an owner; or
    /// all of them are free and `owner` is `id` itself, under which an
    /// input is registered already and still holds its controls.
    pub open spec fn refuses(self, id: T, controls: Seq<Control>, owner: T) -> bool {
        ||| exists|i: int| #[trigger]
            self.first_taken(controls, i) && self.registry[controls[i]] == owner
        ||| {
            &&& forall|i: int|
                0 <= i < controls.len() ==> !self.registry.contains_key(#[trigger] controls[i])
            &&& self.inputs.contains_key(id)
            &&& owner == id
        }
    }

    /// The pipeline with one more input: `id` owns each of the controls, and
    /// stands for an input of the kind of `input` in its first state, bound
    /// to those of the controls that are of its kind.
    pub open spec fn with_input(self, id: T, input: InputView, controls: Seq<Control>)
        -> PipelineView<T> {
        PipelineView {
            registry: claimed(self.registry, id, controls),
            inputs: self.inputs.insert(id, input.unbound().with_controls(controls)),
        }
    }

    /// The control of this event is taken: it has an owner, or it is a key
    /// and a pair of keys with it has an owner. Of an event without a
    /// control this is false.
    pub open spec fn mapped(self, event: DeviceEvent) -> bool {
        match event.control() {
            Some(control) => self.registry.contains_key(control) || exists|pair: Control| #[trigger]
                self.registry.contains_key(pair) && made_of(pair, control),
            None => false,
        }
    }

    /// Every input is in its first state.
    pub open spec fn at_rest(self) -> bool {
        forall|id: T| #[trigger] self.inputs.contains_key(id) ==> self.inputs[id].at_rest()
    }

    /// The pipeline after a frame: each input is brought up to the frame,
    /// and no control changes its owner.
    pub open spec fn after_frame(self, frame: FrameView) -> PipelineView<T> {
        PipelineView {
            registry: self.registry,
            inputs: self.inputs.map_values(|input: InputView| input.after_frame(frame)),
        }
    }
}

/// `pair` is a pair of keys, and `key` is one of the two.
pub open spec fn made_of(pair: Control, key: Control) -> bool {
    match (pair, key) {
        (
            Control::Axis(AxisControl::Keyboard(negative, positive)),
            Control::Button(ButtonControl::Keyboard(k)),
        ) => k == negative || k == positive,
        _ => false,
    }
}

/// The registry in which `id` owns each of the controls, and every other
/// control has the owner it had.
pub open spec fn claimed<T>(registry: Map<Control, T>, id: T, controls: Seq<Control>) -> Map<
    Control,
    T,
> {
    Map::new(
        |c: Control| registry.contains_key(c) || controls.contains(c),
        |c: Control|
            if controls.contains(c) {
                id
            } else {
                registry[c]
            },
    )
}

proof fn lemma_claimed_step<T>(registry: Map<Control, T>, id: T, controls: Seq<Control>, i: int)
    requires
        0 <= i < controls.len(),
    ensures
        claimed(registry, id, controls.take(i + 1)) == claimed(
            registry,
            id,
            controls.take(i),
        ).insert(controls[i], id),
{
    let shorter = controls.take(i);
    let longer = controls.take(i + 1);
    assert forall|c: Control| longer.contains(c) <==> shorter.contains(c) || c == controls[i] by {
        if longer.contains(c) {
            let j = choose|j: int| 0 <= j < longer.len() && longer[j] == c;
            if j < i {
                assert(shorter[j] == c);
            }
        }
        if shorter.contains(c) {
            let j = choose|j: int| 0 <= j < shorter.len() && shorter[j] == c;
            assert(longer[j] == c);
        }
        if c == controls[i] {
            assert(longer[i] == c);
        }
    }
    assert(claimed(registry, id, longer) =~= claimed(registry, id, shorter).insert(
        controls[i],
        id,
    ));
}

/// Registering an input that the pipeline admits keeps it consistent.
pub proof fn lemma_registration_keeps_consistent<T>(
    pipeline: PipelineView<T>,
    id: T,
    input: InputView,
    controls: Seq<Control>,
)
    requires
        pipeline.consistent(),
        pipeline.admits(id, controls),
    ensures
        pipeline.with_input(id, input, controls).consistent(),
{
    let after = pipeline.with_input(id, input, controls);
    lemma_with_controls(input.unbound(), controls);
    assert forall|other: T, control: Control|
        after.inputs.contains_key(other) && #[trigger] after.inputs[other].binds(
            control,
        ) implies after.registry.contains_key(control) && after.registry[control] == other by {
        if other != id {
            assert(pipeline.inputs[other].binds(control));
            if controls.contains(control) {
                let i = choose|i: int| 0 <= i < controls.len() && controls[i] == control;
                assert(!pipeline.registry.contains_key(controls[i]));
            }
        }
    }
}

/// A frame keeps a pipeline consistent.
pub proof fn lemma_frame_keeps_consistent<T>(pipeline: PipelineView<T>, frame: FrameView)
    requires
        pipeline.consistent(),
    ensures
        pipeline.after_frame(frame).consistent(),
{
    let after = pipeline.after_frame(frame);
    assert forall|id: T| #[trigger] after.inputs.contains_key(id) implies after.inputs[id].wf()
        && forall|control: Control| #[trigger]
        after.inputs[id].binds(control) <==> pipeline.inputs[id].binds(control) by {
        lemma_after_frame(pipeline.inputs[id], frame);
    }
}

/// Resolves the state of named inputs, frame by frame, from device events.
pub struct InputsPipeline<T: InputScheme> {
    controls_input: Vec<(Control, T)>,
    inputs: Vec<(T, Input)>,
}

impl<T: InputScheme> View for InputsPipeline<T> {
    type V = PipelineView<T>;

    closed spec fn view(&self) -> PipelineView<T> {
        PipelineView { registry: as_map(self.controls_input@), inputs: as_map(self.slots()) }
    }
}

impl<T: InputScheme> InputsPipeline<T> {
    /// The registered inputs, each as a value beside its name.
    spec fn slots(&self) -> Seq<(T, InputView)> {
        self.inputs@.map_values(|slot: (T, Input)| (slot.0, slot.1@))
    }

    /// No control has two owners, no name stands for two inputs, and owners
    /// and inputs agree.
    pub closed spec fn wf(&self) -> bool {
        &&& compares_exactly::<T>()
        &&& distinct_keys(self.controls_input@)
        &&& distinct_keys(self.slots())
        &&& self@.consistent()
    }

    /// A well-formed pipeline is consistent.
    pub proof fn lemma_consistent(&self)
        requires
            self.wf(),
        ensures
            self@.consistent(),
    {
    }

    /// A pipeline without inputs, for names that `==` tells apart.
    pub fn new() -> (pipeline: Self)
        requires
            compares_exactly::<T>(),
        ensures
            pipeline.wf(),
            pipeline@.registry == Map::<Control, T>::empty(),
            pipeline@.inputs == Map::<T, InputView>::empty(),
    {
        let pipeline = InputsPipeline { controls_input: Vec::new(), inputs: Vec::new() };
        assert(pipeline@.registry =~= Map::<Control, T>::empty());
        assert(pipeline@.inputs =~= Map::<T, InputView>::empty());
        pipeline
    }

    /// The input registered under `key`, in its state after the last frame;
    /// `None` where no input was registered under it.
    pub fn read(&self, key: &T) -> (input: Option<&Input>)
        requires
            self.wf(),
        ensures
            match input {
                Some(found) => self@.inputs.contains_key(*key) && found@ == self@.inputs[*key],
                None => !self@.inputs.contains_key(*key),
            },
    {
        let mut i: usize = 0;
        while i < self.inputs.len()
            invariant
                self.wf(),
                i <= self.inputs.len(),
                forall|j: int| 0 <= j < i ==> (#[trigger] self.slots()[j]).0 != *key,
            decreases self.inputs.len() - i,
        {
            if self.inputs[i].0 == *key {
                proof {
                    lemma_entry(self.slots(), i as int);
                }
                return Some(&self.inputs[i].1);
            }
            i += 1;
        }
        proof {
            lemma_absent(self.slots(), *key);
        }
        None
    }

    /// The input that owns `control`, where one does.
    pub fn owner(&self, control: &Control) -> (owner: Option<T>)
        requires
            self.wf(),
        ensures
            owner == self@.registry.get(*control),
    {
        match find_control(&self.controls_input, control) {
            Some(i) => Some(self.controls_input[i].1),
            None => None,
        }
    }
}

/// The row of `control` in a list of owners.
fn find_control<T: InputScheme>(entries: &Vec<(Control, T)>, control: &Control) -> (row: Option<
    usize,
>)
    requires
        distinct_keys(entries@),
    ensures
        match row {
            Some(i) => i < entries.len() && entries[i as int].0 == *control && as_map(
                entries@,
            ).contains_key(*control) && as_map(entries@)[*control] == entries[i as int].1,
            None => !has_key(entries@, *control) && !as_map(entries@).contains_key(*control),
        },
{
    let mut i: usize = 0;
    while i < entries.len()
        invariant
            distinct_keys(entries@),
            i <= entries.len(),
            forall|j: int| 0 <= j < i ==> (#[trigger] entries@[j]).0 != *control,
        decreases entries.len() - i,
    {
        if entries[i].0 == *control {
            proof {
                lemma_entry(entries@, i as int);
            }
            return Some(i);
        }
        i += 1;
    }
    proof {
        lemma_absent(entries@, *control);
    }
    None
}

impl<T: InputScheme> InputsPipeline<T> {
    /// Registers an input under the name `input_id` and binds it to
    /// `controls`, or changes nothing.
    ///
    /// The request is refused if one of the controls has an owner, or if an
    /// input is registered under `input_id` already; the error names who
    /// stands in the way. Otherwise the name owns every control of the
    /// request from now on, and stands for an input of the kind of `input`
    /// in its first state: a button up, an axis at 0.
    pub fn register(&mut self, input_id: T, input: Input, controls: &Vec<Control>) -> (result:
        Result<(), InputRegistrationError<T>>)
        requires
            old(self).wf(),
            controls.len() > 0,
        ensures
            final(self).wf(),
            match result {
                Ok(()) => old(self)@.admits(input_id, controls@) && final(self)@ == old(
                    self,
                )@.with_input(input_id, input@, controls@),
                Err(InputRegistrationError::ControlBusy(owner)) => old(self)@.refuses(
                    input_id,
                    controls@,
                    owner,
                ) && *final(self) == *old(self),
            },
    {
        let ghost registry = self@.registry;
        let mut i: usize = 0;
        while i < controls.len()
            invariant
                self.wf(),
                *self == *old(self),
                registry == self@.registry,
                i <= controls.len(),
                forall|j: int| 0 <= j < i ==> !registry.contains_key(#[trigger] controls@[j]),
            decreases controls.len() - i,
        {
            match self.owner(&controls[i]) {
                Some(owner) => {
                    assert(self@.first_taken(controls@, i as int));
                    return Err(InputRegistrationError::ControlBusy(owner));
                },
                None => {},
            }
            i += 1;
        }
        if self.read(&input_id).is_some() {
            return Err(InputRegistrationError::ControlBusy(input_id));
        }
        let mut stored = input;
        stored.reset();
        let mut i: usize = 0;
        while i < controls.len()
            invariant
                i <= controls.len(),
                self.inputs == old(self).inputs,
                forall|j: int|
                    0 <= j < controls.len() ==> !registry.contains_key(#[trigger] controls@[j]),
                distinct_keys(self.controls_input@),
                as_map(self.controls_input@) == claimed(
                    registry,
                    input_id,
                    controls@.take(i as int),
                ),
                stored@ == input@.unbound().with_controls(controls@.take(i as int)),
            decreases controls.len() - i,
        {
            proof {
                lemma_claimed_step(registry, input_id, controls@, i as int);
                assert(controls@.take(i + 1).drop_last() == controls@.take(i as int));
            }
            match find_control(&self.controls_input, &controls[i]) {
                Some(_) => {
                    proof {
                        let now = as_map(self.controls_input@);
                        assert(now.contains_key(controls@[i as int]));
                        assert(now.insert(controls@[i as int], input_id) =~= now);
                    }
                },
                None => {
                    proof {
                        lemma_push(self.controls_input@, controls@[i as int], input_id);
                    }
                    self.controls_input.push((controls[i], input_id));
                },
            }
            stored.bind(&controls[i]);
            i += 1;
        }
        proof {
            assert(controls@.take(i as int) == controls@);
            lemma_push(self.slots(), input_id, stored@);
            lemma_registration_keeps_consistent(old(self)@, input_id, input@, controls@);
        }
        let ghost slots = self.slots();
        self.inputs.push((input_id, stored));
        proof {
            assert(self.slots() =~= slots.push((input_id, stored@)));
        }
        Ok(())
    }
}

impl<T: InputScheme> InputsPipeline<T> {
    /// Takes the device events of one frame, in the order they came, and
    /// brings every input up to them. To be called once per frame, before
    /// the inputs are read.
    ///
    /// Of each control the last event of the frame counts. Events that
    /// belong to no control, or to one that nothing is bound to, are
    /// passed over.
    pub fn process_events(&mut self, events: &Vec<DeviceEvent>)
        requires
            old(self).wf(),
        ensures
            final(self).wf(),
            final(self)@ == old(self)@.after_frame(signals_of(events@)),
    {
        let frame = FrameSignals::collect(events);
        let ghost step = |input: InputView| input.after_frame(frame@);
        let ghost before = self.inputs@;
        let mut i: usize = 0;
        while i < self.inputs.len()
            invariant
                frame.wf(),
                self.controls_input == old(self).controls_input,
                before == old(self).inputs@,
                i <= self.inputs.len(),
                self.inputs.len() == before.len(),
                forall|j: int| 0 <= j < before.len() ==> (#[trigger] self.inputs@[j]).0 == before[j].0,
                forall|j: int|
                    0 <= j < i ==> (#[trigger] self.inputs@[j]).1@ == before[j].1@.after_frame(
                        frame@,
                    ),
                forall|j: int| i <= j < before.len() ==> (#[trigger] self.inputs@[j]).1 == before[j].1,
            decreases self.inputs.len() - i,
        {
            self.inputs[i].1.apply(&frame);
            i += 1;
        }
        proof {
            lemma_values_mapped(old(self).slots(), self.slots(), step);
            assert(self@.inputs == old(self)@.inputs.map_values(step));
            assert(self@ == old(self)@.after_frame(frame@));
            lemma_frame_keeps_consistent(old(self)@, frame@);
        }
    }
}

} // verus!
