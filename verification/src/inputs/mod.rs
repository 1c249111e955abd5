//! Named inputs, the controls they are bound to, and their state per frame.

pub(crate) mod assoc;
pub mod control;
pub mod event;
pub mod input;
pub mod laws;
pub mod pipeline;

pub use control::{AxisControl, ButtonControl, Control, GamepadAxis, GamepadButton, Scancode};
pub use event::{signals_of, ButtonState, DeviceEvent, FrameSignals, FrameView};
pub use input::{
    normalize, AxisBinding, AxisInputData, AxisInputView, ButtonInputData, ButtonInputView, Input,
    InputView, AXIS_MAX,
};
pub use pipeline::{
    compares_exactly, InputRegistrationError, InputScheme, InputsPipeline, PipelineView,
};
