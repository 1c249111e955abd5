//! The input core of a small real-time engine.
//!
//! Game logic names its inputs ("jump", "move sideways") and binds each to
//! physical controls. Once per frame the pipeline takes the device events of
//! that frame and resolves the state of every named input.

pub mod inputs;
