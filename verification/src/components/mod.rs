//! The interactive parts of the interface, as state machines.

pub mod tab_picker;
