//! Command resolution, history bookkeeping and the tab picker of a terminal
//! `watch` tool, with their contracts proved by Verus.

pub mod command_state;
pub mod components;
pub mod runner;
pub mod store;
pub mod tab_picker;
pub mod text;
