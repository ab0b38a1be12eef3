//! The menu: items, matching, cursor movement, key handling and rendering.

pub mod matching;
pub mod state;
pub mod render;
pub mod keysyms;
pub mod args;
pub mod input;
pub mod frame;
