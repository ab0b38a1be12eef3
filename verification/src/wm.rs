//! The window manager: its state, client lists, layouts, rules and actions.

pub mod config;
pub mod model;
pub mod lists;
pub mod geometry;
pub mod layout;
pub mod focus;
pub mod arrange;
pub mod actions;
pub mod hints;
pub mod manage;
pub mod events;
pub mod fold;
pub mod screens;
pub mod collapse;
pub mod spread;
pub mod bar;
pub mod mouse;
pub mod keys;
