//! Verified core of dwm and dmenu: the window manager's client lists,
//! tag and layout rules, geometry, and the menu's matching, cursor and
//! rendering logic.

pub mod links;
pub mod text;
pub mod menu;
pub mod wm;
pub mod wl;
pub mod laws;
