//! Core logic of a small screenshot tool: a settings file in JSON, file
//! names for captures, hotkey specifications, pixel-buffer manipulation and
//! the decisions of its on-screen widgets.

pub mod text;
pub mod json;
pub mod decimal;
pub mod state;
pub mod filename;
pub mod hotkey;
pub mod capture;
pub mod geometry;
pub mod overlay;
pub mod menu;
pub mod tray;
pub mod preview;
pub mod expand;
pub mod webp;
