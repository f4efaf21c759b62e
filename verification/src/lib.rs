//! The G13 configuration window's logic: what it edits, and how, without the display or the files.
pub mod bundle;
pub mod json;
pub mod live;
pub mod macros;
pub mod state;
pub mod text;
