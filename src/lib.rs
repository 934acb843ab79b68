//! A to-do list: tasks with a description, a completion flag, an optional
//! priority and an optional due date, kept in an ordered list with undo,
//! and saved as `|`-separated text lines.

pub mod codec;
pub mod date;
pub mod input;
pub mod json;
pub mod list;
pub mod task;
pub mod text;
