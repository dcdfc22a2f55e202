//! A small task-list library: an ordered collection of to-do entries with
//! sequential identifiers, completion flags, terminal renderings (plain and
//! colored), and a text codec for persistence.

pub mod codec;
pub mod digits;
pub mod style;
pub mod todolist;

pub use todolist::{Task, TaskList};
