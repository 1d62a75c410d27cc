//! A small to-do list library: tasks with a description and a completion
//! flag, kept in insertion order, together with the rules of the interactive
//! menu (adding, listing, marking done) and a persistent text encoding of the
//! whole list.
//!
//! Everything here is verified; reading the task file, writing it back and
//! the interactive prompt live outside the library and exchange plain
//! `String` values with it.

pub mod actions;
pub mod codec;
pub mod render;
pub mod task;
pub mod text;
