//! A verified core for a JSON-backed to-do list.
//!
//! The library holds the task model, the JSON encoding and decoding of the
//! list, the two mutations (add, complete), the parsing of a task index from
//! console input, and the rendering of tasks as text lines.  All file and
//! console I/O stays outside, in the surrounding application.

pub mod codec;
pub mod input;
pub mod render;
pub mod store;
pub mod tasks;
