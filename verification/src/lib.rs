//! The state of a shared whiteboard: a table of users with a fixed number
//! of buckets, a history of strokes for each user with undo and redo, and
//! the replay that makes one picture of all histories.
//!
//! Every structure has a mathematical view, and every operation says what
//! it does to the view. The modules whose names end in `_laws` state what
//! follows for any sequence of operations.

pub mod key;
pub mod hashmap;
pub mod history;
pub mod json;
pub mod replay;
pub mod table_laws;
pub mod history_laws;
pub mod replay_laws;
