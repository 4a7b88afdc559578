//! Verified core of a local-first study app: the derived knowledge state of a
//! note, the rules that record events on notes, questions, tags, tasks and
//! boards, and the review queue.
//!
//! Persistence (SQLite) and the desktop shell are not here: callers read rows,
//! hand the plain values to these functions and write back what they return.

pub mod document;
pub mod domain;
pub mod error;
pub mod note_state;
pub mod order;
pub mod repo;
pub mod review;
pub mod text;
