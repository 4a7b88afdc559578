//! The rules behind each stored entity. One module per entity; the storage
//! itself lives with the caller, which hands these functions plain values.

pub mod assets;
pub mod canvas;
pub mod derived;
pub mod html_ticks;
pub mod notes;
pub mod questions;
pub mod review;
pub mod tags;
pub mod topics;
