//! The virtual document: its mathematical model and its arena-backed store.

pub mod model;
pub mod vdocument;
