//! A virtual document model: an append-only arena of nodes with ordered
//! children and per-parent key scopes, the component protocol that builds
//! it, and the breadth-first reconciler that compares two documents.

pub mod component;
pub mod diff;
pub mod document;
pub mod laws;

pub use document::model::{DocumentError, DocumentView, NodeView};
pub use document::vdocument::{Key, KeyMap, NodeId, VDocument, VNode};
