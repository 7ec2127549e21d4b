//! What holds of the library as a whole: laws that relate several of its
//! operations, proved over the models that the contracts speak of.

pub mod components;
pub mod documents;
pub mod reconciler;
