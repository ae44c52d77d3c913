//! The types and traits that most callers need, in one place.

pub use crate::error::AccessError;
pub use crate::index::Indexable;
pub use crate::node_field::NodeField;
