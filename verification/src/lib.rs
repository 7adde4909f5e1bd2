//! An in-memory document tree built from a stream of parse events.
//!
//! The tree is stored in an arena: every node lives in one vector owned by
//! the [`Document`](dom::Document), and nodes refer to each other by index.
//! Ownership therefore runs strictly downward (an element lists the indices
//! of its children) while the upward parent links are plain indices that
//! never own anything, so the tree cannot form an ownership cycle.

pub mod builder;
pub mod dom;
pub mod pretty;
pub mod source;

pub use builder::{build, BuildError, Event, StructureError};
pub use source::build_from_str;
pub use dom::text::{rc_text_new, RcText, Text, TextIterator};
pub use dom::{Attribute, Document, Element, Namespace, Node, QName};
