//! A verified core for a linear-offset compose area.
//!
//! The library maintains a flat integer "offset space" over an ordered tree
//! of content nodes (text runs and atomic elements such as images), and keeps
//! that space consistent across insertions and deletions: it resolves linear
//! offsets to (child index, local offset) locations with a directional
//! tie-break, splits text runs on insertion, removes selections, and projects
//! the caret to and from the host environment's native selection form.

pub mod compose;
pub mod locate;
pub mod node;
pub mod text;
pub mod tree;

pub use crate::compose::{CaretPosition, ComposeArea, ComposeAreaView, Position};
pub use crate::node::{Direction, Node, NodeIndexOffset};
