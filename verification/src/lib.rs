//! Ordered in-memory map backed by a B+-tree.
//!
//! Values are stored only in leaves. Branch nodes hold separators equal to the
//! minimum key of the child to their right.

pub mod iter;
pub mod key;
pub mod laws;
pub mod model;
pub mod node;
pub mod projections;
pub mod tree;
pub mod validate;

pub use iter::Bound;
pub use iter::Iter;
pub use iter::Range;
pub use iter::RangeError;
pub use key::KeyOrder;
pub use key::OrderedKey;
pub use projections::Keys;
pub use projections::Values;
pub use tree::BTree;
pub use tree::InsertOutcome;
pub use tree::RemoveOutcome;
