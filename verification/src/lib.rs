//! A recursive forest of doubly-linked layers ("bush"): each layer is an
//! ordered chain of nodes, and every node may own a nested layer of children.
//! Layers support boundary insertion, node and run extraction, splicing,
//! forest-wide breadth-first and depth-first traversal, and recursive
//! flattening of nested layers into the top layer.

pub mod bush;
pub mod iter;
pub mod laws;
pub mod records;
pub mod traverse;

pub use crate::bush::Bush;
pub use crate::bush::BushNode;
pub use crate::bush::NodeHandle;
pub use crate::iter::BushNodeItemIterLeft;
pub use crate::iter::BushNodeItemIterRight;
pub use crate::iter::BushNodeIterLeft;
pub use crate::iter::BushNodeIterRight;
pub use crate::records::BushRecord;
pub use crate::traverse::BFSItemIter;
pub use crate::traverse::BFSIter;
pub use crate::traverse::DFSItemIter;
pub use crate::traverse::DFSIter;
