//! Sequences of items in persistent, balanced trees.
//!
//! A [`Tree`] holds its items in its leaves, in order, and keeps in each node a
//! summary of the items below it. Along any [`Dimension`] of the summaries a
//! [`Cursor`] finds the item at a position, and cuts out the items between two
//! positions. The nodes of a tree are shared between its clones, and may lie in a
//! [`NodeStore`] from which they are read when they are needed.
//!
//! `model` says what a tree stands for, `path` does so for a cursor, `shape` says how
//! high a tree gets, `reads` says which nodes are read, and `laws` collects what holds of
//! the whole.

pub mod append;
pub mod cursor;
pub mod integers;
pub mod join;
pub mod laws;
pub mod model;
pub mod node;
pub mod parts;
pub mod path;
pub mod piece;
pub mod reads;
pub mod seek;
pub mod shape;
pub mod storage;
pub mod store;
pub mod summary;
pub mod tree;
pub mod walk;

pub use cursor::Cursor;
pub use integers::{Count, IntegersSummary};
pub use node::{Node, NODE_CAPACITY, TREE_BASE};
pub use piece::Piece;
pub use seek::SeekBias;
pub use storage::{Inline, Trees};
pub use store::{
    Failures, NodeId, NodeStore, Nodes, NullNodeStore, NullNodeStoreReadError, Reads,
};
pub use summary::{sum, sum_owned, Dimension, Item, Summary};
pub use tree::Tree;
