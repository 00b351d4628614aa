//! An adaptive radix tree that maps byte strings to documents.
//!
//! [`art::Art`] is the map. Its contracts speak of the keys that it holds with their leaves,
//! which is its view, and of the [`shape::Shape`] of its tree. A tree without end markers cannot
//! hold two keys of which one begins with the other, so an insertion asks that its key does not
//! clash with another.
//!
//! Below the map, [`pointer`] has the nodes of the five sizes under one type, [`node1`],
//! [`node4`], [`node16`], [`node48`] and [`node256`] have the nodes themselves, [`slots`] has
//! the two ways in which they find a child, and [`tree`] says when a whole tree is well formed.
//! [`laws`] has what holds of the map as a whole, [`tree_laws`] what holds of trees and of the
//! keys that they hold, and [`node_laws`] what holds of single nodes.

pub mod art;
pub mod bound;
pub mod bytes;
pub mod clone;
pub mod counting;
pub mod header;
pub mod laws;
pub mod node1;
pub mod node_laws;
pub mod node16;
pub mod node256;
pub mod node4;
pub mod node48;
pub mod pointer;
pub mod shape;
pub mod slots;
pub mod tree;
pub mod tree_laws;

pub use crate::art::Art;
pub use crate::header::{none_header, NodeHeader, TwigNode};
pub use crate::pointer::NodePtr;
