//! Ordered in-memory associative containers: binary search trees whose nodes
//! carry a red/black color tag.
//!
//! Two structurally parallel variants are provided:
//!
//! * [`arena::RBTree`] keeps its nodes in an arena of integer indices and each
//!   node records its parent, which enables ancestor queries such as
//!   [`arena::RBTree::grand`].
//! * [`slim::SlimTree`] owns its children directly and records no parent,
//!   trading ancestor queries for smaller nodes.
//!
//! Both variants are plain binary search trees: insertion never rebalances,
//! never recolors and never overwrites an existing key. The color tag is set
//! once when a node is created (a root is black, a child gets the opposite of
//! its parent's color) and is never revisited; no red-black invariant over the
//! placement of colors is maintained — with no corrective step, arbitrarily
//! long red-red chains can form, and the height of a tree is exactly that of
//! the unbalanced search tree its insertion order dictates.

pub mod arena;
pub mod color;
pub mod order;
pub mod slim;
pub mod total;
