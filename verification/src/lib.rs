//! A fixed-size segment tree over a monoid.
//!
//! The tree keeps a sequence of monoid elements in a flat buffer laid out as a
//! complete binary tree. It answers "combine every element of this closed index
//! range, left to right" and "replace the element at this index", each in a
//! logarithmic number of monoid operations.
//!
//! * [`monoid`] declares what an element type has to provide, and the
//!   left-to-right product of a sequence that the contracts are stated over.
//! * [`pow2`] holds the arithmetic of powers of two that fixes the buffer's size.
//! * [`segment_tree`] holds the tree itself.
pub mod monoid;
pub mod pow2;
pub mod segment_tree;
