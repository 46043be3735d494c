//! Constant-time navigation over a complete binary tree laid out in a flat,
//! zero-based index space: leaves sit on the even indices, inner nodes on the
//! odd ones.
//!
//! [`numbering`] defines the layout and the three conversions between a flat
//! index and a (depth, offset) pair. [`node`] is the mathematical model of a
//! tree position and of the moves between positions. [`iterator`] holds the
//! cursor, which performs those moves on machine integers.
pub mod iterator;
pub mod node;
pub mod numbering;

pub use iterator::Iterator;
pub use numbering::{depth, index, offset};
