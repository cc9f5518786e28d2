//! A persistent rope: text as a balanced binary tree of fragments.
//!
//! A rope keeps a large text in many small fragments, the leaves of a
//! tree, so that cutting the text, joining two texts and finding a position
//! take a number of steps that grows with the depth of the tree and not
//! with the length of the text. Edits leave the rope they start from as it
//! was and hand back a new rope that shares with it what they did not
//! touch.
//!
//! Positions can be counted in bytes (`usize`), in characters
//! ([`Chars`]) or in lines ([`Lines`]); the same algorithms
//! serve all three through the [`Metric`] trait.
//!
//! The text of a rope, as contracts speak of it, is its view `rope@`: the
//! sequence of its bytes, which is valid UTF-8.

pub mod balance;
pub mod collect;
pub mod decode;
pub mod fault;
pub mod laws;
pub mod metric;
pub mod node;
pub mod rebuild;
pub mod rope;
pub mod segment;
pub mod slice;
pub mod split;
pub mod text;
pub mod walk;

pub use crate::decode::DecodeFault;
pub use crate::fault::Fault;
pub use crate::metric::{Chars, Lines, Metric};
pub use crate::node::{Node, NodeLink};
pub use crate::rope::Rope;
pub use crate::slice::RopeSlice;
pub use crate::split::Split;
