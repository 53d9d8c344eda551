//! Ordered maps carried as plain sequences of their values.
//!
//! An element knows its own key, so a map from keys to elements can be
//! written out as the list of its elements alone and rebuilt from that list.
pub mod decode;
pub mod encode;
pub mod keyed;
pub mod laws;
pub mod order;

pub use decode::btree_from_vector;
pub use encode::{btreemap_sorted_values, btreemap_values};
pub use keyed::BTreeVector;
