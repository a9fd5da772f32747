//! A binary heap whose priority is given by a comparison predicate fixed at
//! construction, with its ordering and contents proved.
pub mod heap;
pub mod index;
pub mod laws;
pub mod order;

pub use heap::Hearp;
pub use index::{_left_id, _parent_id, _right_id};
