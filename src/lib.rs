//! An ordered map kept as one sorted `Vec` of entries, searched by binary
//! search.
pub mod iter;
pub mod iter_mut;
pub mod laws;
pub mod map;
pub mod order;

pub use iter::{Iter, Keys, Values};
pub use iter_mut::{IterMut, ValuesMut};
pub use map::VecBTreeMap;
