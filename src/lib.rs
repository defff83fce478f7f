//! An ordered, read-mostly search index over a sorted key sequence, kept as a
//! flat store of encoded records linked into segments of doubling length.
pub mod deser;
pub mod iter;
pub mod laws;
pub mod link;
pub mod skip_list;
pub mod skip_map;
pub mod store;
pub mod utils;

pub use crate::skip_list::SkipList;
pub use crate::skip_map::SkipMap;
