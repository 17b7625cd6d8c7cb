//! An ordered key/value container backed by a skip list: a stack of sorted
//! doubly linked levels kept in one arena of nodes addressed by index.

pub mod node;
pub mod level;
pub mod skiplist;
