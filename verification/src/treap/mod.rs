//! A treap whose nodes carry stackable payloads, and the map and set built
//! on it.

pub mod iter;
pub mod map;
pub mod node;
pub mod ordering;
pub mod payload;
