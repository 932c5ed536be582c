pub mod laws;
pub mod map;

pub use map::OrderedHashMap;
