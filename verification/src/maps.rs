//! The two kinds of map that programs can be given: a fixed array indexed by
//! key, and an open-addressing hash table.
pub mod array;
pub mod hash;

pub use array::ArrayMap;
pub use hash::HashMap;
