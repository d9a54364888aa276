//! Pieces of nauty's `gtools`: the graph6 character and string builders.
pub mod g6char;
pub mod g6error;
pub mod g6string;
