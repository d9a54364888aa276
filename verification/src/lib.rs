//! Generation of small graphs in the manner of nauty's `geng`: graph6
//! encoding, bit sets of vertices, partition nests and their refinement.
use vstd::prelude::*;

pub mod cli;
pub mod env;
pub mod geng;
pub mod graph6;
pub mod gtools;
pub mod level_data;
pub mod naugraph;
pub mod nautil;
pub mod nauty;
pub mod text;
