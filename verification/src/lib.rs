use vstd::prelude::*;

pub mod base;
pub mod file;
pub mod kdtree;
pub mod memalloc;
pub mod metric;
pub mod order;
pub mod params;
pub mod pointcloud;
pub mod sets;
pub mod utils;
