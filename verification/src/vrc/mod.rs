//! Reading VRChat output logs and locating them on disk.

pub mod parser;
pub mod path;
