//! Configuration: what it holds, and how it is read.

pub mod internal;
pub mod kdl;
pub mod toml;
