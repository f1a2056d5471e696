//! A small file system abstraction: a capability trait, a model of what its
//! operations do, and an in-memory backend proved against that model.

pub mod file_system;
pub mod memory;
pub mod path;
pub mod tree;
