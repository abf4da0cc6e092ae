//! The `/proc` file system of Unix-like systems.

pub mod proc_maps;
pub mod procs;
