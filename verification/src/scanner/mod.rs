//! What a scan of a process needs to know of its memory: where the executable image
//! lies, and which regions are writable.
//!
//! "Heap" here means all writable private memory; "module" means the writable pages of
//! the executable image, which are read eagerly.

pub mod memory_layout;

pub use memory_layout::MemoryLayout;
