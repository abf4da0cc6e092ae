//! Address ranges, memory regions and modules, readers of another process's memory,
//! and the buffer that scans a range of it in chunks.

pub mod buffer;
pub mod module;
pub mod reader;
pub mod region;

mod proc_map;
mod process;

pub use buffer::{Buffer, ScanTime};
pub use module::Module;
pub use proc_map::ProcMap;
pub use process::{AccessLevel, Process, ProcessId};
pub use reader::{AddressRange, MemAddress, Reader, Writer};
pub use region::Region;
