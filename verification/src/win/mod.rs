//! Windows memory information as plain values: page protections and the memory blocks
//! that `VirtualQueryEx` describes, and their conversion into the library's regions;
//! and the wide strings of the API.

pub mod perms;
pub mod region;
pub mod wide;

pub use perms::PagePerms;
pub use region::{convert_perms, MemBlock, WinMemState, WinMemType};
pub use wide::{str_to_wstr, wstr_to_str, wstr_to_str_truncated, WSTR};
