//! Loaded modules of a process.

use vstd::prelude::*;

use super::reader::AddressRange;

verus! {

/// A loaded module (shared library or executable image) in a process's address space.
#[derive(Clone, Debug)]
pub struct Module {
    /// The module's name, typically its file name.
    pub name: String,
    /// The address range the module occupies in the process.
    pub range: AddressRange,
}

} // verus!
