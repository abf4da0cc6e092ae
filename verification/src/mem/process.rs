//! Attaching to a process and enumerating processes.

use vstd::prelude::*;

use std::collections::HashMap;

use crate::error::MemError;

use super::proc_map::ProcMap;
use super::reader::{Reader, Writer};

verus! {

/// Platform-independent process identifier.
pub type ProcessId = usize;

/// How much access to a process is asked for.
#[derive(Debug, Clone, Copy, PartialEq, Eq, Structural)]
pub enum AccessLevel {
    Read,
    ReadWrite,
}

/// A process that can be attached to, read, written and mapped.
pub trait Process: Sized + Reader + Writer + ProcMap {
    /// Attaches to the process with the given id.
    fn attach(pid: ProcessId, access: AccessLevel) -> Result<Self, MemError>;

    /// Detaches from the process.
    fn close(&mut self) -> Result<(), MemError>;

    /// The running processes, by id, with their executable names.
    fn list_processes() -> HashMap<ProcessId, String>;

    /// The ids of the processes whose executable name contains `exe_name`.
    fn search_processes(exe_name: &str) -> Vec<ProcessId>;

    /// The window titles of each process that has windows.
    fn list_windows() -> HashMap<ProcessId, Vec<String>>;

    /// The ids of the processes with a window whose title contains `window_title`.
    fn search_windows(window_title: &str) -> Vec<ProcessId>;

    /// The id of the attached process.
    fn pid(&self) -> ProcessId;

    /// The access the process was attached with.
    fn access_level(&self) -> AccessLevel;

    /// The name of the process's executable in this state.
    ///
    /// A process that Verus checks defines it; the body here is only a default for one
    /// written outside Verus, which is trusted to answer as
    /// [`Process::executable_name`] states. Being closed, it is used by no proof.
    closed spec fn exe_name(&self) -> Seq<char> {
        vstd::pervasive::arbitrary()
    }

    /// The name of the process's executable.
    fn executable_name(&self) -> (r: String)
        ensures
            r@ == self.exe_name(),
    ;

    /// The titles of the process's windows (empty where windows cannot be listed).
    fn window_names(&self) -> Vec<String>;
}

} // verus!
