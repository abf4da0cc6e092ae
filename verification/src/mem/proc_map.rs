//! Enumerating the memory map of a process.

use vstd::prelude::*;

use crate::error::MemError;

use super::module::Module;
use super::region::Region;

verus! {

/// An object that can enumerate the memory map of a process.
///
/// What a listing gives in a given state is named by [`ProcMap::region_list`] and
/// [`ProcMap::module_list`].
pub trait ProcMap {
    /// The regions that listing them gives in this state, or the listing's error.
    ///
    /// A map that Verus checks defines it; the body here is only a default for one
    /// written outside Verus, which is trusted to list as [`ProcMap::get_regions`]
    /// states. Being closed, it is used by no proof.
    closed spec fn region_list(&self) -> Result<Seq<Region>, MemError> {
        vstd::pervasive::arbitrary()
    }

    /// The modules that listing them gives in this state, or the listing's error (a
    /// default body as for [`ProcMap::region_list`]).
    closed spec fn module_list(&self) -> Result<Seq<Module>, MemError> {
        vstd::pervasive::arbitrary()
    }

    /// Returns all memory regions visible in the process's address space.
    fn get_regions(&self) -> (r: Result<Vec<Region>, MemError>)
        ensures
            match r {
                Ok(v) => self.region_list() == Ok::<Seq<Region>, MemError>(v@),
                Err(e) => self.region_list() == Err::<Seq<Region>, MemError>(e),
            },
    ;

    /// Returns all loaded modules (shared libraries and the executable image).
    fn get_modules(&self) -> (r: Result<Vec<Module>, MemError>)
        ensures
            match r {
                Ok(v) => self.module_list() == Ok::<Seq<Module>, MemError>(v@),
                Err(e) => self.module_list() == Err::<Seq<Module>, MemError>(e),
            },
    ;
}

} // verus!
