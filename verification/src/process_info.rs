//! Process bookkeeping for the process-tree enumeration utility.
//!
//! The enumeration itself reads the OS process table and prints, which lives
//! with the surrounding program; the library holds the data carried around.

use vstd::prelude::*;

verus! {

/// A process and the human-readable description of its consumed CPU time.
pub struct ProcessInfo {
    pub pid: u32,
    pub cpu_time: String,
}

/// Collects the processes matching a search term.
pub struct ProcessManager {
    pub process_infos: Vec<ProcessInfo>,
    pub search_term: String,
}

impl ProcessManager {
    /// A manager for `search_term` with nothing collected yet.
    pub fn new(search_term: String) -> (r: ProcessManager)
        ensures
            r.search_term == search_term,
            r.process_infos@.len() == 0,
    {
        ProcessManager { process_infos: Vec::new(), search_term }
    }
}

} // verus!
