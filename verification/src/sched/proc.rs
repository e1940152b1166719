//! Processes: an identifier, a parent and the tasks that run in it.

use vstd::prelude::*;
use crate::sched::task::TaskId;

verus! {

/// A process.
pub struct Process {
    /// Its identifier.
    pub pid: u32,
    /// The process it was cloned from.
    pub parent: Option<u32>,
    /// Its tasks.
    pub threads: Vec<TaskId>,
    /// Privilege level.
    pub level: u16,
    /// Reference count.
    pub rc: usize,
}

impl Process {
    /// A new process `pid` without parent or tasks, at level 0.
    pub fn new(pid: u32) -> (p: Process)
        ensures
            p.pid == pid,
            p.parent is None,
            p.threads@.len() == 0,
            p.level == 0,
            p.rc == 0,
    {
        Process { pid, parent: None, threads: Vec::new(), level: 0, rc: 0 }
    }

    /// A copy of the process as a child `pid` of it: same level, no tasks.
    pub fn clone_as(&self, pid: u32) -> (p: Process)
        ensures
            p.pid == pid,
            p.parent == Some(self.pid),
            p.threads@.len() == 0,
            p.level == self.level,
            p.rc == 0,
    {
        Process { pid, parent: Some(self.pid), threads: Vec::new(), level: self.level, rc: 0 }
    }
}

} // verus!
