//! Threads: what the scheduler knows of a thread.
use vstd::prelude::*;
use crate::proc::ProcessState;

verus! {

/// The id of a thread within its process.
pub type Tid = u64;

/// A thread: its name, its id and its state.
pub struct Thread {
    pub name: String,
    pub tid: Tid,
    pub state: ProcessState,
}

impl Thread {
    /// A ready thread; its id is given when it joins a process.
    pub fn new(name: String) -> (r: Thread)
        ensures
            r.name@ == name@,
            r.tid == 0,
            r.state == ProcessState::Ready,
    {
        Thread { name, tid: 0, state: ProcessState::Ready }
    }
}

} // verus!
