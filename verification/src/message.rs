use vstd::prelude::*;

verus! {

/// A notification emitted by the scheduler: the task id and the time (nanoseconds
/// since the Unix epoch) at which it was emitted.
#[derive(Clone, Copy, Debug, PartialEq, Eq, Structural)]
pub enum MessageType {
    /// A task was (re)scheduled.
    Add(usize, i128),
    /// A task was dropped because it had been cancelled.
    Cancel(usize, i128),
    /// The runtime started waiting for a task.
    WaitStart(usize, i128),
    /// The runtime finished waiting for a task.
    WaitEnd(usize, i128),
    /// The task waited on was preempted by an earlier one; the id is the earlier task's.
    Abort(usize, i128),
    /// A callback was run.
    ExecuteCallback(usize, i128),
}

} // verus!
