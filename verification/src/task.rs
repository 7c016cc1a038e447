//! The state the scheduler keeps of a task.
use vstd::prelude::*;

verus! {

/// What the trap entry code finds in `sscratch`: the kernel stack, thread
/// pointer and global pointer of the hart, as addresses, and a scratch slot
/// for the user stack pointer.
#[derive(Debug)]
pub struct Sscratch {
    pub kernel_stack_top: usize,
    pub kernel_thread_local: usize,
    pub kernel_global_ptr: usize,
    pub scratch_sp: usize,
}

impl Sscratch {
    /// All addresses null and the scratch slot clear.
    pub fn new() -> (r: Self)
        ensures
            r.kernel_stack_top == 0,
            r.kernel_thread_local == 0,
            r.kernel_global_ptr == 0,
            r.scratch_sp == 0,
    {
        Sscratch { kernel_stack_top: 0, kernel_thread_local: 0, kernel_global_ptr: 0, scratch_sp: 0 }
    }
}

/// The registers a context switch saves: the return address, the stack
/// pointer and the saved registers `s0` to `s11`.
#[derive(Debug, Clone)]
pub struct Context {
    pub ra: usize,
    pub sp: usize,
    pub sx: [usize; 12],
}

/// Where a task is in its life.
#[derive(Debug, Clone, Copy, PartialEq, Eq, Structural)]
pub enum TaskState {
    Blocked,
    Dead,
    Ready,
    Running,
}

impl TaskState {
    /// Whether the task has ended.
    pub fn is_dead(self) -> (r: bool)
        ensures
            r == (self == TaskState::Dead),
    {
        match self {
            TaskState::Dead => true,
            _ => false,
        }
    }
}

/// What the scheduler records of a queued task.
#[derive(Debug, Clone, Copy)]
pub struct TaskMetadata {
    pub priority: u16,
    pub run_time: u64,
    pub last_scheduled_at: u64,
    pub run_state: TaskState,
}

impl TaskMetadata {
    /// The metadata of a task that is ready, with priority 1 and no time
    /// run yet.
    pub open spec fn new_spec() -> TaskMetadata {
        TaskMetadata { priority: 1, run_time: 0, last_scheduled_at: 0, run_state: TaskState::Ready }
    }

    /// A task that is ready, with priority 1 and no time run yet.
    pub fn new() -> (r: Self)
        ensures
            r == TaskMetadata::new_spec(),
            r.priority == 1,
            r.run_time == 0,
            r.last_scheduled_at == 0,
            r.run_state == TaskState::Ready,
    {
        TaskMetadata { priority: 1, run_time: 0, last_scheduled_at: 0, run_state: TaskState::Ready }
    }
}

/// How a system call ended: it finished, or the task now waits.
#[derive(Debug, Clone, Copy, PartialEq, Eq, Structural)]
pub enum Outcome {
    Blocked,
    Completed,
}

} // verus!
