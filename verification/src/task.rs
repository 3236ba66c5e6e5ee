//! Task control blocks. A TCB records one schedulable unit: its priority,
//! scheduling state, timed-block deadline, the outcome to deliver when it
//! resumes, and the heap handle of its stack region. The saved register file
//! itself is restored by the hardware context-switch primitive and carries no
//! scheduling information, so it is not modelled here.

use vstd::prelude::*;

verus! {

/// Index of a task in the kernel's task table. Slots are never reused: a
/// deleted task keeps its slot, marked `Deleted`.
pub type TaskId = usize;

/// What a `Blocked` task is waiting on. The payload names the primitive by
/// its handle.
#[derive(Clone, Copy, Debug, PartialEq, Eq, Structural)]
pub enum BlockReason {
    /// Waiting in a semaphore's waiter set.
    Sem(usize),
    /// Waiting to acquire a mutex.
    Lock(usize),
    /// Waiting for free space in a full message queue.
    Send(usize),
    /// Waiting for a message from an empty queue.
    Recv(usize),
    /// Sleeping until a tick deadline.
    Sleep,
}

/// Scheduling state of one task. Exactly one task is `Running` at a time.
#[derive(Clone, Copy, Debug, PartialEq, Eq, Structural)]
pub enum TaskState {
    Ready,
    Running,
    Blocked(BlockReason),
    Suspended,
    Deleted,
}

/// Outcome delivered to a task when it next runs after having blocked.
#[derive(Clone, Debug, PartialEq, Eq)]
pub enum WakeStatus {
    /// Not resumed from a block; nothing to deliver.
    NotWoken,
    /// The awaited signal, lock, or queue space arrived.
    Woken,
    /// The block's deadline elapsed before any signal.
    TimedOut,
    /// A message was handed over while the task waited to receive.
    Received(Vec<u8>),
}

/// One task control block.
pub struct Tcb {
    /// Scheduling priority; a lower value runs first.
    pub priority: usize,
    pub state: TaskState,
    /// Tick deadline of a timed block, if any.
    pub deadline: Option<u64>,
    /// Outcome to deliver when the task next runs after a block.
    pub wake: WakeStatus,
    /// Message carried by a sender blocked on a full queue; it is delivered
    /// into the queue when space frees up.
    pub pending_send: Option<Vec<u8>>,
    /// Ticks left in the current time slice; meaningful while `Running`.
    pub slice_left: u32,
    /// Heap handle of the task's stack region.
    pub stack_block: u64,
    /// Size of the stack region, in bytes.
    pub stack_size: usize,
}

} // verus!
