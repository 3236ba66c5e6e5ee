//! Error codes returned across the compatibility ABI. Resource exhaustion
//! and timeouts are recoverable; contract violations are reported loudly as
//! distinct codes rather than silently ignored.

use vstd::prelude::*;

verus! {

/// Typed failure returned by the primitives.
#[derive(Clone, Copy, Debug, PartialEq, Eq, Structural)]
pub enum KError {
    /// Allocation request cannot be satisfied right now (recoverable).
    OutOfMemory,
    /// A handle does not name a live object (semaphore, mutex, queue, block).
    InvalidHandle,
    /// The named task does not exist or is already deleted.
    NoSuchTask,
    /// A task was created at a priority level the scheduler does not have.
    BadPriority,
    /// The task is in a state in which the operation is not allowed.
    InvalidState,
    /// A mutex release was attempted by a task that does not own it.
    NotOwner,
    /// A mutex acquire was attempted by the task that already owns it.
    AlreadyOwner,
    /// A semaphore signal arrived while the count was already at its maximum.
    AtMaxCount,
    /// A non-blocking attempt found the primitive unavailable (full/empty/held).
    WouldBlock,
    /// A message length does not match the queue's fixed message size, or a
    /// frame exceeds the bridge's maximum frame size.
    BadSize,
}

} // verus!
