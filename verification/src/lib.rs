//! Compatibility core for hosting a pre-built, preemptive-RTOS-shaped radio
//! module: a priority scheduler with task blocking, semaphore/mutex/queue
//! emulation, a monotonic tick/millisecond clock, a heap shim, a bounded
//! network-frame bridge, and a polled connection-state facade.
//!
//! Hardware effects (interrupt masking, register save/restore, timer and
//! UART registers) live at the integration boundary; this crate holds the
//! scheduling and bookkeeping logic those effects drive.

use vstd::prelude::*;

pub mod bridge;
pub mod clock;
pub mod errors;
pub mod facade;
pub mod heap;
pub mod kernel;
pub mod task;

verus! {

/// Handle naming the console byte sink. Actually pushing a byte out of the
/// UART is a hardware register write done by the integration layer; nothing
/// about it is modelled here.
pub struct Uart;

} // verus!
