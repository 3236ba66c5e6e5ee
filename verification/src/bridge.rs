//! Network device bridge: two bounded FIFO frame queues between the radio
//! module's producer/consumer callbacks and the host stack's polled
//! device interface. No parsing happens here; frames are opaque byte
//! buffers with a fixed maximum size. A frame arriving at a full queue is
//! dropped and counted, never buffered beyond the fixed capacity.

use vstd::prelude::*;

verus! {

use crate::errors::KError;

/// One bounded FIFO of frames with a maximum frame size and a counter of
/// frames dropped at the full queue.
pub struct FrameQueue {
    pub capacity: usize,
    pub max_frame: usize,
    pub frames: Vec<Vec<u8>>,
    pub dropped: u64,
}

impl FrameQueue {
    pub open spec fn wf(self) -> bool {
        &&& self.capacity >= 1
        &&& self.frames@.len() <= self.capacity as int
        &&& forall|k: int|
            0 <= k < self.frames@.len() ==> (#[trigger] self.frames@[k])@.len()
                <= self.max_frame as int
    }

    pub fn new(capacity: usize, max_frame: usize) -> (r: FrameQueue)
        requires
            capacity >= 1,
        ensures
            r.wf(),
            r.capacity == capacity,
            r.max_frame == max_frame,
            r.frames@.len() == 0,
            r.dropped == 0,
    {
        FrameQueue { capacity, max_frame, frames: Vec::new(), dropped: 0 }
    }

    /// Append a frame. An oversize frame is rejected; a full queue drops
    /// the frame and counts it; neither corrupts the queued frames.
    pub fn try_push(&mut self, frame: Vec<u8>) -> (r: Result<(), KError>)
        requires
            old(self).wf(),
        ensures
            final(self).wf(),
            final(self).capacity == old(self).capacity,
            final(self).max_frame == old(self).max_frame,
            frame@.len() > old(self).max_frame ==> r == Err::<(), KError>(KError::BadSize)
                && final(self).frames@ == old(self).frames@ && final(self).dropped == old(
                self,
            ).dropped,
            frame@.len() <= old(self).max_frame && old(self).frames@.len() >= old(
                self,
            ).capacity ==> r == Err::<(), KError>(KError::WouldBlock) && final(self).frames@
                == old(self).frames@ && final(self).dropped == (if old(self).dropped < u64::MAX {
                old(self).dropped + 1
            } else {
                old(self).dropped as int
            }),
            frame@.len() <= old(self).max_frame && old(self).frames@.len() < old(
                self,
            ).capacity ==> r is Ok && final(self).frames@ == old(self).frames@.push(frame)
                && final(self).dropped == old(self).dropped,
    {
        if frame.len() > self.max_frame {
            return Err(KError::BadSize);
        }
        if self.frames.len() >= self.capacity {
            if self.dropped < u64::MAX {
                self.dropped = self.dropped + 1;
            }
            return Err(KError::WouldBlock);
        }
        self.frames.push(frame);
        Ok(())
    }

    /// Remove and return the oldest frame, if any: FIFO order.
    pub fn pop(&mut self) -> (r: Option<Vec<u8>>)
        requires
            old(self).wf(),
        ensures
            final(self).wf(),
            final(self).capacity == old(self).capacity,
            final(self).max_frame == old(self).max_frame,
            final(self).dropped == old(self).dropped,
            old(self).frames@.len() == 0 ==> r is None && final(self).frames@ == old(
                self,
            ).frames@,
            old(self).frames@.len() > 0 ==> (r matches Some(f) && f@ == old(self).frames@[0]@)
                && final(self).frames@ == old(self).frames@.drop_first(),
    {
        if self.frames.len() == 0 {
            return None;
        }
        let f = self.frames.remove(0);
        Some(f)
    }

    /// Number of frames waiting.
    pub fn len(&self) -> (r: usize)
        ensures
            r as int == self.frames@.len(),
    {
        self.frames.len()
    }

    /// Frames dropped at the full queue so far.
    pub fn dropped_count(&self) -> (r: u64)
        ensures
            r == self.dropped,
    {
        self.dropped
    }
}

/// The bridge proper: the module produces inbound frames and consumes
/// outbound ones; host networking code does the reverse, polling.
pub struct NetBridge {
    pub inbound: FrameQueue,
    pub outbound: FrameQueue,
}

impl NetBridge {
    pub open spec fn wf(self) -> bool {
        self.inbound.wf() && self.outbound.wf()
    }

    pub fn new(in_capacity: usize, out_capacity: usize, max_frame: usize) -> (r: NetBridge)
        requires
            in_capacity >= 1,
            out_capacity >= 1,
        ensures
            r.wf(),
            r.inbound.frames@.len() == 0,
            r.outbound.frames@.len() == 0,
            r.inbound.capacity == in_capacity,
            r.outbound.capacity == out_capacity,
            r.inbound.max_frame == max_frame,
            r.outbound.max_frame == max_frame,
    {
        NetBridge {
            inbound: FrameQueue::new(in_capacity, max_frame),
            outbound: FrameQueue::new(out_capacity, max_frame),
        }
    }

    /// Host side: queue a frame for the module to send. A full outbound
    /// queue is backpressure: the caller retries later; nothing blocks.
    pub fn transmit(&mut self, frame: Vec<u8>) -> (r: Result<(), KError>)
        requires
            old(self).wf(),
        ensures
            final(self).wf(),
            final(self).inbound == old(self).inbound,
            frame@.len() > old(self).outbound.max_frame ==> r == Err::<(), KError>(
                KError::BadSize,
            ) && final(self).outbound.frames@ == old(self).outbound.frames@,
            frame@.len() <= old(self).outbound.max_frame && old(self).outbound.frames@.len()
                >= old(self).outbound.capacity ==> r == Err::<(), KError>(KError::WouldBlock)
                && final(self).outbound.frames@ == old(self).outbound.frames@,
            frame@.len() <= old(self).outbound.max_frame && old(self).outbound.frames@.len()
                < old(self).outbound.capacity ==> r is Ok && final(self).outbound.frames@ == old(
                self,
            ).outbound.frames@.push(frame),
    {
        self.outbound.try_push(frame)
    }

    /// Host side: poll for the oldest received frame, non-blocking.
    pub fn receive(&mut self) -> (r: Option<Vec<u8>>)
        requires
            old(self).wf(),
        ensures
            final(self).wf(),
            final(self).outbound == old(self).outbound,
            old(self).inbound.frames@.len() == 0 ==> r is None && final(self).inbound.frames@
                == old(self).inbound.frames@,
            old(self).inbound.frames@.len() > 0 ==> (r matches Some(f) && f@ == old(
                self,
            ).inbound.frames@[0]@) && final(self).inbound.frames@ == old(
                self,
            ).inbound.frames@.drop_first(),
    {
        self.inbound.pop()
    }

    /// Host side: whether a received frame is waiting — the device-ready
    /// indicator the polling stack reads.
    pub fn rx_ready(&self) -> (r: bool)
        ensures
            r == (self.inbound.frames@.len() > 0),
    {
        self.inbound.len() > 0
    }

    /// Module side: the frame-received callback, runnable from interrupt
    /// context. A frame that fits and finds capacity is queued in FIFO
    /// order; at a full queue it is dropped silently and counted.
    pub fn inbound_frame(&mut self, frame: Vec<u8>)
        requires
            old(self).wf(),
        ensures
            final(self).wf(),
            final(self).outbound == old(self).outbound,
            frame@.len() > old(self).inbound.max_frame ==> final(self).inbound.frames@ == old(
                self,
            ).inbound.frames@ && final(self).inbound.dropped == old(self).inbound.dropped,
            frame@.len() <= old(self).inbound.max_frame && old(self).inbound.frames@.len() >= old(
                self,
            ).inbound.capacity ==> final(self).inbound.frames@ == old(self).inbound.frames@
                && final(self).inbound.dropped == (if old(self).inbound.dropped < u64::MAX {
                old(self).inbound.dropped + 1
            } else {
                old(self).inbound.dropped as int
            }),
            frame@.len() <= old(self).inbound.max_frame && old(self).inbound.frames@.len() < old(
                self,
            ).inbound.capacity ==> final(self).inbound.frames@ == old(
                self,
            ).inbound.frames@.push(frame) && final(self).inbound.dropped == old(
                self,
            ).inbound.dropped,
    {
        let _accepted = self.inbound.try_push(frame);
    }

    /// Module side: pull the oldest frame queued for transmission.
    pub fn outbound_frame(&mut self) -> (r: Option<Vec<u8>>)
        requires
            old(self).wf(),
        ensures
            final(self).wf(),
            final(self).inbound == old(self).inbound,
            old(self).outbound.frames@.len() == 0 ==> r is None && final(self).outbound.frames@
                == old(self).outbound.frames@,
            old(self).outbound.frames@.len() > 0 ==> (r matches Some(f) && f@ == old(
                self,
            ).outbound.frames@[0]@) && final(self).outbound.frames@ == old(
                self,
            ).outbound.frames@.drop_first(),
    {
        self.outbound.pop()
    }

    /// Inbound frames dropped at the full queue so far: the statistic the
    /// silent drops are counted into.
    pub fn dropped_inbound(&self) -> (r: u64)
        ensures
            r == self.inbound.dropped,
    {
        self.inbound.dropped_count()
    }
}

} // verus!
