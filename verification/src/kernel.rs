//! The preemptive scheduler and the synchronization primitives built on its
//! task-blocking mechanism, held together in one explicitly owned kernel
//! value. Hardware context switching (register save/restore) is abstracted
//! behind the state transitions here: marking one task `Running` and the
//! previous one `Ready`/`Blocked` is the scheduling-policy half of a context
//! switch, and the only half that carries logic.

use vstd::prelude::*;

verus! {

use crate::errors::KError;
use crate::heap::Heap;
use crate::task::{BlockReason, TaskId, TaskState, Tcb, WakeStatus};

/// Number of priority levels; level 0 runs first. The radio module's
/// real-time tasks sit at low numbers, host tasks above them.
pub const NPRIO: usize = 8;

/// Alignment given to task stack regions.
pub const STACK_ALIGN: usize = 16;

/// Counting semaphore: a bounded count plus the set of tasks blocked on
/// `take`. The ghost counters record successful `give`s and `take`s for the
/// conservation law.
pub struct Semaphore {
    pub count: u32,
    pub max: u32,
    pub waiters: Vec<TaskId>,
    /// Successful `give`s so far (count bumped or a waiter woken).
    pub gives: Ghost<int>,
    /// Successful `take`s so far (count taken or granted while blocked).
    pub takes: Ghost<int>,
    /// Count the semaphore was created with.
    pub initial: Ghost<int>,
}

/// Binary lock with an owning task and the set of tasks blocked on `lock`.
pub struct Mutex {
    pub owner: Option<TaskId>,
    pub waiters: Vec<TaskId>,
}

/// Fixed-capacity queue of fixed-size messages, with the tasks blocked
/// sending into it while full and the tasks blocked receiving while empty.
pub struct MsgQueue {
    pub capacity: usize,
    pub msg_size: usize,
    pub items: Vec<Vec<u8>>,
    pub send_waiters: Vec<TaskId>,
    pub recv_waiters: Vec<TaskId>,
}

/// What a potentially blocking call did in this step.
#[derive(Clone, Copy, Debug, PartialEq, Eq, Structural)]
pub enum BlockOutcome {
    /// The operation completed immediately.
    Done,
    /// The operation failed immediately with this error.
    Fail(KError),
    /// The caller blocked; its outcome arrives in its wake slot when it is
    /// woken or times out.
    Waiting,
}

/// What a potentially blocking receive did in this step.
#[derive(Clone, Debug, PartialEq, Eq)]
pub enum RecvOutcome {
    /// A message was available immediately.
    Done(Vec<u8>),
    /// The receive failed immediately with this error.
    Fail(KError),
    /// The caller blocked; a message or a timeout arrives in its wake slot.
    Waiting,
}

/// No index occurs twice.
pub open spec fn distinct_seq(s: Seq<TaskId>) -> bool {
    forall|j1: int, j2: int| 0 <= j1 < j2 < s.len() ==> s[j1] != s[j2]
}

/// A vector's abstract length fits in `usize`.
proof fn lemma_vec_len_bound<T>(v: &Vec<T>)
    ensures
        v@.len() <= usize::MAX as int,
{
    assert(vstd::std_specs::vec::spec_vec_len(v) == v@.len());
}

/// Remove the single occurrence of `t` from a waiter list, if present.
fn remove_waiter(w: &mut Vec<TaskId>, t: TaskId) -> (found: bool)
    requires
        distinct_seq(old(w)@),
    ensures
        found <==> old(w)@.contains(t),
        !found ==> *final(w) == *old(w),
        found ==> {
            &&& final(w)@.len() == old(w)@.len() - 1
            &&& !final(w)@.contains(t)
            &&& (forall|x: TaskId| x != t ==> (final(w)@.contains(x) <==> old(w)@.contains(x)))
            &&& (forall|j: int|
                0 <= j < final(w)@.len() ==> old(w)@.contains(#[trigger] final(w)@[j]))
            &&& distinct_seq(final(w)@)
        },
{
    let n = w.len();
    let mut k: usize = 0;
    while k < n && w[k] != t
        invariant
            n == w@.len(),
            k <= n,
            forall|j: int| 0 <= j < k as int ==> w@[j] != t,
        decreases n - k,
    {
        k = k + 1;
    }
    if k < n {
        let ghost pre = w@;
        w.remove(k);
        proof {
            pre.remove_ensures(k as int);
            assert(pre[k as int] == t);
            assert forall|j: int| 0 <= j < w@.len() implies pre.contains(#[trigger] w@[j]) by {
                if j < k as int {
                    assert(w@[j] == pre[j]);
                } else {
                    assert(w@[j] == pre[j + 1]);
                }
            }
            assert(!w@.contains(t)) by {
                if w@.contains(t) {
                    let j = choose|j: int| 0 <= j < w@.len() && w@[j] == t;
                    if j < k as int {
                        assert(pre[j] == t);
                    } else {
                        assert(pre[j + 1] == t);
                        assert(pre[k as int] == pre[j + 1]);
                    }
                }
            }
            assert forall|x: TaskId| x != t implies (w@.contains(x) <==> pre.contains(x)) by {
                if w@.contains(x) {
                    let j = choose|j: int| 0 <= j < w@.len() && w@[j] == x;
                    if j < k as int {
                        assert(pre[j] == x);
                    } else {
                        assert(pre[j + 1] == x);
                    }
                }
                if pre.contains(x) {
                    let j = choose|j: int| 0 <= j < pre.len() && pre[j] == x;
                    if j < k as int {
                        assert(w@[j] == x);
                    } else {
                        assert(j != k as int);
                        assert(w@[j - 1] == x);
                    }
                }
            }
            assert forall|j1: int, j2: int| 0 <= j1 < j2 < w@.len() implies w@[j1] != w@[j2] by {
                let a1: int = if j1 < k as int {
                    j1
                } else {
                    j1 + 1
                };
                let a2: int = if j2 < k as int {
                    j2
                } else {
                    j2 + 1
                };
                assert(w@[j1] == pre[a1]);
                assert(w@[j2] == pre[a2]);
            }
        }
        true
    } else {
        false
    }
}

/// The whole personality layer's state: task table, per-priority FIFO ready
/// queues, the running task, the tick count, the interrupt-enable flag of
/// the critical-section primitive, the boot heap, and the primitive tables.
pub struct Kernel {
    pub tasks: Vec<Tcb>,
    pub ready: Vec<Vec<TaskId>>,
    pub current: Option<TaskId>,
    pub ticks: u64,
    /// Time-slice quantum, in ticks.
    pub slice: u32,
    /// Interrupt delivery state driven by `cs_enter`/`cs_exit`.
    pub ints_enabled: bool,
    pub heap: Heap,
    pub sems: Vec<Semaphore>,
    pub mutexes: Vec<Mutex>,
    pub queues: Vec<MsgQueue>,
}

impl Kernel {
    /// Exactly the task named by `current` is `Running`.
    pub open spec fn wf_current(self) -> bool {
        match self.current {
            Some(c) => (c as int) < self.tasks@.len() && self.tasks@[c as int].state is Running
                && (forall|i: int|
                0 <= i < self.tasks@.len() && (#[trigger] self.tasks@[i]).state is Running ==> i
                    == c as int),
            None => forall|i: int|
                0 <= i < self.tasks@.len() ==> !((#[trigger] self.tasks@[i]).state is Running),
        }
    }

    /// The ready queues hold exactly the `Ready` tasks, each once, in the
    /// queue of its own priority.
    pub open spec fn wf_ready(self) -> bool {
        &&& self.ready@.len() == NPRIO as int
        &&& (forall|p: int, j: int|
            0 <= p < NPRIO as int && 0 <= j < self.ready@[p]@.len() ==> {
                let t = (#[trigger] self.ready@[p]@[j]) as int;
                &&& t < self.tasks@.len()
                &&& self.tasks@[t].state is Ready
                &&& self.tasks@[t].priority as int == p
            })
        &&& (forall|p: int| 0 <= p < NPRIO as int ==> distinct_seq((#[trigger] self.ready@[p])@))
        &&& (forall|i: int|
            0 <= i < self.tasks@.len() && (#[trigger] self.tasks@[i]).state is Ready
                ==> self.ready@[self.tasks@[i].priority as int]@.contains(i as TaskId))
    }

    /// Each member of a waiter set is a valid task blocked for reason `r`,
    /// and no task waits twice.
    pub open spec fn wf_waitset(self, w: Seq<TaskId>, r: BlockReason) -> bool {
        &&& (forall|j: int|
            0 <= j < w.len() ==> (#[trigger] w[j]) < self.tasks@.len() && self.tasks@[w[j] as int].state
                == TaskState::Blocked(r))
        &&& distinct_seq(w)
    }

    /// A blocked task is registered with the primitive its reason names; a
    /// blocked sender carries the message it will deliver.
    pub open spec fn block_registered(self, i: int, r: BlockReason) -> bool {
        match r {
            BlockReason::Sem(s) => (s as int) < self.sems@.len() && self.sems@[s as int].waiters@.contains(
                i as TaskId,
            ),
            BlockReason::Lock(m) => (m as int) < self.mutexes@.len()
                && self.mutexes@[m as int].waiters@.contains(i as TaskId),
            BlockReason::Send(q) => (q as int) < self.queues@.len()
                && self.queues@[q as int].send_waiters@.contains(i as TaskId) && (
            self.tasks@[i].pending_send matches Some(msg) && msg@.len()
                == self.queues@[q as int].msg_size as int),
            BlockReason::Recv(q) => (q as int) < self.queues@.len()
                && self.queues@[q as int].recv_waiters@.contains(i as TaskId),
            BlockReason::Sleep => self.tasks@[i].deadline is Some,
        }
    }

    pub open spec fn wf_task_at(self, i: int) -> bool {
        let t = self.tasks@[i];
        &&& (t.priority as int) < NPRIO as int
        &&& (t.state matches TaskState::Blocked(r) ==> self.block_registered(i, r))
        &&& (!(t.state is Deleted) ==> self.heap.has_block(t.stack_block))
    }

    pub open spec fn wf_sem_at(self, s: int) -> bool {
        let sem = self.sems@[s];
        &&& sem.count <= sem.max
        &&& self.wf_waitset(sem.waiters@, BlockReason::Sem(s as usize))
        &&& (sem.waiters@.len() > 0 ==> sem.count == 0)
        &&& sem.initial@ >= 0
        &&& sem.gives@ >= 0
        &&& sem.takes@ >= 0
        &&& sem.initial@ + sem.gives@ == sem.takes@ + sem.count
    }

    pub open spec fn wf_mutex_at(self, m: int) -> bool {
        let mx = self.mutexes@[m];
        &&& (mx.owner matches Some(o) ==> (o as int) < self.tasks@.len())
        &&& self.wf_waitset(mx.waiters@, BlockReason::Lock(m as usize))
        &&& (mx.waiters@.len() > 0 ==> mx.owner is Some)
    }

    pub open spec fn wf_queue_at(self, q: int) -> bool {
        let qu = self.queues@[q];
        &&& qu.capacity >= 1
        &&& qu.items@.len() <= qu.capacity as int
        &&& (forall|j: int|
            0 <= j < qu.items@.len() ==> (#[trigger] qu.items@[j])@.len() == qu.msg_size as int)
        &&& self.wf_waitset(qu.send_waiters@, BlockReason::Send(q as usize))
        &&& self.wf_waitset(qu.recv_waiters@, BlockReason::Recv(q as usize))
        &&& (qu.send_waiters@.len() > 0 ==> qu.items@.len() == qu.capacity as int)
        &&& (qu.recv_waiters@.len() > 0 ==> qu.items@.len() == 0)
    }

    /// Live tasks own their stack regions exclusively.
    pub open spec fn wf_stacks(self) -> bool {
        forall|i1: int, i2: int|
            0 <= i1 < i2 < self.tasks@.len() && !((#[trigger] self.tasks@[i1]).state is Deleted)
                && !((#[trigger] self.tasks@[i2]).state is Deleted)
                ==> self.tasks@[i1].stack_block != self.tasks@[i2].stack_block
    }

    /// The kernel invariant, preserved by every operation.
    pub open spec fn wf(self) -> bool {
        &&& self.wf_current()
        &&& self.wf_ready()
        &&& (forall|i: int| 0 <= i < self.tasks@.len() ==> #[trigger] self.wf_task_at(i))
        &&& (forall|s: int| 0 <= s < self.sems@.len() ==> #[trigger] self.wf_sem_at(s))
        &&& (forall|m: int| 0 <= m < self.mutexes@.len() ==> #[trigger] self.wf_mutex_at(m))
        &&& (forall|q: int| 0 <= q < self.queues@.len() ==> #[trigger] self.wf_queue_at(q))
        &&& self.wf_stacks()
        &&& self.heap.wf()
        &&& self.slice >= 1
    }

    /// Smallest priority level at or after `p` whose ready queue is
    /// non-empty, or `NPRIO` if none is.
    pub open spec fn first_nonempty_from(self, p: int) -> int
        decreases NPRIO as int - p,
    {
        if p < 0 || p >= NPRIO as int {
            NPRIO as int
        } else if self.ready@[p]@.len() > 0 {
            p
        } else {
            self.first_nonempty_from(p + 1)
        }
    }

    /// The task the scheduler selects next: the front of the first
    /// non-empty ready queue (highest priority, FIFO within the level).
    pub open spec fn pick(self) -> Option<TaskId> {
        let p = self.first_nonempty_from(0);
        if p == NPRIO as int {
            None
        } else {
            Some(self.ready@[p]@[0])
        }
    }

    /// No Ready task outranks the Running one: the scheduling-decision
    /// property that holds at every decision point.
    pub open spec fn decision_respects_priority(self) -> bool {
        self.current matches Some(c) ==> forall|i: int|
            0 <= i < self.tasks@.len() && (#[trigger] self.tasks@[i]).state is Ready
                ==> self.tasks@[i].priority >= self.tasks@[c as int].priority
    }

    proof fn lemma_first_nonempty(self, p: int)
        requires
            0 <= p <= NPRIO as int,
        ensures
            p <= self.first_nonempty_from(p) <= NPRIO as int,
            forall|q: int|
                p <= q < self.first_nonempty_from(p) ==> (#[trigger] self.ready@[q])@.len() == 0,
            self.first_nonempty_from(p) < NPRIO as int ==> self.ready@[self.first_nonempty_from(
                p,
            )]@.len() > 0,
        decreases NPRIO as int - p,
    {
        if p < NPRIO as int && self.ready@[p]@.len() == 0 {
            self.lemma_first_nonempty(p + 1);
        }
    }

    /// Scheduling law: whenever there is a task to pick, the pick is a Ready
    /// task, no Ready task has a strictly higher priority (lower level), and
    /// within its priority level the pick is the task that has been Ready
    /// longest — the front of that level's FIFO queue.
    pub proof fn lemma_pick_is_highest(self)
        requires
            self.wf(),
            self.pick() is Some,
        ensures
            ({
                let c = self.pick().unwrap() as int;
                &&& 0 <= c < self.tasks@.len()
                &&& self.tasks@[c].state is Ready
                &&& (forall|i: int|
                    0 <= i < self.tasks@.len() && (#[trigger] self.tasks@[i]).state is Ready
                        ==> self.tasks@[i].priority >= self.tasks@[c].priority)
                &&& self.ready@[self.tasks@[c].priority as int]@[0] == self.pick().unwrap()
            }),
    {
        self.lemma_first_nonempty(0);
        let p = self.first_nonempty_from(0);
        let c = self.pick().unwrap() as int;
        assert(self.ready@[p]@[0] == self.pick().unwrap());
        assert(self.tasks@[c].priority as int == p);
        assert forall|i: int|
            0 <= i < self.tasks@.len() && (#[trigger] self.tasks@[i]).state is Ready implies
            self.tasks@[i].priority >= self.tasks@[c].priority by {
            let pi = self.tasks@[i].priority as int;
            assert(self.ready@[pi]@.contains(i as TaskId));
            if pi < p {
                assert(self.ready@[pi]@.len() == 0);
            }
        }
    }

    /// First priority level with a Ready task, if any.
    fn find_ready(&self) -> (r: Option<usize>)
        requires
            self.wf(),
        ensures
            r matches Some(p) ==> (p as int) == self.first_nonempty_from(0) && (p as int)
                < NPRIO as int && self.ready@[p as int]@.len() > 0,
            r is None ==> self.first_nonempty_from(0) == NPRIO as int && self.pick() is None,
            r is Some <==> self.pick() is Some,
    {
        let mut p: usize = 0;
        while p < NPRIO
            invariant
                p <= NPRIO,
                self.wf(),
                forall|q: int| 0 <= q < p as int ==> (#[trigger] self.ready@[q])@.len() == 0,
            decreases NPRIO - p,
        {
            if self.ready[p].len() > 0 {
                proof {
                    self.lemma_first_nonempty(0);
                    let pstar = self.first_nonempty_from(0);
                    if pstar < p as int {
                        assert(self.ready@[pstar]@.len() == 0);
                    }
                    if pstar > p as int {
                        assert(self.ready@[p as int]@.len() == 0);
                    }
                }
                return Some(p);
            }
            p = p + 1;
        }
        proof {
            self.lemma_first_nonempty(0);
            let pstar = self.first_nonempty_from(0);
            if pstar < NPRIO as int {
                assert(self.ready@[pstar]@.len() == 0);
            }
        }
        None
    }

    /// Append `t` to the ready queue of its priority. Only the queue is
    /// touched; the caller is responsible for `t`'s state.
    fn push_ready(&mut self, t: TaskId)
        requires
            old(self).ready@.len() == NPRIO as int,
            (t as int) < old(self).tasks@.len(),
            (old(self).tasks@[t as int].priority as int) < NPRIO as int,
        ensures
            ({
                let p = old(self).tasks@[t as int].priority as int;
                &&& final(self).ready@.len() == NPRIO as int
                &&& final(self).ready@[p]@ == old(self).ready@[p]@.push(t)
                &&& (forall|q: int|
                    0 <= q < NPRIO as int && q != p ==> (#[trigger] final(self).ready@[q])
                        == old(self).ready@[q])
                &&& final(self).tasks@ == old(self).tasks@
                &&& final(self).current == old(self).current
                &&& final(self).ticks == old(self).ticks
                &&& final(self).slice == old(self).slice
                &&& final(self).ints_enabled == old(self).ints_enabled
                &&& final(self).heap == old(self).heap
                &&& final(self).sems@ == old(self).sems@
                &&& final(self).mutexes@ == old(self).mutexes@
                &&& final(self).queues@ == old(self).queues@
            }),
    {
        let p = self.tasks[t].priority;
        self.ready[p].push(t);
    }

    /// A kernel with no tasks yet: all queues empty, interrupts enabled,
    /// the heap claiming a fresh region of `heap_capacity` bytes.
    pub fn new(heap_capacity: usize, slice: u32) -> (k: Kernel)
        requires
            slice >= 1,
        ensures
            k.wf(),
            k.tasks@.len() == 0,
            k.current is None,
            k.ticks == 0,
            k.ints_enabled,
            k.slice == slice,
            k.sems@.len() == 0,
            k.mutexes@.len() == 0,
            k.queues@.len() == 0,
            k.heap.capacity == heap_capacity,
            k.heap.used == 0,
    {
        let mut ready: Vec<Vec<TaskId>> = Vec::new();
        let mut p: usize = 0;
        while p < NPRIO
            invariant
                p <= NPRIO,
                ready@.len() == p as int,
                forall|q: int| 0 <= q < p as int ==> (#[trigger] ready@[q])@.len() == 0,
            decreases NPRIO - p,
        {
            ready.push(Vec::new());
            p = p + 1;
        }
        Kernel {
            tasks: Vec::new(),
            ready,
            current: None,
            ticks: 0,
            slice,
            ints_enabled: true,
            heap: Heap::new(heap_capacity),
            sems: Vec::new(),
            mutexes: Vec::new(),
            queues: Vec::new(),
        }
    }

    /// Enter a critical section: mask interrupt delivery and hand back the
    /// previous enable state as the token for the matching `cs_exit`.
    /// Nesting is the caller's business; an inner section receives a `false`
    /// token and restores `false`.
    pub fn cs_enter(&mut self) -> (tok: bool)
        requires
            old(self).wf(),
        ensures
            final(self).wf(),
            tok == old(self).ints_enabled,
            !final(self).ints_enabled,
            *final(self) == (Kernel { ints_enabled: false, ..*old(self) }),
    {
        let tok = self.ints_enabled;
        self.ints_enabled = false;
        proof {
            Self::lemma_wf_same_core(*old(self), *self);
        }
        tok
    }

    /// Leave a critical section, restoring the interrupt-enable state the
    /// matching `cs_enter` returned.
    pub fn cs_exit(&mut self, tok: bool)
        requires
            old(self).wf(),
        ensures
            final(self).wf(),
            final(self).ints_enabled == tok,
            *final(self) == (Kernel { ints_enabled: tok, ..*old(self) }),
    {
        self.ints_enabled = tok;
        proof {
            Self::lemma_wf_same_core(*old(self), *self);
        }
    }

    /// The invariant only reads the task table, the queues, the primitive
    /// tables, the heap and the quantum; two kernels agreeing there are
    /// equally well formed.
    proof fn lemma_wf_same_core(a: Kernel, b: Kernel)
        requires
            a.wf(),
            b.tasks@ == a.tasks@,
            b.ready@ == a.ready@,
            b.current == a.current,
            b.heap == a.heap,
            b.sems@ == a.sems@,
            b.mutexes@ == a.mutexes@,
            b.queues@ == a.queues@,
            b.slice == a.slice,
        ensures
            b.wf(),
    {
        assert forall|i: int| 0 <= i < b.tasks@.len() implies #[trigger] b.wf_task_at(i) by {
            assert(a.wf_task_at(i));
        }
        assert forall|s: int| 0 <= s < b.sems@.len() implies #[trigger] b.wf_sem_at(s) by {
            assert(a.wf_sem_at(s));
            assert(b.sems@[s] == a.sems@[s]);
        }
        assert forall|m: int| 0 <= m < b.mutexes@.len() implies #[trigger] b.wf_mutex_at(m) by {
            assert(a.wf_mutex_at(m));
            assert(b.mutexes@[m] == a.mutexes@[m]);
        }
        assert forall|q: int| 0 <= q < b.queues@.len() implies #[trigger] b.wf_queue_at(q) by {
            assert(a.wf_queue_at(q));
            assert(b.queues@[q] == a.queues@[q]);
        }
    }

    /// Replacing one TCB with a copy whose scheduling-relevant fields are
    /// untouched (only the wake slot, deadline, or remaining slice differ)
    /// keeps the kernel invariant.
    proof fn lemma_wf_tcb_update(pre: Kernel, post: Kernel, t: int)
        requires
            pre.wf(),
            0 <= t < pre.tasks@.len(),
            post.tasks@.len() == pre.tasks@.len(),
            post.tasks@ == pre.tasks@.update(t, post.tasks@[t]),
            post.tasks@[t].state == pre.tasks@[t].state,
            post.tasks@[t].priority == pre.tasks@[t].priority,
            post.tasks@[t].pending_send == pre.tasks@[t].pending_send,
            post.tasks@[t].stack_block == pre.tasks@[t].stack_block,
            pre.tasks@[t].state == TaskState::Blocked(BlockReason::Sleep)
                ==> post.tasks@[t].deadline is Some,
            post.ready@ == pre.ready@,
            post.current == pre.current,
            post.heap == pre.heap,
            post.sems@ == pre.sems@,
            post.mutexes@ == pre.mutexes@,
            post.queues@ == pre.queues@,
            post.slice == pre.slice,
        ensures
            post.wf(),
    {
        assert forall|i: int| 0 <= i < post.tasks@.len() implies #[trigger] post.wf_task_at(
            i,
        ) by {
            assert(pre.wf_task_at(i));
        }
        assert forall|s: int| 0 <= s < post.sems@.len() implies #[trigger] post.wf_sem_at(s) by {
            assert(pre.wf_sem_at(s));
            assert forall|j: int| 0 <= j < post.sems@[s].waiters@.len() implies (
            #[trigger] post.sems@[s].waiters@[j]) < post.tasks@.len()
                && post.tasks@[post.sems@[s].waiters@[j] as int].state == TaskState::Blocked(
                BlockReason::Sem(s as usize),
            ) by {
                let w = post.sems@[s].waiters@[j];
                assert(pre.tasks@[w as int].state == TaskState::Blocked(
                    BlockReason::Sem(s as usize),
                ));
            }
        }
        assert forall|m: int| 0 <= m < post.mutexes@.len() implies #[trigger] post.wf_mutex_at(
            m,
        ) by {
            assert(pre.wf_mutex_at(m));
            assert forall|j: int| 0 <= j < post.mutexes@[m].waiters@.len() implies (
            #[trigger] post.mutexes@[m].waiters@[j]) < post.tasks@.len()
                && post.tasks@[post.mutexes@[m].waiters@[j] as int].state == TaskState::Blocked(
                BlockReason::Lock(m as usize),
            ) by {
                let w = post.mutexes@[m].waiters@[j];
                assert(pre.tasks@[w as int].state == TaskState::Blocked(
                    BlockReason::Lock(m as usize),
                ));
            }
        }
        assert forall|q: int| 0 <= q < post.queues@.len() implies #[trigger] post.wf_queue_at(
            q,
        ) by {
            assert(pre.wf_queue_at(q));
            assert forall|j: int| 0 <= j < post.queues@[q].send_waiters@.len() implies (
            #[trigger] post.queues@[q].send_waiters@[j]) < post.tasks@.len()
                && post.tasks@[post.queues@[q].send_waiters@[j] as int].state
                == TaskState::Blocked(BlockReason::Send(q as usize)) by {
                let w = post.queues@[q].send_waiters@[j];
                assert(pre.tasks@[w as int].state == TaskState::Blocked(
                    BlockReason::Send(q as usize),
                ));
            }
            assert forall|j: int| 0 <= j < post.queues@[q].recv_waiters@.len() implies (
            #[trigger] post.queues@[q].recv_waiters@[j]) < post.tasks@.len()
                && post.tasks@[post.queues@[q].recv_waiters@[j] as int].state
                == TaskState::Blocked(BlockReason::Recv(q as usize)) by {
                let w = post.queues@[q].recv_waiters@[j];
                assert(pre.tasks@[w as int].state == TaskState::Blocked(
                    BlockReason::Recv(q as usize),
                ));
            }
        }
        assert forall|p: int, j: int|
            0 <= p < NPRIO as int && 0 <= j < post.ready@[p]@.len() implies {
            let tt = (#[trigger] post.ready@[p]@[j]) as int;
            &&& tt < post.tasks@.len()
            &&& post.tasks@[tt].state is Ready
            &&& post.tasks@[tt].priority as int == p
        } by {
            let tt = post.ready@[p]@[j] as int;
            assert(pre.tasks@[tt].state is Ready && pre.tasks@[tt].priority as int == p);
        }
        assert forall|i: int|
            0 <= i < post.tasks@.len() && (#[trigger] post.tasks@[i]).state is Ready implies
            post.ready@[post.tasks@[i].priority as int]@.contains(i as TaskId) by {
            assert(pre.tasks@[i].state is Ready);
            assert(pre.ready@[pre.tasks@[i].priority as int]@.contains(i as TaskId));
        }
    }

    /// The primitive tables stay well formed as long as they and every
    /// blocked task are untouched.
    proof fn lemma_prims_wf_kept(pre: Kernel, post: Kernel)
        requires
            pre.wf(),
            post.sems@ == pre.sems@,
            post.mutexes@ == pre.mutexes@,
            post.queues@ == pre.queues@,
            pre.tasks@.len() <= post.tasks@.len(),
            forall|i: int|
                0 <= i < pre.tasks@.len() && (#[trigger] pre.tasks@[i]).state is Blocked
                    ==> post.tasks@[i] == pre.tasks@[i],
        ensures
            forall|s: int| 0 <= s < post.sems@.len() ==> #[trigger] post.wf_sem_at(s),
            forall|m: int| 0 <= m < post.mutexes@.len() ==> #[trigger] post.wf_mutex_at(m),
            forall|q: int| 0 <= q < post.queues@.len() ==> #[trigger] post.wf_queue_at(q),
    {
        assert forall|s: int| 0 <= s < post.sems@.len() implies #[trigger] post.wf_sem_at(s) by {
            assert(pre.wf_sem_at(s));
            assert(post.sems@[s] == pre.sems@[s]);
            assert forall|j: int| 0 <= j < post.sems@[s].waiters@.len() implies (
            #[trigger] post.sems@[s].waiters@[j]) < post.tasks@.len()
                && post.tasks@[post.sems@[s].waiters@[j] as int].state == TaskState::Blocked(
                BlockReason::Sem(s as usize),
            ) by {
                let w = post.sems@[s].waiters@[j];
                assert(pre.tasks@[w as int].state == TaskState::Blocked(
                    BlockReason::Sem(s as usize),
                ));
            }
        }
        assert forall|m: int| 0 <= m < post.mutexes@.len() implies #[trigger] post.wf_mutex_at(
            m,
        ) by {
            assert(pre.wf_mutex_at(m));
            assert(post.mutexes@[m] == pre.mutexes@[m]);
            assert forall|j: int| 0 <= j < post.mutexes@[m].waiters@.len() implies (
            #[trigger] post.mutexes@[m].waiters@[j]) < post.tasks@.len()
                && post.tasks@[post.mutexes@[m].waiters@[j] as int].state == TaskState::Blocked(
                BlockReason::Lock(m as usize),
            ) by {
                let w = post.mutexes@[m].waiters@[j];
                assert(pre.tasks@[w as int].state == TaskState::Blocked(
                    BlockReason::Lock(m as usize),
                ));
            }
        }
        assert forall|q: int| 0 <= q < post.queues@.len() implies #[trigger] post.wf_queue_at(
            q,
        ) by {
            assert(pre.wf_queue_at(q));
            assert(post.queues@[q] == pre.queues@[q]);
            assert forall|j: int| 0 <= j < post.queues@[q].send_waiters@.len() implies (
            #[trigger] post.queues@[q].send_waiters@[j]) < post.tasks@.len()
                && post.tasks@[post.queues@[q].send_waiters@[j] as int].state
                == TaskState::Blocked(BlockReason::Send(q as usize)) by {
                let w = post.queues@[q].send_waiters@[j];
                assert(pre.tasks@[w as int].state == TaskState::Blocked(
                    BlockReason::Send(q as usize),
                ));
            }
            assert forall|j: int| 0 <= j < post.queues@[q].recv_waiters@.len() implies (
            #[trigger] post.queues@[q].recv_waiters@[j]) < post.tasks@.len()
                && post.tasks@[post.queues@[q].recv_waiters@[j] as int].state
                == TaskState::Blocked(BlockReason::Recv(q as usize)) by {
                let w = post.queues@[q].recv_waiters@[j];
                assert(pre.tasks@[w as int].state == TaskState::Blocked(
                    BlockReason::Recv(q as usize),
                ));
            }
        }
    }

    /// After the running task `c` has been parked (made Ready and queued,
    /// or blocked and registered with exactly one primitive), the remaining
    /// invariant clauses that do not concern `c`'s new home still hold.
    proof fn lemma_wf_after_park(pre: Kernel, post: Kernel, c: int)
        requires
            pre.wf(),
            pre.current == Some(c as TaskId),
            0 <= c < pre.tasks@.len(),
            post.tasks@.len() == pre.tasks@.len(),
            post.current is None,
            post.tasks@ == pre.tasks@.update(c, post.tasks@[c]),
            !(post.tasks@[c].state is Running),
            !(post.tasks@[c].state is Deleted),
            post.tasks@[c].priority == pre.tasks@[c].priority,
            post.tasks@[c].stack_block == pre.tasks@[c].stack_block,
            post.heap == pre.heap,
            post.slice == pre.slice,
        ensures
            post.wf_current(),
            post.wf_stacks(),
            post.heap.wf(),
    {
        assert(vstd::std_specs::vec::spec_vec_len(&pre.tasks) == pre.tasks@.len());
        assert(pre.tasks@[c].state is Running);
        assert forall|i: int| 0 <= i < post.tasks@.len() implies !((
        #[trigger] post.tasks@[i]).state is Running) by {
            if i != c {
                assert(post.tasks@[i] == pre.tasks@[i]);
                if pre.tasks@[i].state is Running {
                    assert(i == c);
                }
            }
        }
        assert forall|i1: int, i2: int|
            0 <= i1 < i2 < post.tasks@.len() && !((#[trigger] post.tasks@[i1]).state is Deleted)
                && !((#[trigger] post.tasks@[i2]).state is Deleted) implies post.tasks@[i1].stack_block
            != post.tasks@[i2].stack_block by {
            assert(!(pre.tasks@[i1].state is Deleted) || i1 == c);
            assert(!(pre.tasks@[i2].state is Deleted) || i2 == c);
        }
    }

    /// Collect the outcome a block delivered to task `t`, clearing the slot.
    pub fn take_wake(&mut self, t: TaskId) -> (r: WakeStatus)
        requires
            old(self).wf(),
            (t as int) < old(self).tasks@.len(),
        ensures
            final(self).wf(),
            r == old(self).tasks@[t as int].wake,
            final(self).tasks@ == old(self).tasks@.update(
                t as int,
                final(self).tasks@[t as int],
            ),
            (final(self).tasks@[t as int] == (Tcb {
                wake: WakeStatus::NotWoken,
                ..old(self).tasks@[t as int]
            })),
            final(self).ready@ == old(self).ready@,
            final(self).current == old(self).current,
            final(self).ticks == old(self).ticks,
            final(self).heap == old(self).heap,
            final(self).sems@ == old(self).sems@,
            final(self).mutexes@ == old(self).mutexes@,
            final(self).queues@ == old(self).queues@,
    {
        let mut r = WakeStatus::NotWoken;
        core::mem::swap(&mut r, &mut self.tasks[t].wake);
        proof {
            assert(self.tasks@ == old(self).tasks@.update(t as int, self.tasks@[t as int]));
            assert(self.tasks@[t as int].state == old(self).tasks@[t as int].state);
            assert(old(self).wf_task_at(t as int));
            assert(self.tasks@[t as int].deadline == old(self).tasks@[t as int].deadline);
            Self::lemma_wf_tcb_update(*old(self), *self, t as int);
        }
        r
    }

    /// Create a task: reserve its stack from the heap and enqueue it Ready
    /// at `priority`. Fails recoverably when the heap cannot carry the
    /// stack; a priority outside the supported levels is a contract
    /// violation.
    pub fn spawn(&mut self, priority: usize, stack_size: usize) -> (r: Result<TaskId, KError>)
        requires
            old(self).wf(),
        ensures
            final(self).wf(),
            final(self).current == old(self).current,
            final(self).ticks == old(self).ticks,
            final(self).ints_enabled == old(self).ints_enabled,
            final(self).sems@ == old(self).sems@,
            final(self).mutexes@ == old(self).mutexes@,
            final(self).queues@ == old(self).queues@,
            (priority as int) >= NPRIO as int ==> r == Err::<TaskId, KError>(KError::BadPriority)
                && *final(self) == *old(self),
            (priority as int) < NPRIO as int ==> {
                &&& (r is Ok <==> (old(self).heap.used + stack_size <= old(self).heap.capacity
                    && old(self).heap.next_id < u64::MAX))
                &&& (r is Err ==> r == Err::<TaskId, KError>(KError::OutOfMemory) && *final(self)
                    == *old(self))
                &&& (r matches Ok(t) ==> {
                    &&& (t as int) == old(self).tasks@.len()
                    &&& final(self).tasks@.len() == old(self).tasks@.len() + 1
                    &&& (forall|i: int|
                        0 <= i < old(self).tasks@.len() ==> final(self).tasks@[i] == old(self).tasks@[i])
                    &&& final(self).tasks@[t as int].state is Ready
                    &&& final(self).tasks@[t as int].priority == priority
                    &&& final(self).tasks@[t as int].stack_size == stack_size
                    &&& final(self).ready@[priority as int]@ == old(self).ready@[
                        priority as int
                    ]@.push(t)
                    &&& (forall|q: int|
                        0 <= q < NPRIO as int && q != priority as int ==> (#[trigger] final(self).ready@[q]) == old(self).ready@[q])
                    &&& final(self).heap.used == old(self).heap.used + stack_size
                })
            },
    {
        if priority >= NPRIO {
            return Err(KError::BadPriority);
        }
        match self.heap.allocate(stack_size, STACK_ALIGN) {
            None => Err(KError::OutOfMemory),
            Some(id) => {
                let t = self.tasks.len();
                self.tasks.push(
                    Tcb {
                        priority,
                        state: TaskState::Ready,
                        deadline: None,
                        wake: WakeStatus::NotWoken,
                        pending_send: None,
                        slice_left: 0,
                        stack_block: id,
                        stack_size,
                    },
                );
                self.push_ready(t);
                proof {
                    let oldk = *old(self);
                    let ti = t as int;
                    assert forall|i: int| 0 <= i < self.tasks@.len() implies #[trigger] self.wf_task_at(
                        i,
                    ) by {
                        if i < ti {
                            assert(oldk.wf_task_at(i));
                            assert(self.tasks@[i] == oldk.tasks@[i]);
                            if !(oldk.tasks@[i].state is Deleted) {
                                assert(oldk.heap.has_block(oldk.tasks@[i].stack_block));
                                assert(self.heap.has_block(oldk.tasks@[i].stack_block));
                            }
                        }
                    }
                    assert forall|i1: int, i2: int|
                        0 <= i1 < i2 < self.tasks@.len() && !((#[trigger] self.tasks@[i1]).state
                            is Deleted) && !((#[trigger] self.tasks@[i2]).state is Deleted) implies
                        self.tasks@[i1].stack_block != self.tasks@[i2].stack_block by {
                        if i2 == ti {
                            assert(oldk.wf_task_at(i1));
                            assert(oldk.heap.has_block(oldk.tasks@[i1].stack_block));
                        }
                    }
                    assert forall|p: int, j: int|
                        0 <= p < NPRIO as int && 0 <= j < self.ready@[p]@.len() implies {
                        let tt = (#[trigger] self.ready@[p]@[j]) as int;
                        &&& tt < self.tasks@.len()
                        &&& self.tasks@[tt].state is Ready
                        &&& self.tasks@[tt].priority as int == p
                    } by {
                        if p == priority as int && j == self.ready@[p]@.len() - 1 {
                        } else {
                            assert(self.ready@[p]@[j] == oldk.ready@[p]@[j]);
                        }
                    }
                    assert forall|p: int| 0 <= p < NPRIO as int implies distinct_seq(
                        (#[trigger] self.ready@[p])@,
                    ) by {
                        if p == priority as int {
                            assert forall|j1: int, j2: int|
                                0 <= j1 < j2 < self.ready@[p]@.len() implies self.ready@[p]@[j1]
                                != self.ready@[p]@[j2] by {
                                if j2 == self.ready@[p]@.len() - 1 {
                                    assert(self.ready@[p]@[j1] == oldk.ready@[p]@[j1]);
                                    assert((oldk.ready@[p]@[j1] as int) < oldk.tasks@.len());
                                } else {
                                    assert(self.ready@[p]@[j1] == oldk.ready@[p]@[j1]);
                                    assert(self.ready@[p]@[j2] == oldk.ready@[p]@[j2]);
                                }
                            }
                        }
                    }
                    assert forall|i: int|
                        0 <= i < self.tasks@.len() && (#[trigger] self.tasks@[i]).state is Ready
                            implies self.ready@[self.tasks@[i].priority as int]@.contains(
                        i as TaskId,
                    ) by {
                        if i < ti {
                            assert(oldk.wf_task_at(i));
                            let pi = oldk.tasks@[i].priority as int;
                            assert(oldk.ready@[pi]@.contains(i as TaskId));
                            let j = choose|j: int|
                                0 <= j < oldk.ready@[pi]@.len() && oldk.ready@[pi]@[j]
                                    == i as TaskId;
                            assert(self.ready@[pi]@[j] == i as TaskId);
                        } else {
                            assert(self.ready@[priority as int]@[self.ready@[
                                priority as int
                            ]@.len() - 1] == t);
                        }
                    }
                    assert forall|s: int| 0 <= s < self.sems@.len() implies #[trigger] self.wf_sem_at(
                        s,
                    ) by {
                        assert(oldk.wf_sem_at(s));
                        assert forall|j: int| 0 <= j < self.sems@[s].waiters@.len() implies (
                        #[trigger] self.sems@[s].waiters@[j]) < self.tasks@.len()
                            && self.tasks@[self.sems@[s].waiters@[j] as int].state
                            == TaskState::Blocked(BlockReason::Sem(s as usize)) by {
                            let w = self.sems@[s].waiters@[j];
                            assert(oldk.tasks@[w as int].state == TaskState::Blocked(
                                BlockReason::Sem(s as usize),
                            ));
                        }
                    }
                    assert forall|m: int| 0 <= m < self.mutexes@.len() implies #[trigger] self.wf_mutex_at(
                        m,
                    ) by {
                        assert(oldk.wf_mutex_at(m));
                        assert forall|j: int| 0 <= j < self.mutexes@[m].waiters@.len() implies (
                        #[trigger] self.mutexes@[m].waiters@[j]) < self.tasks@.len()
                            && self.tasks@[self.mutexes@[m].waiters@[j] as int].state
                            == TaskState::Blocked(BlockReason::Lock(m as usize)) by {
                            let w = self.mutexes@[m].waiters@[j];
                            assert(oldk.tasks@[w as int].state == TaskState::Blocked(
                                BlockReason::Lock(m as usize),
                            ));
                        }
                    }
                    assert forall|q: int| 0 <= q < self.queues@.len() implies #[trigger] self.wf_queue_at(
                        q,
                    ) by {
                        assert(oldk.wf_queue_at(q));
                        assert forall|j: int| 0 <= j < self.queues@[q].send_waiters@.len() implies (
                        #[trigger] self.queues@[q].send_waiters@[j]) < self.tasks@.len()
                            && self.tasks@[self.queues@[q].send_waiters@[j] as int].state
                            == TaskState::Blocked(BlockReason::Send(q as usize)) by {
                            let w = self.queues@[q].send_waiters@[j];
                            assert(oldk.tasks@[w as int].state == TaskState::Blocked(
                                BlockReason::Send(q as usize),
                            ));
                        }
                        assert forall|j: int| 0 <= j < self.queues@[q].recv_waiters@.len() implies (
                        #[trigger] self.queues@[q].recv_waiters@[j]) < self.tasks@.len()
                            && self.tasks@[self.queues@[q].recv_waiters@[j] as int].state
                            == TaskState::Blocked(BlockReason::Recv(q as usize)) by {
                            let w = self.queues@[q].recv_waiters@[j];
                            assert(oldk.tasks@[w as int].state == TaskState::Blocked(
                                BlockReason::Recv(q as usize),
                            ));
                        }
                    }
                }
                Ok(t)
            },
        }
    }

    /// Pick the highest-priority Ready task, FIFO within a level, remove it
    /// from its queue and mark it Running. The core of every context switch.
    fn dispatch(&mut self)
        requires
            old(self).wf(),
            old(self).current is None,
        ensures
            final(self).wf(),
            final(self).decision_respects_priority(),
            final(self).current == old(self).pick(),
            final(self).tasks@.len() == old(self).tasks@.len(),
            final(self).ticks == old(self).ticks,
            final(self).slice == old(self).slice,
            final(self).ints_enabled == old(self).ints_enabled,
            final(self).heap == old(self).heap,
            final(self).sems@ == old(self).sems@,
            final(self).mutexes@ == old(self).mutexes@,
            final(self).queues@ == old(self).queues@,
            old(self).pick() is None ==> final(self).tasks@ == old(self).tasks@
                && final(self).ready@ == old(self).ready@,
            old(self).pick() matches Some(c) ==> {
                let ci = c as int;
                &&& final(self).tasks@[ci].state is Running
                &&& (final(self).tasks@[ci] == (Tcb {
                    state: TaskState::Running,
                    slice_left: old(self).slice,
                    ..old(self).tasks@[ci]
                }))
                &&& (forall|i: int|
                    0 <= i < old(self).tasks@.len() && i != ci ==> final(self).tasks@[i] == old(self).tasks@[i])
            },
    {
        proof {
            if self.pick() is Some {
                self.lemma_pick_is_highest();
            }
        }
        match self.find_ready() {
            None => {},
            Some(p) => {
                let c = self.ready[p].remove(0);
                self.tasks[c].state = TaskState::Running;
                self.tasks[c].slice_left = self.slice;
                self.current = Some(c);
                proof {
                    let ci = c as int;
                    let oldk = *old(self);
                    assert(oldk.ready@[p as int]@[0] == c);
                    assert(self.ready@[p as int]@ == oldk.ready@[p as int]@.remove(0));
                    oldk.ready@[p as int]@.remove_ensures(0);
                    // The chosen task is in no other queue, so queues still
                    // hold exactly the Ready tasks.
                    assert forall|pp: int, j: int|
                        0 <= pp < NPRIO as int && 0 <= j < self.ready@[pp]@.len() implies {
                        let t = (#[trigger] self.ready@[pp]@[j]) as int;
                        &&& t < self.tasks@.len()
                        &&& self.tasks@[t].state is Ready
                        &&& self.tasks@[t].priority as int == pp
                    } by {
                        if pp == p as int {
                            assert(self.ready@[pp]@[j] == oldk.ready@[pp]@[j + 1]);
                            assert(oldk.ready@[pp]@[j + 1] != oldk.ready@[pp]@[0]);
                        } else {
                            assert(self.ready@[pp]@[j] == oldk.ready@[pp]@[j]);
                            if (self.ready@[pp]@[j] as int) == ci {
                                assert(oldk.tasks@[ci].priority as int == p as int);
                            }
                        }
                    }
                    assert forall|i: int|
                        0 <= i < self.tasks@.len() && (#[trigger] self.tasks@[i]).state is Ready
                            implies self.ready@[self.tasks@[i].priority as int]@.contains(
                        i as TaskId,
                    ) by {
                        assert(oldk.tasks@[i].state is Ready);
                        assert(oldk.wf_task_at(i));
                        let pi = oldk.tasks@[i].priority as int;
                        assert(0 <= pi < NPRIO as int);
                        assert(oldk.ready@[pi]@.contains(i as TaskId));
                        let j = choose|j: int|
                            0 <= j < oldk.ready@[pi]@.len() && oldk.ready@[pi]@[j] == i as TaskId;
                        assert(oldk.ready@[pi]@[j] == i as TaskId);
                        assert(i != ci);
                        if pi == p as int {
                            assert(oldk.ready@[pi]@[0] == c);
                            assert(vstd::std_specs::vec::spec_vec_len(&oldk.tasks)
                                == oldk.tasks@.len());
                            assert((i as TaskId) as int == i);
                            assert(j != 0);
                            assert(self.ready@[pi]@ == oldk.ready@[pi]@.remove(0));
                            assert(self.ready@[pi]@[j - 1] == oldk.ready@[pi]@[j]);
                            assert(self.ready@[pi]@[j - 1] == i as TaskId);
                        } else {
                            assert(self.ready@[pi] == oldk.ready@[pi]);
                            assert(self.ready@[pi]@[j] == i as TaskId);
                        }
                    }
                    assert forall|pp: int| 0 <= pp < NPRIO as int implies distinct_seq(
                        (#[trigger] self.ready@[pp])@,
                    ) by {
                        if pp == p as int {
                            assert forall|j1: int, j2: int|
                                0 <= j1 < j2 < self.ready@[pp]@.len() implies self.ready@[pp]@[j1]
                                != self.ready@[pp]@[j2] by {
                                assert(self.ready@[pp]@[j1] == oldk.ready@[pp]@[j1 + 1]);
                                assert(self.ready@[pp]@[j2] == oldk.ready@[pp]@[j2 + 1]);
                            }
                        }
                    }
                    assert forall|i: int| 0 <= i < self.tasks@.len() implies #[trigger] self.wf_task_at(
                        i,
                    ) by {
                        assert(oldk.wf_task_at(i));
                        if i != ci {
                            assert(self.tasks@[i] == oldk.tasks@[i]);
                        }
                    }
                    assert forall|s: int| 0 <= s < self.sems@.len() implies #[trigger] self.wf_sem_at(
                        s,
                    ) by {
                        assert(oldk.wf_sem_at(s));
                        assert forall|j: int|
                            0 <= j < self.sems@[s].waiters@.len() implies (
                        #[trigger] self.sems@[s].waiters@[j]) < self.tasks@.len()
                            && self.tasks@[self.sems@[s].waiters@[j] as int].state
                            == TaskState::Blocked(BlockReason::Sem(s as usize)) by {
                            let w = self.sems@[s].waiters@[j];
                            assert(oldk.tasks@[w as int].state == TaskState::Blocked(
                                BlockReason::Sem(s as usize),
                            ));
                        }
                    }
                    assert forall|m: int| 0 <= m < self.mutexes@.len() implies #[trigger] self.wf_mutex_at(
                        m,
                    ) by {
                        assert(oldk.wf_mutex_at(m));
                        assert forall|j: int|
                            0 <= j < self.mutexes@[m].waiters@.len() implies (
                        #[trigger] self.mutexes@[m].waiters@[j]) < self.tasks@.len()
                            && self.tasks@[self.mutexes@[m].waiters@[j] as int].state
                            == TaskState::Blocked(BlockReason::Lock(m as usize)) by {
                            let w = self.mutexes@[m].waiters@[j];
                            assert(oldk.tasks@[w as int].state == TaskState::Blocked(
                                BlockReason::Lock(m as usize),
                            ));
                        }
                    }
                    assert forall|q: int| 0 <= q < self.queues@.len() implies #[trigger] self.wf_queue_at(
                        q,
                    ) by {
                        assert(oldk.wf_queue_at(q));
                        assert forall|j: int|
                            0 <= j < self.queues@[q].send_waiters@.len() implies (
                        #[trigger] self.queues@[q].send_waiters@[j]) < self.tasks@.len()
                            && self.tasks@[self.queues@[q].send_waiters@[j] as int].state
                            == TaskState::Blocked(BlockReason::Send(q as usize)) by {
                            let w = self.queues@[q].send_waiters@[j];
                            assert(oldk.tasks@[w as int].state == TaskState::Blocked(
                                BlockReason::Send(q as usize),
                            ));
                        }
                        assert forall|j: int|
                            0 <= j < self.queues@[q].recv_waiters@.len() implies (
                        #[trigger] self.queues@[q].recv_waiters@[j]) < self.tasks@.len()
                            && self.tasks@[self.queues@[q].recv_waiters@[j] as int].state
                            == TaskState::Blocked(BlockReason::Recv(q as usize)) by {
                            let w = self.queues@[q].recv_waiters@[j];
                            assert(oldk.tasks@[w as int].state == TaskState::Blocked(
                                BlockReason::Recv(q as usize),
                            ));
                        }
                    }
                }
            },
        }
    }
    /// True when some Ready task outranks priority level `p`.
    pub open spec fn higher_ready(self, p: int) -> bool {
        exists|q: int| 0 <= q < p && (#[trigger] self.ready@[q])@.len() > 0
    }

    fn has_higher_ready(&self, p: usize) -> (r: bool)
        requires
            self.wf(),
            (p as int) <= NPRIO as int,
        ensures
            r == self.higher_ready(p as int),
    {
        let mut q: usize = 0;
        while q < p
            invariant
                q <= p,
                p <= NPRIO,
                self.wf(),
                forall|qq: int| 0 <= qq < q as int ==> (#[trigger] self.ready@[qq])@.len() == 0,
            decreases p - q,
        {
            if self.ready[q].len() > 0 {
                return true;
            }
            q = q + 1;
        }
        false
    }

    /// Voluntarily give up the processor: the running task goes to the back
    /// of its priority level's FIFO queue and the scheduler picks again.
    pub fn yield_now(&mut self)
        requires
            old(self).wf(),
            old(self).current is Some,
        ensures
            final(self).wf(),
            final(self).decision_respects_priority(),
            final(self).current is Some,
            final(self).tasks@.len() == old(self).tasks@.len(),
            final(self).ticks == old(self).ticks,
            final(self).slice == old(self).slice,
            final(self).ints_enabled == old(self).ints_enabled,
            final(self).heap == old(self).heap,
            final(self).sems@ == old(self).sems@,
            final(self).mutexes@ == old(self).mutexes@,
            final(self).queues@ == old(self).queues@,
            forall|i: int|
                0 <= i < old(self).tasks@.len() ==> {
                    let a = #[trigger] final(self).tasks@[i];
                    let b = old(self).tasks@[i];
                    &&& a.priority == b.priority
                    &&& a.deadline == b.deadline
                    &&& a.wake == b.wake
                    &&& a.pending_send == b.pending_send
                    &&& a.stack_block == b.stack_block
                    &&& a.stack_size == b.stack_size
                    &&& ((b.state is Ready || b.state is Running) ==> (a.state is Ready
                        || a.state is Running))
                    &&& (!(b.state is Ready || b.state is Running) ==> a.state == b.state)
                },
    {
        let c = self.current.unwrap();
        self.tasks[c].state = TaskState::Ready;
        proof {
            assert(old(self).wf_task_at(c as int));
        }
        self.push_ready(c);
        self.current = None;
        proof {
            let oldk = *old(self);
            let ci = c as int;
            let pc = oldk.tasks@[ci].priority as int;
            Self::lemma_wf_after_park(oldk, *self, ci);
            Self::lemma_prims_wf_kept(oldk, *self);
            assert forall|p: int, j: int|
                0 <= p < NPRIO as int && 0 <= j < self.ready@[p]@.len() implies {
                let tt = (#[trigger] self.ready@[p]@[j]) as int;
                &&& tt < self.tasks@.len()
                &&& self.tasks@[tt].state is Ready
                &&& self.tasks@[tt].priority as int == p
            } by {
                if p == pc && j == self.ready@[p]@.len() - 1 {
                } else {
                    assert(self.ready@[p]@[j] == oldk.ready@[p]@[j]);
                    assert((oldk.ready@[p]@[j] as int) != ci);
                }
            }
            assert forall|p: int| 0 <= p < NPRIO as int implies distinct_seq(
                (#[trigger] self.ready@[p])@,
            ) by {
                if p == pc {
                    assert forall|j1: int, j2: int|
                        0 <= j1 < j2 < self.ready@[p]@.len() implies self.ready@[p]@[j1]
                        != self.ready@[p]@[j2] by {
                        if j2 == self.ready@[p]@.len() - 1 {
                            assert(self.ready@[p]@[j1] == oldk.ready@[p]@[j1]);
                            assert((oldk.ready@[p]@[j1] as int) != ci);
                        } else {
                            assert(self.ready@[p]@[j1] == oldk.ready@[p]@[j1]);
                            assert(self.ready@[p]@[j2] == oldk.ready@[p]@[j2]);
                        }
                    }
                }
            }
            assert forall|i: int|
                0 <= i < self.tasks@.len() && (#[trigger] self.tasks@[i]).state is Ready implies
                self.ready@[self.tasks@[i].priority as int]@.contains(i as TaskId) by {
                if i == ci {
                    assert(self.ready@[pc]@[self.ready@[pc]@.len() - 1] == c);
                } else {
                    assert(oldk.tasks@[i].state is Ready);
                    assert(oldk.wf_task_at(i));
                    let pi = oldk.tasks@[i].priority as int;
                    assert(oldk.ready@[pi]@.contains(i as TaskId));
                    let j = choose|j: int|
                        0 <= j < oldk.ready@[pi]@.len() && oldk.ready@[pi]@[j] == i as TaskId;
                    assert(self.ready@[pi]@[j] == i as TaskId);
                }
            }
            assert forall|i: int| 0 <= i < self.tasks@.len() implies #[trigger] self.wf_task_at(
                i,
            ) by {
                assert(oldk.wf_task_at(i));
                if i != ci {
                    assert(self.tasks@[i] == oldk.tasks@[i]);
                }
            }
            assert(self.wf());
            assert(self.ready@[pc]@.contains(c));
            if self.first_nonempty_from(0) == NPRIO as int {
                self.lemma_first_nonempty(0);
                assert(self.ready@[pc]@.len() == 0);
            }
        }
        let ghost mid = *self;
        self.dispatch();
        proof {
            assert(mid.pick() is Some);
            mid.lemma_pick_is_highest();
            assert forall|i: int| 0 <= i < old(self).tasks@.len() implies {
                let a = #[trigger] self.tasks@[i];
                let b = old(self).tasks@[i];
                &&& a.priority == b.priority
                &&& a.deadline == b.deadline
                &&& a.wake == b.wake
                &&& a.pending_send == b.pending_send
                &&& a.stack_block == b.stack_block
                &&& a.stack_size == b.stack_size
                &&& ((b.state is Ready || b.state is Running) ==> (a.state is Ready
                    || a.state is Running))
                &&& (!(b.state is Ready || b.state is Running) ==> a.state == b.state)
            } by {
                let ci = c as int;
                if i != ci {
                    assert(mid.tasks@[i] == old(self).tasks@[i]);
                } else {
                    assert(mid.tasks@[ci].priority == old(self).tasks@[ci].priority);
                    assert(mid.tasks@[ci].deadline == old(self).tasks@[ci].deadline);
                    assert(mid.tasks@[ci].wake == old(self).tasks@[ci].wake);
                    assert(mid.tasks@[ci].pending_send == old(self).tasks@[ci].pending_send);
                    assert(mid.tasks@[ci].stack_block == old(self).tasks@[ci].stack_block);
                    assert(mid.tasks@[ci].stack_size == old(self).tasks@[ci].stack_size);
                    assert(mid.tasks@[ci].state is Ready);
                }
                let picked = mid.pick().unwrap() as int;
                if i == picked {
                    assert(self.tasks@[i] == (Tcb {
                        state: TaskState::Running,
                        slice_left: mid.slice,
                        ..mid.tasks@[i]
                    }));
                } else {
                    assert(self.tasks@[i] == mid.tasks@[i]);
                }
            }
        }
    }

    /// Block the running task for `delay` ticks; a zero delay is a plain
    /// yield. The task is woken by the tick sweep with a timeout outcome.
    pub fn sleep(&mut self, delay: u64)
        requires
            old(self).wf(),
            old(self).current is Some,
        ensures
            final(self).wf(),
            final(self).decision_respects_priority(),
            final(self).tasks@.len() == old(self).tasks@.len(),
            final(self).ticks == old(self).ticks,
            final(self).ints_enabled == old(self).ints_enabled,
            final(self).heap == old(self).heap,
            final(self).sems@ == old(self).sems@,
            final(self).mutexes@ == old(self).mutexes@,
            final(self).queues@ == old(self).queues@,
            delay > 0 ==> ({
                let c = old(self).current.unwrap() as int;
                &&& final(self).tasks@[c].state == TaskState::Blocked(BlockReason::Sleep)
                &&& final(self).tasks@[c].deadline == Some(
                    if old(self).ticks + delay > u64::MAX {
                        u64::MAX
                    } else {
                        (old(self).ticks + delay) as u64
                    },
                )
            }),
            delay == 0 ==> final(self).current is Some,
    {
        if delay == 0 {
            self.yield_now();
            return ;
        }
        let c = self.current.unwrap();
        let dl: u64 = if u64::MAX - self.ticks < delay {
            u64::MAX
        } else {
            self.ticks + delay
        };
        self.tasks[c].state = TaskState::Blocked(BlockReason::Sleep);
        self.tasks[c].deadline = Some(dl);
        self.current = None;
        proof {
            let oldk = *old(self);
            let ci = c as int;
            assert(self.tasks@ =~= oldk.tasks@.update(ci, self.tasks@[ci]));
            Self::lemma_wf_after_park(oldk, *self, ci);
            Self::lemma_prims_wf_kept(oldk, *self);
            assert forall|p: int, j: int|
                0 <= p < NPRIO as int && 0 <= j < self.ready@[p]@.len() implies {
                let tt = (#[trigger] self.ready@[p]@[j]) as int;
                &&& tt < self.tasks@.len()
                &&& self.tasks@[tt].state is Ready
                &&& self.tasks@[tt].priority as int == p
            } by {
                assert(self.ready@[p]@[j] == oldk.ready@[p]@[j]);
                assert((oldk.ready@[p]@[j] as int) != ci);
            }
            assert forall|i: int|
                0 <= i < self.tasks@.len() && (#[trigger] self.tasks@[i]).state is Ready implies
                self.ready@[self.tasks@[i].priority as int]@.contains(i as TaskId) by {
                assert(oldk.tasks@[i].state is Ready);
                assert(oldk.wf_task_at(i));
            }
            assert forall|i: int| 0 <= i < self.tasks@.len() implies #[trigger] self.wf_task_at(
                i,
            ) by {
                assert(oldk.wf_task_at(i));
                if i != ci {
                    assert(self.tasks@[i] == oldk.tasks@[i]);
                }
            }
            assert(self.wf());
        }
        let ghost mid = *self;
        self.dispatch();
        proof {
            if mid.pick() is Some {
                let p2 = mid.pick().unwrap();
                mid.lemma_pick_is_highest();
                assert(mid.tasks@[p2 as int].state is Ready);
                assert((p2 as int) != c as int);
            }
            assert(self.tasks@[c as int] == mid.tasks@[c as int]);
        }
    }

    /// Wake task `i` from a timed block with a timeout outcome: deregister
    /// it from whatever it waited on and make it Ready again.
    fn cancel_timeout(&mut self, i: TaskId)
        requires
            old(self).wf(),
            (i as int) < old(self).tasks@.len(),
            old(self).tasks@[i as int].state is Blocked,
        ensures
            final(self).wf(),
            final(self).current == old(self).current,
            final(self).ticks == old(self).ticks,
            final(self).slice == old(self).slice,
            final(self).ints_enabled == old(self).ints_enabled,
            final(self).heap == old(self).heap,
            final(self).tasks@.len() == old(self).tasks@.len(),
            forall|j: int|
                0 <= j < old(self).tasks@.len() && j != i as int ==> final(self).tasks@[j] == old(self).tasks@[j],
            final(self).tasks@[i as int].state is Ready,
            final(self).tasks@[i as int].wake == WakeStatus::TimedOut,
            final(self).tasks@[i as int].deadline is None,
            final(self).sems@.len() == old(self).sems@.len(),
            final(self).mutexes@.len() == old(self).mutexes@.len(),
            final(self).queues@.len() == old(self).queues@.len(),
            forall|s: int|
                0 <= s < old(self).sems@.len() ==> {
                    let a = #[trigger] final(self).sems@[s];
                    let b = old(self).sems@[s];
                    a.count == b.count && a.max == b.max && a.gives@ == b.gives@ && a.takes@
                        == b.takes@ && a.initial@ == b.initial@
                },
            forall|m: int|
                0 <= m < old(self).mutexes@.len() ==> (#[trigger] final(self).mutexes@[m]).owner
                    == old(self).mutexes@[m].owner,
            forall|q: int|
                0 <= q < old(self).queues@.len() ==> {
                    let a = #[trigger] final(self).queues@[q];
                    let b = old(self).queues@[q];
                    a.items@ == b.items@ && a.capacity == b.capacity && a.msg_size == b.msg_size
                },
    {
        proof {
            assert(old(self).wf_task_at(i as int));
        }
        match self.tasks[i].state {
            TaskState::Blocked(BlockReason::Sem(s)) => {
                proof {
                    assert(old(self).wf_sem_at(s as int));
                }
                remove_waiter(&mut self.sems[s].waiters, i);
            },
            TaskState::Blocked(BlockReason::Lock(m)) => {
                proof {
                    assert(old(self).wf_mutex_at(m as int));
                }
                remove_waiter(&mut self.mutexes[m].waiters, i);
            },
            TaskState::Blocked(BlockReason::Send(q)) => {
                proof {
                    assert(old(self).wf_queue_at(q as int));
                }
                remove_waiter(&mut self.queues[q].send_waiters, i);
            },
            TaskState::Blocked(BlockReason::Recv(q)) => {
                proof {
                    assert(old(self).wf_queue_at(q as int));
                }
                remove_waiter(&mut self.queues[q].recv_waiters, i);
            },
            _ => {},
        }
        self.tasks[i].state = TaskState::Ready;
        self.tasks[i].deadline = None;
        self.tasks[i].wake = WakeStatus::TimedOut;
        self.tasks[i].pending_send = None;
        self.push_ready(i);
        proof {
            let oldk = *old(self);
            let ii = i as int;
            let pi = oldk.tasks@[ii].priority as int;
            lemma_vec_len_bound(&self.sems);
            lemma_vec_len_bound(&self.mutexes);
            lemma_vec_len_bound(&self.queues);
            lemma_vec_len_bound(&self.tasks);
            let r0 = oldk.tasks@[ii].state->Blocked_0;
            // The waiter sets other than the one `i` left are untouched, and
            // `i` sat in none of them.
            assert forall|s: int| 0 <= s < self.sems@.len() implies #[trigger] self.wf_sem_at(
                s,
            ) by {
                assert(oldk.wf_sem_at(s));
                assert(self.sems@[s].count == oldk.sems@[s].count);
                assert forall|j: int| 0 <= j < self.sems@[s].waiters@.len() implies (
                #[trigger] self.sems@[s].waiters@[j]) < self.tasks@.len()
                    && self.tasks@[self.sems@[s].waiters@[j] as int].state == TaskState::Blocked(
                    BlockReason::Sem(s as usize),
                ) by {
                    let w = self.sems@[s].waiters@[j];
                    assert(oldk.sems@[s].waiters@.contains(w));
                    assert(oldk.tasks@[w as int].state == TaskState::Blocked(
                        BlockReason::Sem(s as usize),
                    ));
                    if (w as int) == ii {
                        assert(r0 == BlockReason::Sem(s as usize));
                        assert(!self.sems@[s].waiters@.contains(i));
                    }
                }
                assert(distinct_seq(self.sems@[s].waiters@));
                if self.sems@[s].waiters@.len() > 0 {
                    assert(oldk.sems@[s].waiters@.len() > 0);
                }
            }
            assert forall|m: int| 0 <= m < self.mutexes@.len() implies #[trigger] self.wf_mutex_at(
                m,
            ) by {
                assert(oldk.wf_mutex_at(m));
                assert forall|j: int| 0 <= j < self.mutexes@[m].waiters@.len() implies (
                #[trigger] self.mutexes@[m].waiters@[j]) < self.tasks@.len()
                    && self.tasks@[self.mutexes@[m].waiters@[j] as int].state
                    == TaskState::Blocked(BlockReason::Lock(m as usize)) by {
                    let w = self.mutexes@[m].waiters@[j];
                    assert(oldk.mutexes@[m].waiters@.contains(w));
                    assert(oldk.tasks@[w as int].state == TaskState::Blocked(
                        BlockReason::Lock(m as usize),
                    ));
                    if (w as int) == ii {
                        assert(r0 == BlockReason::Lock(m as usize));
                        assert(!self.mutexes@[m].waiters@.contains(i));
                    }
                }
                assert(distinct_seq(self.mutexes@[m].waiters@));
                if self.mutexes@[m].waiters@.len() > 0 {
                    assert(oldk.mutexes@[m].waiters@.len() > 0);
                }
            }
            assert forall|q: int| 0 <= q < self.queues@.len() implies #[trigger] self.wf_queue_at(
                q,
            ) by {
                assert(oldk.wf_queue_at(q));
                assert(self.queues@[q].items@ == oldk.queues@[q].items@);
                assert forall|j: int| 0 <= j < self.queues@[q].send_waiters@.len() implies (
                #[trigger] self.queues@[q].send_waiters@[j]) < self.tasks@.len()
                    && self.tasks@[self.queues@[q].send_waiters@[j] as int].state
                    == TaskState::Blocked(BlockReason::Send(q as usize)) by {
                    let w = self.queues@[q].send_waiters@[j];
                    assert(oldk.queues@[q].send_waiters@.contains(w));
                    assert(oldk.tasks@[w as int].state == TaskState::Blocked(
                        BlockReason::Send(q as usize),
                    ));
                    if (w as int) == ii {
                        assert(r0 == BlockReason::Send(q as usize));
                        assert(!self.queues@[q].send_waiters@.contains(i));
                    }
                }
                assert forall|j: int| 0 <= j < self.queues@[q].recv_waiters@.len() implies (
                #[trigger] self.queues@[q].recv_waiters@[j]) < self.tasks@.len()
                    && self.tasks@[self.queues@[q].recv_waiters@[j] as int].state
                    == TaskState::Blocked(BlockReason::Recv(q as usize)) by {
                    let w = self.queues@[q].recv_waiters@[j];
                    assert(oldk.queues@[q].recv_waiters@.contains(w));
                    assert(oldk.tasks@[w as int].state == TaskState::Blocked(
                        BlockReason::Recv(q as usize),
                    ));
                    if (w as int) == ii {
                        assert(r0 == BlockReason::Recv(q as usize));
                        assert(!self.queues@[q].recv_waiters@.contains(i));
                    }
                }
                if self.queues@[q].send_waiters@.len() > 0 {
                    assert(oldk.queues@[q].send_waiters@.len() > 0);
                }
                if self.queues@[q].recv_waiters@.len() > 0 {
                    assert(oldk.queues@[q].recv_waiters@.len() > 0);
                }
            }
            assert forall|p: int, j: int|
                0 <= p < NPRIO as int && 0 <= j < self.ready@[p]@.len() implies {
                let tt = (#[trigger] self.ready@[p]@[j]) as int;
                &&& tt < self.tasks@.len()
                &&& self.tasks@[tt].state is Ready
                &&& self.tasks@[tt].priority as int == p
            } by {
                if p == pi && j == self.ready@[p]@.len() - 1 {
                } else {
                    assert(self.ready@[p]@[j] == oldk.ready@[p]@[j]);
                    assert((oldk.ready@[p]@[j] as int) != ii);
                }
            }
            assert forall|p: int| 0 <= p < NPRIO as int implies distinct_seq(
                (#[trigger] self.ready@[p])@,
            ) by {
                if p == pi {
                    assert forall|j1: int, j2: int|
                        0 <= j1 < j2 < self.ready@[p]@.len() implies self.ready@[p]@[j1]
                        != self.ready@[p]@[j2] by {
                        if j2 == self.ready@[p]@.len() - 1 {
                            assert(self.ready@[p]@[j1] == oldk.ready@[p]@[j1]);
                            assert((oldk.ready@[p]@[j1] as int) != ii);
                        } else {
                            assert(self.ready@[p]@[j1] == oldk.ready@[p]@[j1]);
                            assert(self.ready@[p]@[j2] == oldk.ready@[p]@[j2]);
                        }
                    }
                }
            }
            assert forall|j: int|
                0 <= j < self.tasks@.len() && (#[trigger] self.tasks@[j]).state is Ready implies
                self.ready@[self.tasks@[j].priority as int]@.contains(j as TaskId) by {
                if j == ii {
                    assert(self.ready@[pi]@[self.ready@[pi]@.len() - 1] == i);
                } else {
                    assert(oldk.tasks@[j].state is Ready);
                    assert(oldk.wf_task_at(j));
                    let pj = oldk.tasks@[j].priority as int;
                    assert(oldk.ready@[pj]@.contains(j as TaskId));
                    let jj = choose|jj: int|
                        0 <= jj < oldk.ready@[pj]@.len() && oldk.ready@[pj]@[jj] == j as TaskId;
                    assert(self.ready@[pj]@[jj] == j as TaskId);
                }
            }
            assert forall|j: int| 0 <= j < self.tasks@.len() implies #[trigger] self.wf_task_at(
                j,
            ) by {
                assert(oldk.wf_task_at(j));
                if j != ii {
                    assert(self.tasks@[j] == oldk.tasks@[j]);
                }
            }
            assert forall|i1: int, i2: int|
                0 <= i1 < i2 < self.tasks@.len() && !((#[trigger] self.tasks@[i1]).state
                    is Deleted) && !((#[trigger] self.tasks@[i2]).state is Deleted) implies
                self.tasks@[i1].stack_block != self.tasks@[i2].stack_block by {
                assert(!(oldk.tasks@[i1].state is Deleted));
                assert(!(oldk.tasks@[i2].state is Deleted));
            }
            assert(self.wf_current()) by {
                if oldk.current is Some {
                    let cc = oldk.current.unwrap();
                    assert(self.tasks@[cc as int].state is Running);
                    assert forall|j: int|
                        0 <= j < self.tasks@.len() && (#[trigger] self.tasks@[j]).state
                            is Running implies j == cc as int by {
                        assert(oldk.tasks@[j].state is Running || j == ii);
                    }
                }
            }
            assert(self.wf());
        }
    }

    /// Wake every blocked task whose deadline has passed.
    fn sweep_timeouts(&mut self)
        requires
            old(self).wf(),
        ensures
            final(self).wf(),
            final(self).current == old(self).current,
            final(self).ticks == old(self).ticks,
            final(self).slice == old(self).slice,
            final(self).ints_enabled == old(self).ints_enabled,
            final(self).heap == old(self).heap,
            final(self).tasks@.len() == old(self).tasks@.len(),
            final(self).sems@.len() == old(self).sems@.len(),
            final(self).mutexes@.len() == old(self).mutexes@.len(),
            final(self).queues@.len() == old(self).queues@.len(),
            forall|i: int|
                0 <= i < final(self).tasks@.len()
                    ==> !((#[trigger] final(self).tasks@[i]).state is Blocked
                    && (final(self).tasks@[i].deadline matches Some(d) && d <= final(self).ticks)),
            forall|i: int|
                0 <= i < old(self).tasks@.len() && (#[trigger] old(self).tasks@[i]).state
                    is Blocked && (old(self).tasks@[i].deadline matches Some(d) && d <= old(self).ticks) ==> final(self).tasks@[i].state is Ready && final(self).tasks@[i].wake
                    == WakeStatus::TimedOut,
            forall|i: int|
                0 <= i < old(self).tasks@.len() && !((#[trigger] old(self).tasks@[i]).state
                    is Blocked && (old(self).tasks@[i].deadline matches Some(d) && d <= old(self).ticks)) ==> final(self).tasks@[i] == old(self).tasks@[i],
            forall|s: int|
                0 <= s < old(self).sems@.len() ==> {
                    let a = #[trigger] final(self).sems@[s];
                    let b = old(self).sems@[s];
                    a.count == b.count && a.max == b.max && a.gives@ == b.gives@ && a.takes@
                        == b.takes@ && a.initial@ == b.initial@
                },
            forall|m: int|
                0 <= m < old(self).mutexes@.len() ==> (#[trigger] final(self).mutexes@[m]).owner
                    == old(self).mutexes@[m].owner,
            forall|q: int|
                0 <= q < old(self).queues@.len() ==> {
                    let a = #[trigger] final(self).queues@[q];
                    let b = old(self).queues@[q];
                    a.items@ == b.items@ && a.capacity == b.capacity && a.msg_size == b.msg_size
                },
    {
        let n = self.tasks.len();
        let mut i: usize = 0;
        while i < n
            invariant
                i <= n,
                n == old(self).tasks@.len(),
                self.wf(),
                self.current == old(self).current,
                self.ticks == old(self).ticks,
                self.slice == old(self).slice,
                self.ints_enabled == old(self).ints_enabled,
                self.heap == old(self).heap,
                self.tasks@.len() == n as int,
                self.sems@.len() == old(self).sems@.len(),
                self.mutexes@.len() == old(self).mutexes@.len(),
                self.queues@.len() == old(self).queues@.len(),
                forall|j: int|
                    0 <= j < i as int ==> !((#[trigger] self.tasks@[j]).state is Blocked
                        && (self.tasks@[j].deadline matches Some(d) && d <= self.ticks)),
                forall|j: int|
                    0 <= j < n as int && (#[trigger] old(self).tasks@[j]).state is Blocked && (
                    old(self).tasks@[j].deadline matches Some(d) && d <= old(self).ticks) && j
                        < i as int ==> self.tasks@[j].state is Ready && self.tasks@[j].wake
                        == WakeStatus::TimedOut,
                forall|j: int|
                    0 <= j < n as int && !((#[trigger] old(self).tasks@[j]).state is Blocked && (
                    old(self).tasks@[j].deadline matches Some(d) && d <= old(self).ticks) && j
                        < i as int) ==> self.tasks@[j] == old(self).tasks@[j],
                forall|s: int|
                    0 <= s < old(self).sems@.len() ==> {
                        let a = #[trigger] self.sems@[s];
                        let b = old(self).sems@[s];
                        a.count == b.count && a.max == b.max && a.gives@ == b.gives@ && a.takes@
                            == b.takes@ && a.initial@ == b.initial@
                    },
                forall|m: int|
                    0 <= m < old(self).mutexes@.len() ==> (#[trigger] self.mutexes@[m]).owner
                        == old(self).mutexes@[m].owner,
                forall|q: int|
                    0 <= q < old(self).queues@.len() ==> {
                        let a = #[trigger] self.queues@[q];
                        let b = old(self).queues@[q];
                        a.items@ == b.items@ && a.capacity == b.capacity && a.msg_size
                            == b.msg_size
                    },
            decreases n - i,
        {
            let mut expired = false;
            match self.tasks[i].state {
                TaskState::Blocked(_) => {
                    match self.tasks[i].deadline {
                        Some(d) => {
                            if d <= self.ticks {
                                expired = true;
                            }
                        },
                        None => {},
                    }
                },
                _ => {},
            }
            if expired {
                let ghost pre = *self;
                self.cancel_timeout(i);
                proof {
                    assert forall|s: int| 0 <= s < old(self).sems@.len() implies {
                        let a = #[trigger] self.sems@[s];
                        let b = old(self).sems@[s];
                        a.count == b.count && a.max == b.max && a.gives@ == b.gives@ && a.takes@
                            == b.takes@ && a.initial@ == b.initial@
                    } by {
                        assert(pre.sems@[s].count == old(self).sems@[s].count);
                    }
                }
            }
            i = i + 1;
        }
    }

    /// One timer-interrupt tick: advance the counter, wake expired timed
    /// blocks, charge the running task's time slice, and preempt it when
    /// the slice is spent or a higher-priority task is Ready.
    pub fn tick(&mut self)
        requires
            old(self).wf(),
            old(self).ints_enabled,
            old(self).ticks < u64::MAX,
        ensures
            final(self).wf(),
            final(self).decision_respects_priority(),
            final(self).ticks == old(self).ticks + 1,
            final(self).tasks@.len() == old(self).tasks@.len(),
            final(self).ints_enabled,
            final(self).heap == old(self).heap,
            forall|i: int|
                0 <= i < final(self).tasks@.len()
                    ==> !((#[trigger] final(self).tasks@[i]).state is Blocked
                    && (final(self).tasks@[i].deadline matches Some(d) && d <= final(self).ticks)),
            forall|i: int|
                0 <= i < old(self).tasks@.len() && (#[trigger] old(self).tasks@[i]).state
                    is Blocked && (old(self).tasks@[i].deadline matches Some(d) && d <= old(self).ticks + 1) ==> (final(self).tasks@[i].state is Ready || final(self).tasks@[i].state is Running) && final(self).tasks@[i].wake
                    == WakeStatus::TimedOut,
            forall|s: int|
                0 <= s < old(self).sems@.len() ==> {
                    let a = #[trigger] final(self).sems@[s];
                    let b = old(self).sems@[s];
                    a.count == b.count && a.max == b.max && a.gives@ == b.gives@ && a.takes@
                        == b.takes@ && a.initial@ == b.initial@
                },
            forall|q: int|
                0 <= q < old(self).queues@.len() ==> {
                    let a = #[trigger] final(self).queues@[q];
                    let b = old(self).queues@[q];
                    a.items@ == b.items@ && a.capacity == b.capacity && a.msg_size == b.msg_size
                },
            forall|m: int|
                0 <= m < old(self).mutexes@.len() ==> (#[trigger] final(self).mutexes@[m]).owner
                    == old(self).mutexes@[m].owner,
    {
        self.ticks = self.ticks + 1;
        proof {
            Self::lemma_wf_same_core(*old(self), *self);
        }
        let ghost t0 = *self;
        self.sweep_timeouts();
        let ghost t1 = *self;
        match self.current {
            None => {
                self.dispatch();
                proof {
                    assert forall|i: int|
                        0 <= i < old(self).tasks@.len() && (#[trigger] old(self).tasks@[i]).state
                            is Blocked && (old(self).tasks@[i].deadline matches Some(d) && d
                            <= old(self).ticks + 1) implies (self.tasks@[i].state is Ready
                        || self.tasks@[i].state is Running) && self.tasks@[i].wake
                        == WakeStatus::TimedOut by {
                        assert(t1.tasks@[i].state is Ready && t1.tasks@[i].wake
                            == WakeStatus::TimedOut);
                        if t1.pick() matches Some(c2) && c2 as int == i {
                            assert(self.tasks@[i] == (Tcb {
                                state: TaskState::Running,
                                slice_left: t1.slice,
                                ..t1.tasks@[i]
                            }));
                        } else {
                            assert(self.tasks@[i] == t1.tasks@[i]);
                        }
                    }
                }
            },
            Some(c) => {
                let sl = self.tasks[c].slice_left;
                let newsl: u32 = if sl > 0 {
                    sl - 1
                } else {
                    0
                };
                self.tasks[c].slice_left = newsl;
                proof {
                    assert(self.tasks@ == t1.tasks@.update(c as int, self.tasks@[c as int]));
                    assert(t1.wf_task_at(c as int));
                    Self::lemma_wf_tcb_update(t1, *self, c as int);
                }
                let ghost t2 = *self;
                let pc = self.tasks[c].priority;
                let hr = self.has_higher_ready(pc);
                if newsl == 0 || hr {
                    self.yield_now();
                } else {
                    proof {
                        assert forall|i: int|
                            0 <= i < self.tasks@.len() && (#[trigger] self.tasks@[i]).state
                                is Ready implies self.tasks@[i].priority
                            >= self.tasks@[c as int].priority by {
                            assert(self.wf_task_at(i));
                            let pi = self.tasks@[i].priority as int;
                            assert(self.ready@[pi]@.contains(i as TaskId));
                            if pi < pc as int {
                                assert(self.ready@[pi]@.len() > 0);
                            }
                        }
                    }
                }
            },
        }
    }

    /// Index, within waiter list `w`, of the waiter to wake next: best
    /// priority first, FIFO (earliest entry) among equals.
    fn best_waiter(tasks: &Vec<Tcb>, w: &Vec<TaskId>) -> (j: usize)
        requires
            w@.len() > 0,
            forall|k: int| 0 <= k < w@.len() ==> ((#[trigger] w@[k]) as int) < tasks@.len(),
        ensures
            (j as int) < w@.len(),
            forall|k: int|
                0 <= k < w@.len() ==> tasks@[w@[j as int] as int].priority <= tasks@[(
                #[trigger] w@[k]) as int].priority,
            forall|k: int|
                0 <= k < j as int ==> tasks@[(#[trigger] w@[k]) as int].priority > tasks@[w@[
                    j as int
                ] as int].priority,
    {
        let n = w.len();
        let mut j: usize = 0;
        let mut k: usize = 1;
        while k < n
            invariant
                n == w@.len(),
                0 < n,
                (j as int) < k as int,
                k <= n,
                forall|t: int| 0 <= t < w@.len() ==> ((#[trigger] w@[t]) as int) < tasks@.len(),
                forall|t: int|
                    0 <= t < k as int ==> tasks@[w@[j as int] as int].priority <= tasks@[(
                    #[trigger] w@[t]) as int].priority,
                forall|t: int|
                    0 <= t < j as int ==> tasks@[(#[trigger] w@[t]) as int].priority > tasks@[w@[
                        j as int
                    ] as int].priority,
            decreases n - k,
        {
            let wk = w[k];
            let wj = w[j];
            if tasks[wk].priority < tasks[wj].priority {
                j = k;
            }
            k = k + 1;
        }
        j
    }

    /// Create a counting semaphore with the given initial count and
    /// maximum. The initial count must not exceed the maximum.
    pub fn sem_create(&mut self, initial: u32, max: u32) -> (r: Result<usize, KError>)
        requires
            old(self).wf(),
        ensures
            final(self).wf(),
            initial > max ==> r == Err::<usize, KError>(KError::InvalidState) && *final(self)
                == *old(self),
            initial <= max ==> {
                &&& r == Ok::<usize, KError>(old(self).sems@.len() as usize)
                &&& final(self).sems@.len() == old(self).sems@.len() + 1
                &&& (forall|s: int|
                    0 <= s < old(self).sems@.len() ==> final(self).sems@[s] == old(self).sems@[s])
                &&& final(self).sems@[old(self).sems@.len() as int].count == initial
                &&& final(self).sems@[old(self).sems@.len() as int].max == max
                &&& final(self).sems@[old(self).sems@.len() as int].waiters@.len() == 0
                &&& final(self).sems@[old(self).sems@.len() as int].initial@ == initial as int
                &&& final(self).sems@[old(self).sems@.len() as int].gives@ == 0
                &&& final(self).sems@[old(self).sems@.len() as int].takes@ == 0
                &&& final(self).tasks@ == old(self).tasks@
                &&& final(self).ready@ == old(self).ready@
                &&& final(self).current == old(self).current
                &&& final(self).ticks == old(self).ticks
                &&& final(self).heap == old(self).heap
                &&& final(self).mutexes@ == old(self).mutexes@
                &&& final(self).queues@ == old(self).queues@
            },
    {
        if initial > max {
            return Err(KError::InvalidState);
        }
        let s = self.sems.len();
        self.sems.push(
            Semaphore {
                count: initial,
                max,
                waiters: Vec::new(),
                gives: Ghost(0),
                takes: Ghost(0),
                initial: Ghost(initial as int),
            },
        );
        proof {
            let oldk = *old(self);
            assert forall|i: int| 0 <= i < self.tasks@.len() implies #[trigger] self.wf_task_at(
                i,
            ) by {
                assert(oldk.wf_task_at(i));
                match oldk.tasks@[i].state {
                    TaskState::Blocked(BlockReason::Sem(s2)) => {
                        assert(self.sems@[s2 as int] == oldk.sems@[s2 as int]);
                    },
                    _ => {},
                }
            }
            assert forall|s2: int| 0 <= s2 < self.sems@.len() implies #[trigger] self.wf_sem_at(
                s2,
            ) by {
                if s2 < oldk.sems@.len() {
                    assert(oldk.wf_sem_at(s2));
                    assert(self.sems@[s2] == oldk.sems@[s2]);
                }
            }
            Self::lemma_prims_wf_kept(oldk, Kernel { sems: oldk.sems, ..*self });
            assert forall|m: int| 0 <= m < self.mutexes@.len() implies #[trigger] self.wf_mutex_at(
                m,
            ) by {
                assert((Kernel { sems: oldk.sems, ..*self }).wf_mutex_at(m));
            }
            assert forall|q: int| 0 <= q < self.queues@.len() implies #[trigger] self.wf_queue_at(
                q,
            ) by {
                assert((Kernel { sems: oldk.sems, ..*self }).wf_queue_at(q));
            }
        }
        Ok(s)
    }

    /// Take (decrement) semaphore `s` without ever blocking: usable from
    /// interrupt context. Fails immediately when the count is zero.
    pub fn sem_try_take(&mut self, s: usize) -> (r: Result<(), KError>)
        requires
            old(self).wf(),
            (s as int) < old(self).sems@.len(),
        ensures
            final(self).wf(),
            final(self).ints_enabled == old(self).ints_enabled,
            final(self).slice == old(self).slice,
            final(self).sems@.len() == old(self).sems@.len(),
            old(self).sems@[s as int].count > 0 ==> {
                &&& r is Ok
                &&& final(self).sems@[s as int].count == old(self).sems@[s as int].count - 1
                &&& final(self).sems@[s as int].takes@ == old(self).sems@[s as int].takes@ + 1
                &&& final(self).sems@[s as int].gives@ == old(self).sems@[s as int].gives@
                &&& final(self).sems@[s as int].max == old(self).sems@[s as int].max
                &&& final(self).sems@[s as int].initial@ == old(self).sems@[s as int].initial@
                &&& final(self).sems@[s as int].waiters@ == old(self).sems@[s as int].waiters@
                &&& (forall|s2: int|
                    0 <= s2 < old(self).sems@.len() && s2 != s as int ==> final(self).sems@[s2]
                        == old(self).sems@[s2])
                &&& final(self).tasks@ == old(self).tasks@
                &&& final(self).ready@ == old(self).ready@
                &&& final(self).current == old(self).current
                &&& final(self).ticks == old(self).ticks
                &&& final(self).heap == old(self).heap
                &&& final(self).mutexes@ == old(self).mutexes@
                &&& final(self).queues@ == old(self).queues@
            },
            old(self).sems@[s as int].count == 0 ==> r == Err::<(), KError>(KError::WouldBlock)
                && *final(self) == *old(self),
    {
        if self.sems[s].count == 0 {
            return Err(KError::WouldBlock);
        }
        self.sems[s].count = self.sems[s].count - 1;
        self.sems[s].takes = Ghost(self.sems@[s as int].takes@ + 1);
        proof {
            let oldk = *old(self);
            assert forall|i: int| 0 <= i < self.tasks@.len() implies #[trigger] self.wf_task_at(
                i,
            ) by {
                assert(oldk.wf_task_at(i));
                match oldk.tasks@[i].state {
                    TaskState::Blocked(BlockReason::Sem(s2)) => {
                        assert(self.sems@[s2 as int].waiters@ == oldk.sems@[s2 as int].waiters@);
                    },
                    _ => {},
                }
            }
            assert forall|s2: int| 0 <= s2 < self.sems@.len() implies #[trigger] self.wf_sem_at(
                s2,
            ) by {
                assert(oldk.wf_sem_at(s2));
                if s2 != s as int {
                    assert(self.sems@[s2] == oldk.sems@[s2]);
                } else {
                    assert(oldk.sems@[s2].waiters@.len() == 0);
                }
            }
            Self::lemma_prims_wf_kept(oldk, Kernel { sems: oldk.sems, ..*self });
            assert forall|m: int| 0 <= m < self.mutexes@.len() implies #[trigger] self.wf_mutex_at(
                m,
            ) by {
                assert((Kernel { sems: oldk.sems, ..*self }).wf_mutex_at(m));
            }
            assert forall|q: int| 0 <= q < self.queues@.len() implies #[trigger] self.wf_queue_at(
                q,
            ) by {
                assert((Kernel { sems: oldk.sems, ..*self }).wf_queue_at(q));
            }
        }
        Ok(())
    }

    /// Take semaphore `s` from the running task, willing to wait up to
    /// `timeout` ticks (`u64::MAX` is effectively forever). With the count
    /// at zero and a zero timeout the call fails immediately; with a
    /// positive timeout the caller blocks and learns the outcome from its
    /// wake slot when woken or timed out.
    pub fn sem_take(&mut self, s: usize, timeout: u64) -> (r: BlockOutcome)
        requires
            old(self).wf(),
            (s as int) < old(self).sems@.len(),
            old(self).current is Some,
            old(self).ints_enabled,
        ensures
            final(self).wf(),
            final(self).ticks == old(self).ticks,
            final(self).ints_enabled == old(self).ints_enabled,
            final(self).heap == old(self).heap,
            final(self).mutexes@ == old(self).mutexes@,
            final(self).queues@ == old(self).queues@,
            final(self).tasks@.len() == old(self).tasks@.len(),
            final(self).sems@.len() == old(self).sems@.len(),
            forall|s2: int|
                0 <= s2 < old(self).sems@.len() && s2 != s as int ==> final(self).sems@[s2] == old(self).sems@[s2],
            ({
                let b = old(self).sems@[s as int];
                let c = old(self).current.unwrap() as int;
                &&& (b.count > 0 ==> r == BlockOutcome::Done && final(self).sems@[s as int].count
                    == b.count - 1 && final(self).sems@[s as int].takes@ == b.takes@ + 1 && final(self).sems@[s as int].gives@ == b.gives@ && final(self).sems@[s as int].initial@
                    == b.initial@ && final(self).sems@[s as int].max == b.max && final(self).tasks@ == old(self).tasks@ && final(self).current == old(self).current)
                &&& (b.count == 0 && timeout == 0 ==> r == BlockOutcome::Fail(KError::WouldBlock)
                    && *final(self) == *old(self))
                &&& (b.count == 0 && timeout > 0 ==> r == BlockOutcome::Waiting && final(self).tasks@[c].state == TaskState::Blocked(BlockReason::Sem(s)) && final(self).tasks@[c].deadline == Some(
                    if old(self).ticks + timeout > u64::MAX {
                        u64::MAX
                    } else {
                        (old(self).ticks + timeout) as u64
                    },
                ) && final(self).sems@[s as int].waiters@ == b.waiters@.push(c as TaskId) && final(self).sems@[s as int].count == 0 && final(self).sems@[s as int].takes@ == b.takes@
                    && final(self).sems@[s as int].gives@ == b.gives@ && final(self).decision_respects_priority())
            }),
    {
        if self.sems[s].count > 0 {
            let _granted = self.sem_try_take(s);
            return BlockOutcome::Done;
        }
        if timeout == 0 {
            return BlockOutcome::Fail(KError::WouldBlock);
        }
        let c = self.current.unwrap();
        let dl: u64 = if u64::MAX - self.ticks < timeout {
            u64::MAX
        } else {
            self.ticks + timeout
        };
        proof {
            assert(old(self).wf_sem_at(s as int));
            assert(old(self).wf_task_at(c as int));
        }
        self.sems[s].waiters.push(c);
        self.tasks[c].state = TaskState::Blocked(BlockReason::Sem(s));
        self.tasks[c].deadline = Some(dl);
        self.current = None;
        proof {
            let oldk = *old(self);
            let ci = c as int;
            assert(self.tasks@ =~= oldk.tasks@.update(ci, self.tasks@[ci]));
            Self::lemma_wf_after_park(oldk, *self, ci);
            Self::lemma_prims_wf_kept(oldk, Kernel { sems: oldk.sems, ..*self });
            assert forall|m: int| 0 <= m < self.mutexes@.len() implies #[trigger] self.wf_mutex_at(
                m,
            ) by {
                assert((Kernel { sems: oldk.sems, ..*self }).wf_mutex_at(m));
            }
            assert forall|q: int| 0 <= q < self.queues@.len() implies #[trigger] self.wf_queue_at(
                q,
            ) by {
                assert((Kernel { sems: oldk.sems, ..*self }).wf_queue_at(q));
            }
            assert forall|s2: int| 0 <= s2 < self.sems@.len() implies #[trigger] self.wf_sem_at(
                s2,
            ) by {
                assert(oldk.wf_sem_at(s2));
                if s2 != s as int {
                    assert(self.sems@[s2] == oldk.sems@[s2]);
                    assert forall|j: int| 0 <= j < self.sems@[s2].waiters@.len() implies (
                    #[trigger] self.sems@[s2].waiters@[j]) < self.tasks@.len()
                        && self.tasks@[self.sems@[s2].waiters@[j] as int].state
                        == TaskState::Blocked(BlockReason::Sem(s2 as usize)) by {
                        let w = self.sems@[s2].waiters@[j];
                        assert(oldk.tasks@[w as int].state == TaskState::Blocked(
                            BlockReason::Sem(s2 as usize),
                        ));
                    }
                } else {
                    assert(self.sems@[s2].waiters@ == oldk.sems@[s2].waiters@.push(c));
                    assert forall|j: int| 0 <= j < self.sems@[s2].waiters@.len() implies (
                    #[trigger] self.sems@[s2].waiters@[j]) < self.tasks@.len()
                        && self.tasks@[self.sems@[s2].waiters@[j] as int].state
                        == TaskState::Blocked(BlockReason::Sem(s2 as usize)) by {
                        let w = self.sems@[s2].waiters@[j];
                        if j < oldk.sems@[s2].waiters@.len() {
                            assert(oldk.tasks@[w as int].state == TaskState::Blocked(
                                BlockReason::Sem(s2 as usize),
                            ));
                            assert((w as int) != ci);
                        } else {
                            assert(w == c);
                        }
                    }
                    assert forall|j1: int, j2: int|
                        0 <= j1 < j2 < self.sems@[s2].waiters@.len() implies self.sems@[
                        s2
                    ].waiters@[j1] != self.sems@[s2].waiters@[j2] by {
                        if j2 == self.sems@[s2].waiters@.len() - 1 {
                            assert(self.sems@[s2].waiters@[j1] == oldk.sems@[s2].waiters@[j1]);
                            assert(oldk.tasks@[oldk.sems@[s2].waiters@[j1] as int].state
                                == TaskState::Blocked(BlockReason::Sem(s2 as usize)));
                        }
                    }
                }
            }
            assert forall|p: int, j: int|
                0 <= p < NPRIO as int && 0 <= j < self.ready@[p]@.len() implies {
                let tt = (#[trigger] self.ready@[p]@[j]) as int;
                &&& tt < self.tasks@.len()
                &&& self.tasks@[tt].state is Ready
                &&& self.tasks@[tt].priority as int == p
            } by {
                assert(self.ready@[p]@[j] == oldk.ready@[p]@[j]);
                assert((oldk.ready@[p]@[j] as int) != ci);
            }
            assert forall|i: int|
                0 <= i < self.tasks@.len() && (#[trigger] self.tasks@[i]).state is Ready implies
                self.ready@[self.tasks@[i].priority as int]@.contains(i as TaskId) by {
                assert(oldk.tasks@[i].state is Ready);
                assert(oldk.wf_task_at(i));
            }
            assert forall|i: int| 0 <= i < self.tasks@.len() implies #[trigger] self.wf_task_at(
                i,
            ) by {
                assert(oldk.wf_task_at(i));
                if i != ci {
                    assert(self.tasks@[i] == oldk.tasks@[i]);
                    match oldk.tasks@[i].state {
                        TaskState::Blocked(BlockReason::Sem(s3)) => {
                            if s3 == s {
                                assert(self.sems@[s3 as int].waiters@ == oldk.sems@[
                                    s3 as int
                                ].waiters@.push(c));
                                assert(oldk.sems@[s3 as int].waiters@.contains(i as TaskId));
                                let jj = choose|jj: int|
                                    0 <= jj < oldk.sems@[s3 as int].waiters@.len() && oldk.sems@[
                                        s3 as int
                                    ].waiters@[jj] == i as TaskId;
                                assert(self.sems@[s3 as int].waiters@[jj] == i as TaskId);
                            } else {
                                assert(self.sems@[s3 as int] == oldk.sems@[s3 as int]);
                            }
                        },
                        _ => {},
                    }
                } else {
                    assert(self.sems@[s as int].waiters@[self.sems@[s as int].waiters@.len() - 1]
                        == c);
                }
            }
            assert(self.wf());
        }
        let ghost mid = *self;
        self.dispatch();
        proof {
            if mid.pick() is Some {
                let p2 = mid.pick().unwrap();
                mid.lemma_pick_is_highest();
                assert((p2 as int) != c as int);
            }
            assert(self.tasks@[c as int] == mid.tasks@[c as int]);
            assert(self.sems@ == mid.sems@);
        }
        BlockOutcome::Waiting
    }

    /// Signal semaphore `s`. With tasks waiting, the best waiter (priority
    /// first, FIFO among equals) is woken and the count is untouched;
    /// otherwise the count is bumped, and a signal at the maximum count is
    /// a failed no-op.
    pub fn sem_give(&mut self, s: usize) -> (r: Result<(), KError>)
        requires
            old(self).wf(),
            (s as int) < old(self).sems@.len(),
        ensures
            final(self).wf(),
            final(self).current == old(self).current,
            final(self).ticks == old(self).ticks,
            final(self).ints_enabled == old(self).ints_enabled,
            final(self).heap == old(self).heap,
            final(self).mutexes@ == old(self).mutexes@,
            final(self).queues@ == old(self).queues@,
            final(self).tasks@.len() == old(self).tasks@.len(),
            final(self).sems@.len() == old(self).sems@.len(),
            forall|s2: int|
                0 <= s2 < old(self).sems@.len() && s2 != s as int ==> final(self).sems@[s2] == old(self).sems@[s2],
            ({
                let b = old(self).sems@[s as int];
                &&& (b.waiters@.len() > 0 ==> r is Ok && final(self).sems@[s as int].count
                    == b.count && final(self).sems@[s as int].gives@ == b.gives@ + 1 && final(self).sems@[s as int].takes@ == b.takes@ + 1 && final(self).sems@[s as int].initial@
                    == b.initial@ && final(self).sems@[s as int].max == b.max && (exists|j: int|
                    0 <= j < b.waiters@.len() && {
                        let w = b.waiters@[j] as int;
                        &&& final(self).sems@[s as int].waiters@ == #[trigger] b.waiters@.remove(j)
                        &&& final(self).tasks@[w].state is Ready
                        &&& final(self).tasks@[w].wake == WakeStatus::Woken
                        &&& final(self).tasks@[w].deadline is None
                        &&& (forall|k: int|
                            0 <= k < b.waiters@.len() ==> old(self).tasks@[w].priority <= old(self).tasks@[(#[trigger] b.waiters@[k]) as int].priority)
                        &&& (forall|i: int|
                            0 <= i < old(self).tasks@.len() && i != w ==> final(self).tasks@[i]
                                == old(self).tasks@[i])
                    }))
                &&& (b.waiters@.len() == 0 && b.count < b.max ==> r is Ok && final(self).sems@[
                    s as int
                ].count == b.count + 1 && final(self).sems@[s as int].gives@ == b.gives@ + 1
                    && final(self).sems@[s as int].takes@ == b.takes@ && final(self).sems@[
                    s as int
                ].initial@ == b.initial@ && final(self).sems@[s as int].max == b.max && final(self).tasks@ == old(self).tasks@)
                &&& (b.waiters@.len() == 0 && b.count == b.max ==> r == Err::<(), KError>(
                    KError::AtMaxCount,
                ) && *final(self) == *old(self))
            }),
    {
        proof {
            assert(old(self).wf_sem_at(s as int));
        }
        if self.sems[s].waiters.len() > 0 {
            let j = Self::best_waiter(&self.tasks, &self.sems[s].waiters);
            let ghost wset0 = self.sems@[s as int].waiters@;
            let w = self.sems[s].waiters.remove(j);
            self.tasks[w].state = TaskState::Ready;
            self.tasks[w].deadline = None;
            self.tasks[w].wake = WakeStatus::Woken;
            self.sems[s].gives = Ghost(self.sems@[s as int].gives@ + 1);
            self.sems[s].takes = Ghost(self.sems@[s as int].takes@ + 1);
            proof {
                assert(old(self).wf_task_at(w as int));
            }
            self.push_ready(w);
            proof {
                let oldk = *old(self);
                let wi = w as int;
                let pw = oldk.tasks@[wi].priority as int;
                lemma_vec_len_bound(&self.tasks);
                lemma_vec_len_bound(&self.sems);
                lemma_vec_len_bound(&self.mutexes);
                lemma_vec_len_bound(&self.queues);
                wset0.remove_ensures(j as int);
                assert(!self.sems@[s as int].waiters@.contains(w)) by {
                    if self.sems@[s as int].waiters@.contains(w) {
                        let jj = choose|jj: int|
                            0 <= jj < self.sems@[s as int].waiters@.len() && self.sems@[
                                s as int
                            ].waiters@[jj] == w;
                        if jj < j as int {
                            assert(wset0[jj] == w);
                        } else {
                            assert(wset0[jj + 1] == w);
                            assert(wset0[j as int] == wset0[jj + 1]);
                        }
                    }
                }
                assert forall|s2: int| 0 <= s2 < self.sems@.len() implies #[trigger] self.wf_sem_at(
                    s2,
                ) by {
                    assert(oldk.wf_sem_at(s2));
                    assert forall|jj: int| 0 <= jj < self.sems@[s2].waiters@.len() implies (
                    #[trigger] self.sems@[s2].waiters@[jj]) < self.tasks@.len()
                        && self.tasks@[self.sems@[s2].waiters@[jj] as int].state
                        == TaskState::Blocked(BlockReason::Sem(s2 as usize)) by {
                        let w2 = self.sems@[s2].waiters@[jj];
                        if s2 == s as int {
                            assert(wset0[j as int] == w);
                            if jj < j as int {
                                assert(wset0[jj] == w2);
                                assert(wset0[jj] != wset0[j as int]);
                            } else {
                                assert(wset0[jj + 1] == w2);
                                assert(wset0[j as int] != wset0[jj + 1]);
                            }
                            assert(wset0.contains(w2));
                            assert(oldk.tasks@[w2 as int].state == TaskState::Blocked(
                                BlockReason::Sem(s2 as usize),
                            ));
                            assert(w2 != w);
                            assert((w2 as int) != wi);
                        } else {
                            assert(self.sems@[s2] == oldk.sems@[s2]);
                            assert(oldk.tasks@[w2 as int].state == TaskState::Blocked(
                                BlockReason::Sem(s2 as usize),
                            ));
                            assert((w2 as int) != wi);
                        }
                    }
                    if s2 == s as int {
                        assert forall|j1: int, j2: int|
                            0 <= j1 < j2 < self.sems@[s2].waiters@.len() implies self.sems@[
                            s2
                        ].waiters@[j1] != self.sems@[s2].waiters@[j2] by {
                            let a1: int = if j1 < j as int {
                                j1
                            } else {
                                j1 + 1
                            };
                            let a2: int = if j2 < j as int {
                                j2
                            } else {
                                j2 + 1
                            };
                            assert(self.sems@[s2].waiters@[j1] == wset0[a1]);
                            assert(self.sems@[s2].waiters@[j2] == wset0[a2]);
                        }
                        if self.sems@[s2].waiters@.len() > 0 {
                            assert(oldk.sems@[s2].waiters@.len() > 0);
                        }
                    }
                }
                assert forall|m: int| 0 <= m < self.mutexes@.len() implies #[trigger] self.wf_mutex_at(
                    m,
                ) by {
                    assert(oldk.wf_mutex_at(m));
                    assert forall|jj: int| 0 <= jj < self.mutexes@[m].waiters@.len() implies (
                    #[trigger] self.mutexes@[m].waiters@[jj]) < self.tasks@.len()
                        && self.tasks@[self.mutexes@[m].waiters@[jj] as int].state
                        == TaskState::Blocked(BlockReason::Lock(m as usize)) by {
                        let w2 = self.mutexes@[m].waiters@[jj];
                        assert(oldk.tasks@[w2 as int].state == TaskState::Blocked(
                            BlockReason::Lock(m as usize),
                        ));
                        assert((w2 as int) != wi);
                    }
                }
                assert forall|q: int| 0 <= q < self.queues@.len() implies #[trigger] self.wf_queue_at(
                    q,
                ) by {
                    assert(oldk.wf_queue_at(q));
                    assert forall|jj: int| 0 <= jj < self.queues@[q].send_waiters@.len() implies (
                    #[trigger] self.queues@[q].send_waiters@[jj]) < self.tasks@.len()
                        && self.tasks@[self.queues@[q].send_waiters@[jj] as int].state
                        == TaskState::Blocked(BlockReason::Send(q as usize)) by {
                        let w2 = self.queues@[q].send_waiters@[jj];
                        assert(oldk.tasks@[w2 as int].state == TaskState::Blocked(
                            BlockReason::Send(q as usize),
                        ));
                        assert((w2 as int) != wi);
                    }
                    assert forall|jj: int| 0 <= jj < self.queues@[q].recv_waiters@.len() implies (
                    #[trigger] self.queues@[q].recv_waiters@[jj]) < self.tasks@.len()
                        && self.tasks@[self.queues@[q].recv_waiters@[jj] as int].state
                        == TaskState::Blocked(BlockReason::Recv(q as usize)) by {
                        let w2 = self.queues@[q].recv_waiters@[jj];
                        assert(oldk.tasks@[w2 as int].state == TaskState::Blocked(
                            BlockReason::Recv(q as usize),
                        ));
                        assert((w2 as int) != wi);
                    }
                }
                assert forall|p: int, jj: int|
                    0 <= p < NPRIO as int && 0 <= jj < self.ready@[p]@.len() implies {
                    let tt = (#[trigger] self.ready@[p]@[jj]) as int;
                    &&& tt < self.tasks@.len()
                    &&& self.tasks@[tt].state is Ready
                    &&& self.tasks@[tt].priority as int == p
                } by {
                    if p == pw && jj == self.ready@[p]@.len() - 1 {
                    } else {
                        assert(self.ready@[p]@[jj] == oldk.ready@[p]@[jj]);
                        assert((oldk.ready@[p]@[jj] as int) != wi);
                    }
                }
                assert forall|p: int| 0 <= p < NPRIO as int implies distinct_seq(
                    (#[trigger] self.ready@[p])@,
                ) by {
                    if p == pw {
                        assert forall|j1: int, j2: int|
                            0 <= j1 < j2 < self.ready@[p]@.len() implies self.ready@[p]@[j1]
                            != self.ready@[p]@[j2] by {
                            if j2 == self.ready@[p]@.len() - 1 {
                                assert(self.ready@[p]@[j1] == oldk.ready@[p]@[j1]);
                                assert((oldk.ready@[p]@[j1] as int) != wi);
                            } else {
                                assert(self.ready@[p]@[j1] == oldk.ready@[p]@[j1]);
                                assert(self.ready@[p]@[j2] == oldk.ready@[p]@[j2]);
                            }
                        }
                    }
                }
                assert forall|i: int|
                    0 <= i < self.tasks@.len() && (#[trigger] self.tasks@[i]).state is Ready
                        implies self.ready@[self.tasks@[i].priority as int]@.contains(
                    i as TaskId,
                ) by {
                    if i == wi {
                        assert(self.ready@[pw]@[self.ready@[pw]@.len() - 1] == w);
                    } else {
                        assert(oldk.tasks@[i].state is Ready);
                        assert(oldk.wf_task_at(i));
                        let jx = choose|jx: int|
                            0 <= jx < oldk.ready@[oldk.tasks@[i].priority as int]@.len()
                                && oldk.ready@[oldk.tasks@[i].priority as int]@[jx] == i as TaskId;
                        assert(self.ready@[oldk.tasks@[i].priority as int]@[jx] == i as TaskId);
                    }
                }
                assert forall|i: int| 0 <= i < self.tasks@.len() implies #[trigger] self.wf_task_at(
                    i,
                ) by {
                    assert(oldk.wf_task_at(i));
                    if i != wi {
                        assert(self.tasks@[i] == oldk.tasks@[i]);
                        match oldk.tasks@[i].state {
                            TaskState::Blocked(BlockReason::Sem(s3)) => {
                                if s3 == s {
                                    assert(oldk.sems@[s3 as int].waiters@.contains(i as TaskId));
                                    assert((i as TaskId) != w);
                                    let jy = choose|jy: int|
                                        0 <= jy < wset0.len() && wset0[jy] == i as TaskId;
                                    assert(wset0[j as int] == w);
                                    assert(jy != j as int);
                                    if jy < j as int {
                                        assert(self.sems@[s3 as int].waiters@[jy]
                                            == i as TaskId);
                                    } else {
                                        assert(self.sems@[s3 as int].waiters@[jy - 1]
                                            == i as TaskId);
                                    }
                                    assert(self.sems@[s3 as int].waiters@.contains(i as TaskId));
                                } else {
                                    assert(self.sems@[s3 as int] == oldk.sems@[s3 as int]);
                                }
                            },
                            _ => {},
                        }
                    }
                }
                assert forall|i1: int, i2: int|
                    0 <= i1 < i2 < self.tasks@.len() && !((#[trigger] self.tasks@[i1]).state
                        is Deleted) && !((#[trigger] self.tasks@[i2]).state is Deleted) implies
                    self.tasks@[i1].stack_block != self.tasks@[i2].stack_block by {
                    assert(!(oldk.tasks@[i1].state is Deleted));
                    assert(!(oldk.tasks@[i2].state is Deleted));
                }
                assert(self.wf_current()) by {
                    if oldk.current is Some {
                        let cc = oldk.current.unwrap();
                        assert(self.tasks@[cc as int].state is Running);
                        assert forall|i: int|
                            0 <= i < self.tasks@.len() && (#[trigger] self.tasks@[i]).state
                                is Running implies i == cc as int by {
                            assert(oldk.tasks@[i].state is Running || i == wi);
                        }
                    }
                }
                assert(self.wf());
                assert(self.sems@[s as int].waiters@ == wset0.remove(j as int));
            }
            Ok(())
        } else if self.sems[s].count < self.sems[s].max {
            self.sems[s].count = self.sems[s].count + 1;
            self.sems[s].gives = Ghost(self.sems@[s as int].gives@ + 1);
            proof {
                let oldk = *old(self);
                assert forall|i: int| 0 <= i < self.tasks@.len() implies #[trigger] self.wf_task_at(
                    i,
                ) by {
                    assert(oldk.wf_task_at(i));
                    match oldk.tasks@[i].state {
                        TaskState::Blocked(BlockReason::Sem(s2)) => {
                            assert(self.sems@[s2 as int].waiters@ == oldk.sems@[
                                s2 as int
                            ].waiters@);
                        },
                        _ => {},
                    }
                }
                assert forall|s2: int| 0 <= s2 < self.sems@.len() implies #[trigger] self.wf_sem_at(
                    s2,
                ) by {
                    assert(oldk.wf_sem_at(s2));
                    if s2 != s as int {
                        assert(self.sems@[s2] == oldk.sems@[s2]);
                    } else {
                        assert(oldk.sems@[s2].waiters@.len() == 0);
                    }
                }
                Self::lemma_prims_wf_kept(oldk, Kernel { sems: oldk.sems, ..*self });
                assert forall|m: int| 0 <= m < self.mutexes@.len() implies #[trigger] self.wf_mutex_at(
                    m,
                ) by {
                    assert((Kernel { sems: oldk.sems, ..*self }).wf_mutex_at(m));
                }
                assert forall|q: int| 0 <= q < self.queues@.len() implies #[trigger] self.wf_queue_at(
                    q,
                ) by {
                    assert((Kernel { sems: oldk.sems, ..*self }).wf_queue_at(q));
                }
            }
            Ok(())
        } else {
            Err(KError::AtMaxCount)
        }
    }

    /// Conservation law for a semaphore: successful `take`s never outrun
    /// the initial count plus successful `give`s; the count never exceeds
    /// the configured maximum; and the books balance exactly.
    pub proof fn lemma_sem_conservation(k: &Kernel, s: int)
        requires
            k.wf(),
            0 <= s < k.sems@.len(),
        ensures
            k.sems@[s].takes@ <= k.sems@[s].initial@ + k.sems@[s].gives@,
            k.sems@[s].count <= k.sems@[s].max,
            k.sems@[s].initial@ + k.sems@[s].gives@ == k.sems@[s].takes@ + k.sems@[s].count,
    {
        assert(k.wf_sem_at(s));
    }

    /// Create a mutex, initially unowned.
    pub fn mutex_create(&mut self) -> (r: usize)
        requires
            old(self).wf(),
        ensures
            final(self).wf(),
            (r as int) == old(self).mutexes@.len(),
            final(self).mutexes@.len() == old(self).mutexes@.len() + 1,
            forall|m: int|
                0 <= m < old(self).mutexes@.len() ==> final(self).mutexes@[m] == old(self).mutexes@[m],
            final(self).mutexes@[old(self).mutexes@.len() as int].owner is None,
            final(self).mutexes@[old(self).mutexes@.len() as int].waiters@.len() == 0,
            final(self).tasks@ == old(self).tasks@,
            final(self).ready@ == old(self).ready@,
            final(self).current == old(self).current,
            final(self).ticks == old(self).ticks,
            final(self).ints_enabled == old(self).ints_enabled,
            final(self).heap == old(self).heap,
            final(self).sems@ == old(self).sems@,
            final(self).queues@ == old(self).queues@,
    {
        let m = self.mutexes.len();
        self.mutexes.push(Mutex { owner: None, waiters: Vec::new() });
        proof {
            let oldk = *old(self);
            assert forall|i: int| 0 <= i < self.tasks@.len() implies #[trigger] self.wf_task_at(
                i,
            ) by {
                assert(oldk.wf_task_at(i));
                match oldk.tasks@[i].state {
                    TaskState::Blocked(BlockReason::Lock(m2)) => {
                        assert(self.mutexes@[m2 as int] == oldk.mutexes@[m2 as int]);
                    },
                    _ => {},
                }
            }
            assert forall|m2: int| 0 <= m2 < self.mutexes@.len() implies #[trigger] self.wf_mutex_at(
                m2,
            ) by {
                if m2 < oldk.mutexes@.len() {
                    assert(oldk.wf_mutex_at(m2));
                    assert(self.mutexes@[m2] == oldk.mutexes@[m2]);
                }
            }
            Self::lemma_prims_wf_kept(oldk, Kernel { mutexes: oldk.mutexes, ..*self });
            assert forall|s2: int| 0 <= s2 < self.sems@.len() implies #[trigger] self.wf_sem_at(
                s2,
            ) by {
                assert((Kernel { mutexes: oldk.mutexes, ..*self }).wf_sem_at(s2));
            }
            assert forall|q: int| 0 <= q < self.queues@.len() implies #[trigger] self.wf_queue_at(
                q,
            ) by {
                assert((Kernel { mutexes: oldk.mutexes, ..*self }).wf_queue_at(q));
            }
        }
        m
    }

    /// Acquire mutex `m` without blocking. Fails immediately when another
    /// task holds it; re-acquiring a mutex the caller already owns is a
    /// contract violation, not a deadlock.
    pub fn mutex_try_lock(&mut self, m: usize) -> (r: Result<(), KError>)
        requires
            old(self).wf(),
            (m as int) < old(self).mutexes@.len(),
            old(self).current is Some,
        ensures
            final(self).wf(),
            final(self).mutexes@.len() == old(self).mutexes@.len(),
            forall|m2: int|
                0 <= m2 < old(self).mutexes@.len() && m2 != m as int ==> final(self).mutexes@[m2]
                    == old(self).mutexes@[m2],
            ({
                let b = old(self).mutexes@[m as int];
                let c = old(self).current.unwrap();
                &&& (b.owner is None ==> r is Ok && final(self).mutexes@[m as int].owner == Some(c)
                    && final(self).mutexes@[m as int].waiters@ == b.waiters@ && final(self).tasks@
                    == old(self).tasks@ && final(self).ready@ == old(self).ready@ && final(self).current == old(self).current && final(self).ticks == old(self).ticks && final(self).ints_enabled == old(self).ints_enabled && final(self).heap == old(self).heap
                    && final(self).sems@ == old(self).sems@ && final(self).queues@ == old(self).queues@)
                &&& (b.owner == Some(c) ==> r == Err::<(), KError>(KError::AlreadyOwner) && *final(self) == *old(self))
                &&& (b.owner is Some && b.owner != Some(c) ==> r == Err::<(), KError>(
                    KError::WouldBlock,
                ) && *final(self) == *old(self))
            }),
    {
        let c = self.current.unwrap();
        match self.mutexes[m].owner {
            Some(o) => {
                if o == c {
                    Err(KError::AlreadyOwner)
                } else {
                    Err(KError::WouldBlock)
                }
            },
            None => {
                self.mutexes[m].owner = Some(c);
                proof {
                    let oldk = *old(self);
                    assert forall|i: int| 0 <= i < self.tasks@.len() implies #[trigger] self.wf_task_at(
                        i,
                    ) by {
                        assert(oldk.wf_task_at(i));
                        match oldk.tasks@[i].state {
                            TaskState::Blocked(BlockReason::Lock(m2)) => {
                                assert(self.mutexes@[m2 as int].waiters@ == oldk.mutexes@[
                                    m2 as int
                                ].waiters@);
                            },
                            _ => {},
                        }
                    }
                    assert forall|m2: int|
                        0 <= m2 < self.mutexes@.len() implies #[trigger] self.wf_mutex_at(m2) by {
                        assert(oldk.wf_mutex_at(m2));
                        if m2 != m as int {
                            assert(self.mutexes@[m2] == oldk.mutexes@[m2]);
                        }
                    }
                    Self::lemma_prims_wf_kept(oldk, Kernel { mutexes: oldk.mutexes, ..*self });
                    assert forall|s2: int|
                        0 <= s2 < self.sems@.len() implies #[trigger] self.wf_sem_at(s2) by {
                        assert((Kernel { mutexes: oldk.mutexes, ..*self }).wf_sem_at(s2));
                    }
                    assert forall|q: int|
                        0 <= q < self.queues@.len() implies #[trigger] self.wf_queue_at(q) by {
                        assert((Kernel { mutexes: oldk.mutexes, ..*self }).wf_queue_at(q));
                    }
                }
                Ok(())
            },
        }
    }

    /// Acquire mutex `m` from the running task, waiting up to `timeout`
    /// ticks when another task holds it.
    pub fn mutex_lock(&mut self, m: usize, timeout: u64) -> (r: BlockOutcome)
        requires
            old(self).wf(),
            (m as int) < old(self).mutexes@.len(),
            old(self).current is Some,
            old(self).ints_enabled,
        ensures
            final(self).wf(),
            final(self).ticks == old(self).ticks,
            final(self).ints_enabled == old(self).ints_enabled,
            final(self).heap == old(self).heap,
            final(self).sems@ == old(self).sems@,
            final(self).queues@ == old(self).queues@,
            final(self).tasks@.len() == old(self).tasks@.len(),
            final(self).mutexes@.len() == old(self).mutexes@.len(),
            forall|m2: int|
                0 <= m2 < old(self).mutexes@.len() && m2 != m as int ==> final(self).mutexes@[m2]
                    == old(self).mutexes@[m2],
            ({
                let b = old(self).mutexes@[m as int];
                let c = old(self).current.unwrap();
                &&& (b.owner is None ==> r == BlockOutcome::Done && final(self).mutexes@[
                    m as int
                ].owner == Some(c) && final(self).tasks@ == old(self).tasks@ && final(self).current
                    == old(self).current)
                &&& (b.owner == Some(c) ==> r == BlockOutcome::Fail(KError::AlreadyOwner) && *final(self) == *old(self))
                &&& (b.owner is Some && b.owner != Some(c) && timeout == 0 ==> r
                    == BlockOutcome::Fail(KError::WouldBlock) && *final(self) == *old(self))
                &&& (b.owner is Some && b.owner != Some(c) && timeout > 0 ==> r
                    == BlockOutcome::Waiting && final(self).tasks@[c as int].state
                    == TaskState::Blocked(BlockReason::Lock(m)) && final(self).mutexes@[
                    m as int
                ].waiters@ == b.waiters@.push(c) && final(self).mutexes@[m as int].owner == b.owner
                    && final(self).decision_respects_priority())
            }),
    {
        let c = self.current.unwrap();
        let held = match self.mutexes[m].owner {
            Some(o) => {
                if o == c {
                    return BlockOutcome::Fail(KError::AlreadyOwner);
                }
                true
            },
            None => false,
        };
        if !held {
            match self.mutex_try_lock(m) {
                Ok(()) => {
                    return BlockOutcome::Done;
                },
                Err(e) => {
                    proof {
                        assert(false);
                    }
                    return BlockOutcome::Fail(e);
                },
            }
        }
        if timeout == 0 {
            return BlockOutcome::Fail(KError::WouldBlock);
        }
        let dl: u64 = if u64::MAX - self.ticks < timeout {
            u64::MAX
        } else {
            self.ticks + timeout
        };
        proof {
            assert(old(self).wf_mutex_at(m as int));
            assert(old(self).wf_task_at(c as int));
        }
        self.mutexes[m].waiters.push(c);
        self.tasks[c].state = TaskState::Blocked(BlockReason::Lock(m));
        self.tasks[c].deadline = Some(dl);
        self.current = None;
        proof {
            let oldk = *old(self);
            let ci = c as int;
            assert(self.tasks@ =~= oldk.tasks@.update(ci, self.tasks@[ci]));
            Self::lemma_wf_after_park(oldk, *self, ci);
            Self::lemma_prims_wf_kept(oldk, Kernel { mutexes: oldk.mutexes, ..*self });
            assert forall|s2: int| 0 <= s2 < self.sems@.len() implies #[trigger] self.wf_sem_at(
                s2,
            ) by {
                assert((Kernel { mutexes: oldk.mutexes, ..*self }).wf_sem_at(s2));
            }
            assert forall|q: int| 0 <= q < self.queues@.len() implies #[trigger] self.wf_queue_at(
                q,
            ) by {
                assert((Kernel { mutexes: oldk.mutexes, ..*self }).wf_queue_at(q));
            }
            assert forall|m2: int| 0 <= m2 < self.mutexes@.len() implies #[trigger] self.wf_mutex_at(
                m2,
            ) by {
                assert(oldk.wf_mutex_at(m2));
                if m2 != m as int {
                    assert(self.mutexes@[m2] == oldk.mutexes@[m2]);
                    assert forall|j: int| 0 <= j < self.mutexes@[m2].waiters@.len() implies (
                    #[trigger] self.mutexes@[m2].waiters@[j]) < self.tasks@.len()
                        && self.tasks@[self.mutexes@[m2].waiters@[j] as int].state
                        == TaskState::Blocked(BlockReason::Lock(m2 as usize)) by {
                        let w = self.mutexes@[m2].waiters@[j];
                        assert(oldk.tasks@[w as int].state == TaskState::Blocked(
                            BlockReason::Lock(m2 as usize),
                        ));
                    }
                } else {
                    assert(self.mutexes@[m2].waiters@ == oldk.mutexes@[m2].waiters@.push(c));
                    assert forall|j: int| 0 <= j < self.mutexes@[m2].waiters@.len() implies (
                    #[trigger] self.mutexes@[m2].waiters@[j]) < self.tasks@.len()
                        && self.tasks@[self.mutexes@[m2].waiters@[j] as int].state
                        == TaskState::Blocked(BlockReason::Lock(m2 as usize)) by {
                        let w = self.mutexes@[m2].waiters@[j];
                        if j < oldk.mutexes@[m2].waiters@.len() {
                            assert(oldk.tasks@[w as int].state == TaskState::Blocked(
                                BlockReason::Lock(m2 as usize),
                            ));
                            assert((w as int) != ci);
                        } else {
                            assert(w == c);
                        }
                    }
                    assert forall|j1: int, j2: int|
                        0 <= j1 < j2 < self.mutexes@[m2].waiters@.len() implies self.mutexes@[
                        m2
                    ].waiters@[j1] != self.mutexes@[m2].waiters@[j2] by {
                        if j2 == self.mutexes@[m2].waiters@.len() - 1 {
                            assert(self.mutexes@[m2].waiters@[j1] == oldk.mutexes@[m2].waiters@[
                                j1
                            ]);
                            assert(oldk.tasks@[oldk.mutexes@[m2].waiters@[j1] as int].state
                                == TaskState::Blocked(BlockReason::Lock(m2 as usize)));
                        }
                    }
                }
            }
            assert forall|p: int, j: int|
                0 <= p < NPRIO as int && 0 <= j < self.ready@[p]@.len() implies {
                let tt = (#[trigger] self.ready@[p]@[j]) as int;
                &&& tt < self.tasks@.len()
                &&& self.tasks@[tt].state is Ready
                &&& self.tasks@[tt].priority as int == p
            } by {
                assert(self.ready@[p]@[j] == oldk.ready@[p]@[j]);
                assert((oldk.ready@[p]@[j] as int) != ci);
            }
            assert forall|i: int|
                0 <= i < self.tasks@.len() && (#[trigger] self.tasks@[i]).state is Ready implies
                self.ready@[self.tasks@[i].priority as int]@.contains(i as TaskId) by {
                assert(oldk.tasks@[i].state is Ready);
                assert(oldk.wf_task_at(i));
            }
            assert forall|i: int| 0 <= i < self.tasks@.len() implies #[trigger] self.wf_task_at(
                i,
            ) by {
                assert(oldk.wf_task_at(i));
                if i != ci {
                    assert(self.tasks@[i] == oldk.tasks@[i]);
                    match oldk.tasks@[i].state {
                        TaskState::Blocked(BlockReason::Lock(m3)) => {
                            if m3 == m {
                                assert(oldk.mutexes@[m3 as int].waiters@.contains(i as TaskId));
                                let jj = choose|jj: int|
                                    0 <= jj < oldk.mutexes@[m3 as int].waiters@.len()
                                        && oldk.mutexes@[m3 as int].waiters@[jj] == i as TaskId;
                                assert(self.mutexes@[m3 as int].waiters@[jj] == i as TaskId);
                            } else {
                                assert(self.mutexes@[m3 as int] == oldk.mutexes@[m3 as int]);
                            }
                        },
                        _ => {},
                    }
                } else {
                    assert(self.mutexes@[m as int].waiters@[self.mutexes@[
                        m as int
                    ].waiters@.len() - 1] == c);
                }
            }
            assert(self.wf());
        }
        let ghost mid = *self;
        self.dispatch();
        proof {
            if mid.pick() is Some {
                let p2 = mid.pick().unwrap();
                mid.lemma_pick_is_highest();
                assert((p2 as int) != c as int);
            }
            assert(self.tasks@[c as int] == mid.tasks@[c as int]);
        }
        BlockOutcome::Waiting
    }

    /// Release mutex `m`. Only the owner may release: an unlock by any
    /// other task is rejected and ownership is unchanged. With waiters
    /// present, ownership passes directly to the best waiter, which is
    /// woken.
    pub fn mutex_unlock(&mut self, m: usize) -> (r: Result<(), KError>)
        requires
            old(self).wf(),
            (m as int) < old(self).mutexes@.len(),
            old(self).current is Some,
        ensures
            final(self).wf(),
            final(self).current == old(self).current,
            final(self).ticks == old(self).ticks,
            final(self).ints_enabled == old(self).ints_enabled,
            final(self).heap == old(self).heap,
            final(self).sems@ == old(self).sems@,
            final(self).queues@ == old(self).queues@,
            final(self).tasks@.len() == old(self).tasks@.len(),
            final(self).mutexes@.len() == old(self).mutexes@.len(),
            forall|m2: int|
                0 <= m2 < old(self).mutexes@.len() && m2 != m as int ==> final(self).mutexes@[m2]
                    == old(self).mutexes@[m2],
            ({
                let b = old(self).mutexes@[m as int];
                let c = old(self).current.unwrap();
                &&& (b.owner != Some(c) ==> r == Err::<(), KError>(KError::NotOwner) && *final(self) == *old(self))
                &&& (b.owner == Some(c) && b.waiters@.len() == 0 ==> r is Ok && final(self).mutexes@[m as int].owner is None && final(self).mutexes@[m as int].waiters@
                    == b.waiters@ && final(self).tasks@ == old(self).tasks@)
                &&& (b.owner == Some(c) && b.waiters@.len() > 0 ==> r is Ok && (exists|j: int|
                    0 <= j < b.waiters@.len() && {
                        let w = b.waiters@[j] as int;
                        &&& final(self).mutexes@[m as int].waiters@ == #[trigger] b.waiters@.remove(
                            j,
                        )
                        &&& final(self).mutexes@[m as int].owner == Some(b.waiters@[j])
                        &&& final(self).tasks@[w].state is Ready
                        &&& final(self).tasks@[w].wake == WakeStatus::Woken
                        &&& (forall|k: int|
                            0 <= k < b.waiters@.len() ==> old(self).tasks@[w].priority <= old(self).tasks@[(#[trigger] b.waiters@[k]) as int].priority)
                        &&& (forall|i: int|
                            0 <= i < old(self).tasks@.len() && i != w ==> final(self).tasks@[i]
                                == old(self).tasks@[i])
                    }))
            }),
    {
        let c = self.current.unwrap();
        let owned = match self.mutexes[m].owner {
            Some(o) => o == c,
            None => false,
        };
        if !owned {
            return Err(KError::NotOwner);
        }
        proof {
            assert(old(self).wf_mutex_at(m as int));
        }
        if self.mutexes[m].waiters.len() == 0 {
            self.mutexes[m].owner = None;
            proof {
                let oldk = *old(self);
                assert forall|i: int| 0 <= i < self.tasks@.len() implies #[trigger] self.wf_task_at(
                    i,
                ) by {
                    assert(oldk.wf_task_at(i));
                    match oldk.tasks@[i].state {
                        TaskState::Blocked(BlockReason::Lock(m2)) => {
                            assert(self.mutexes@[m2 as int].waiters@ == oldk.mutexes@[
                                m2 as int
                            ].waiters@);
                        },
                        _ => {},
                    }
                }
                assert forall|m2: int|
                    0 <= m2 < self.mutexes@.len() implies #[trigger] self.wf_mutex_at(m2) by {
                    assert(oldk.wf_mutex_at(m2));
                    if m2 != m as int {
                        assert(self.mutexes@[m2] == oldk.mutexes@[m2]);
                    }
                }
                Self::lemma_prims_wf_kept(oldk, Kernel { mutexes: oldk.mutexes, ..*self });
                assert forall|s2: int| 0 <= s2 < self.sems@.len() implies #[trigger] self.wf_sem_at(
                    s2,
                ) by {
                    assert((Kernel { mutexes: oldk.mutexes, ..*self }).wf_sem_at(s2));
                }
                assert forall|q: int|
                    0 <= q < self.queues@.len() implies #[trigger] self.wf_queue_at(q) by {
                    assert((Kernel { mutexes: oldk.mutexes, ..*self }).wf_queue_at(q));
                }
            }
            return Ok(());
        }
        let j = Self::best_waiter(&self.tasks, &self.mutexes[m].waiters);
        let ghost wset0 = self.mutexes@[m as int].waiters@;
        let w = self.mutexes[m].waiters.remove(j);
        self.mutexes[m].owner = Some(w);
        self.tasks[w].state = TaskState::Ready;
        self.tasks[w].deadline = None;
        self.tasks[w].wake = WakeStatus::Woken;
        proof {
            assert(old(self).wf_task_at(w as int));
        }
        self.push_ready(w);
        proof {
            let oldk = *old(self);
            let wi = w as int;
            let pw = oldk.tasks@[wi].priority as int;
            lemma_vec_len_bound(&self.tasks);
            lemma_vec_len_bound(&self.sems);
            lemma_vec_len_bound(&self.mutexes);
            lemma_vec_len_bound(&self.queues);
            wset0.remove_ensures(j as int);
            assert(!self.mutexes@[m as int].waiters@.contains(w)) by {
                if self.mutexes@[m as int].waiters@.contains(w) {
                    let jj = choose|jj: int|
                        0 <= jj < self.mutexes@[m as int].waiters@.len() && self.mutexes@[
                            m as int
                        ].waiters@[jj] == w;
                    if jj < j as int {
                        assert(wset0[jj] == w);
                        assert(wset0[jj] != wset0[j as int]);
                    } else {
                        assert(wset0[jj + 1] == w);
                        assert(wset0[j as int] != wset0[jj + 1]);
                    }
                }
            }
            assert forall|m2: int| 0 <= m2 < self.mutexes@.len() implies #[trigger] self.wf_mutex_at(
                m2,
            ) by {
                assert(oldk.wf_mutex_at(m2));
                assert forall|jj: int| 0 <= jj < self.mutexes@[m2].waiters@.len() implies (
                #[trigger] self.mutexes@[m2].waiters@[jj]) < self.tasks@.len()
                    && self.tasks@[self.mutexes@[m2].waiters@[jj] as int].state
                    == TaskState::Blocked(BlockReason::Lock(m2 as usize)) by {
                    let w2 = self.mutexes@[m2].waiters@[jj];
                    if m2 == m as int {
                        assert(wset0[j as int] == w);
                        if jj < j as int {
                            assert(wset0[jj] == w2);
                            assert(wset0[jj] != wset0[j as int]);
                        } else {
                            assert(wset0[jj + 1] == w2);
                            assert(wset0[j as int] != wset0[jj + 1]);
                        }
                        assert(wset0.contains(w2));
                        assert(oldk.tasks@[w2 as int].state == TaskState::Blocked(
                            BlockReason::Lock(m2 as usize),
                        ));
                        assert(w2 != w);
                        assert((w2 as int) != wi);
                    } else {
                        assert(self.mutexes@[m2] == oldk.mutexes@[m2]);
                        assert(oldk.tasks@[w2 as int].state == TaskState::Blocked(
                            BlockReason::Lock(m2 as usize),
                        ));
                        assert((w2 as int) != wi);
                    }
                }
                if m2 == m as int {
                    assert forall|j1: int, j2: int|
                        0 <= j1 < j2 < self.mutexes@[m2].waiters@.len() implies self.mutexes@[
                        m2
                    ].waiters@[j1] != self.mutexes@[m2].waiters@[j2] by {
                        let a1: int = if j1 < j as int {
                            j1
                        } else {
                            j1 + 1
                        };
                        let a2: int = if j2 < j as int {
                            j2
                        } else {
                            j2 + 1
                        };
                        assert(self.mutexes@[m2].waiters@[j1] == wset0[a1]);
                        assert(self.mutexes@[m2].waiters@[j2] == wset0[a2]);
                    }
                }
            }
            assert forall|s2: int| 0 <= s2 < self.sems@.len() implies #[trigger] self.wf_sem_at(
                s2,
            ) by {
                assert(oldk.wf_sem_at(s2));
                assert forall|jj: int| 0 <= jj < self.sems@[s2].waiters@.len() implies (
                #[trigger] self.sems@[s2].waiters@[jj]) < self.tasks@.len()
                    && self.tasks@[self.sems@[s2].waiters@[jj] as int].state
                    == TaskState::Blocked(BlockReason::Sem(s2 as usize)) by {
                    let w2 = self.sems@[s2].waiters@[jj];
                    assert(oldk.tasks@[w2 as int].state == TaskState::Blocked(
                        BlockReason::Sem(s2 as usize),
                    ));
                    assert((w2 as int) != wi);
                }
            }
            assert forall|q: int| 0 <= q < self.queues@.len() implies #[trigger] self.wf_queue_at(
                q,
            ) by {
                assert(oldk.wf_queue_at(q));
                assert forall|jj: int| 0 <= jj < self.queues@[q].send_waiters@.len() implies (
                #[trigger] self.queues@[q].send_waiters@[jj]) < self.tasks@.len()
                    && self.tasks@[self.queues@[q].send_waiters@[jj] as int].state
                    == TaskState::Blocked(BlockReason::Send(q as usize)) by {
                    let w2 = self.queues@[q].send_waiters@[jj];
                    assert(oldk.tasks@[w2 as int].state == TaskState::Blocked(
                        BlockReason::Send(q as usize),
                    ));
                    assert((w2 as int) != wi);
                }
                assert forall|jj: int| 0 <= jj < self.queues@[q].recv_waiters@.len() implies (
                #[trigger] self.queues@[q].recv_waiters@[jj]) < self.tasks@.len()
                    && self.tasks@[self.queues@[q].recv_waiters@[jj] as int].state
                    == TaskState::Blocked(BlockReason::Recv(q as usize)) by {
                    let w2 = self.queues@[q].recv_waiters@[jj];
                    assert(oldk.tasks@[w2 as int].state == TaskState::Blocked(
                        BlockReason::Recv(q as usize),
                    ));
                    assert((w2 as int) != wi);
                }
            }
            assert forall|p: int, jj: int|
                0 <= p < NPRIO as int && 0 <= jj < self.ready@[p]@.len() implies {
                let tt = (#[trigger] self.ready@[p]@[jj]) as int;
                &&& tt < self.tasks@.len()
                &&& self.tasks@[tt].state is Ready
                &&& self.tasks@[tt].priority as int == p
            } by {
                if p == pw && jj == self.ready@[p]@.len() - 1 {
                } else {
                    assert(self.ready@[p]@[jj] == oldk.ready@[p]@[jj]);
                    assert((oldk.ready@[p]@[jj] as int) != wi);
                }
            }
            assert forall|p: int| 0 <= p < NPRIO as int implies distinct_seq(
                (#[trigger] self.ready@[p])@,
            ) by {
                if p == pw {
                    assert forall|j1: int, j2: int|
                        0 <= j1 < j2 < self.ready@[p]@.len() implies self.ready@[p]@[j1]
                        != self.ready@[p]@[j2] by {
                        if j2 == self.ready@[p]@.len() - 1 {
                            assert(self.ready@[p]@[j1] == oldk.ready@[p]@[j1]);
                            assert((oldk.ready@[p]@[j1] as int) != wi);
                        } else {
                            assert(self.ready@[p]@[j1] == oldk.ready@[p]@[j1]);
                            assert(self.ready@[p]@[j2] == oldk.ready@[p]@[j2]);
                        }
                    }
                }
            }
            assert forall|i: int|
                0 <= i < self.tasks@.len() && (#[trigger] self.tasks@[i]).state is Ready implies
                self.ready@[self.tasks@[i].priority as int]@.contains(i as TaskId) by {
                if i == wi {
                    assert(self.ready@[pw]@[self.ready@[pw]@.len() - 1] == w);
                } else {
                    assert(oldk.tasks@[i].state is Ready);
                    assert(oldk.wf_task_at(i));
                    let jx = choose|jx: int|
                        0 <= jx < oldk.ready@[oldk.tasks@[i].priority as int]@.len()
                            && oldk.ready@[oldk.tasks@[i].priority as int]@[jx] == i as TaskId;
                    assert(self.ready@[oldk.tasks@[i].priority as int]@[jx] == i as TaskId);
                }
            }
            assert forall|i: int| 0 <= i < self.tasks@.len() implies #[trigger] self.wf_task_at(
                i,
            ) by {
                assert(oldk.wf_task_at(i));
                if i != wi {
                    assert(self.tasks@[i] == oldk.tasks@[i]);
                    match oldk.tasks@[i].state {
                        TaskState::Blocked(BlockReason::Lock(m3)) => {
                            if m3 == m {
                                assert(oldk.mutexes@[m3 as int].waiters@.contains(i as TaskId));
                                assert((i as TaskId) != w);
                                let jy = choose|jy: int|
                                    0 <= jy < wset0.len() && wset0[jy] == i as TaskId;
                                assert(wset0[j as int] == w);
                                assert(jy != j as int);
                                if jy < j as int {
                                    assert(self.mutexes@[m3 as int].waiters@[jy] == i as TaskId);
                                } else {
                                    assert(self.mutexes@[m3 as int].waiters@[jy - 1]
                                        == i as TaskId);
                                }
                                assert(self.mutexes@[m3 as int].waiters@.contains(i as TaskId));
                            } else {
                                assert(self.mutexes@[m3 as int] == oldk.mutexes@[m3 as int]);
                            }
                        },
                        _ => {},
                    }
                }
            }
            assert forall|i1: int, i2: int|
                0 <= i1 < i2 < self.tasks@.len() && !((#[trigger] self.tasks@[i1]).state
                    is Deleted) && !((#[trigger] self.tasks@[i2]).state is Deleted) implies
                self.tasks@[i1].stack_block != self.tasks@[i2].stack_block by {
                assert(!(oldk.tasks@[i1].state is Deleted));
                assert(!(oldk.tasks@[i2].state is Deleted));
            }
            assert(self.wf_current()) by {
                if oldk.current is Some {
                    let cc = oldk.current.unwrap();
                    assert(self.tasks@[cc as int].state is Running);
                    assert forall|i: int|
                        0 <= i < self.tasks@.len() && (#[trigger] self.tasks@[i]).state
                            is Running implies i == cc as int by {
                        assert(oldk.tasks@[i].state is Running || i == wi);
                    }
                }
            }
            assert(self.wf());
            assert(self.mutexes@[m as int].waiters@ == wset0.remove(j as int));
        }
        Ok(())
    }

    /// Create a message queue of `capacity` slots, each holding one
    /// message of exactly `msg_size` bytes.
    pub fn queue_create(&mut self, capacity: usize, msg_size: usize) -> (r: Result<usize, KError>)
        requires
            old(self).wf(),
        ensures
            final(self).wf(),
            capacity == 0 ==> r == Err::<usize, KError>(KError::InvalidState) && *final(self)
                == *old(self),
            capacity >= 1 ==> {
                &&& r == Ok::<usize, KError>(old(self).queues@.len() as usize)
                &&& final(self).queues@.len() == old(self).queues@.len() + 1
                &&& (forall|q: int|
                    0 <= q < old(self).queues@.len() ==> final(self).queues@[q] == old(self).queues@[q])
                &&& final(self).queues@[old(self).queues@.len() as int].capacity == capacity
                &&& final(self).queues@[old(self).queues@.len() as int].msg_size == msg_size
                &&& final(self).queues@[old(self).queues@.len() as int].items@.len() == 0
                &&& final(self).queues@[old(self).queues@.len() as int].send_waiters@.len() == 0
                &&& final(self).queues@[old(self).queues@.len() as int].recv_waiters@.len() == 0
                &&& final(self).tasks@ == old(self).tasks@
                &&& final(self).ready@ == old(self).ready@
                &&& final(self).current == old(self).current
                &&& final(self).ticks == old(self).ticks
                &&& final(self).ints_enabled == old(self).ints_enabled
                &&& final(self).heap == old(self).heap
                &&& final(self).sems@ == old(self).sems@
                &&& final(self).mutexes@ == old(self).mutexes@
            },
    {
        if capacity == 0 {
            return Err(KError::InvalidState);
        }
        let q = self.queues.len();
        self.queues.push(
            MsgQueue {
                capacity,
                msg_size,
                items: Vec::new(),
                send_waiters: Vec::new(),
                recv_waiters: Vec::new(),
            },
        );
        proof {
            let oldk = *old(self);
            assert forall|i: int| 0 <= i < self.tasks@.len() implies #[trigger] self.wf_task_at(
                i,
            ) by {
                assert(oldk.wf_task_at(i));
                match oldk.tasks@[i].state {
                    TaskState::Blocked(BlockReason::Send(q2)) => {
                        assert(self.queues@[q2 as int] == oldk.queues@[q2 as int]);
                    },
                    TaskState::Blocked(BlockReason::Recv(q2)) => {
                        assert(self.queues@[q2 as int] == oldk.queues@[q2 as int]);
                    },
                    _ => {},
                }
            }
            assert forall|q2: int| 0 <= q2 < self.queues@.len() implies #[trigger] self.wf_queue_at(
                q2,
            ) by {
                if q2 < oldk.queues@.len() {
                    assert(oldk.wf_queue_at(q2));
                    assert(self.queues@[q2] == oldk.queues@[q2]);
                }
            }
            Self::lemma_prims_wf_kept(oldk, Kernel { queues: oldk.queues, ..*self });
            assert forall|s2: int| 0 <= s2 < self.sems@.len() implies #[trigger] self.wf_sem_at(
                s2,
            ) by {
                assert((Kernel { queues: oldk.queues, ..*self }).wf_sem_at(s2));
            }
            assert forall|m2: int| 0 <= m2 < self.mutexes@.len() implies #[trigger] self.wf_mutex_at(
                m2,
            ) by {
                assert((Kernel { queues: oldk.queues, ..*self }).wf_mutex_at(m2));
            }
        }
        Ok(q)
    }

    /// Send into queue `q` without ever blocking: usable from interrupt
    /// context. With a receiver waiting, the message is handed to the best
    /// waiter directly; with buffer space, it is appended; a full queue
    /// fails immediately. A message of the wrong size is rejected.
    pub fn queue_try_send(&mut self, q: usize, msg: Vec<u8>) -> (r: Result<(), KError>)
        requires
            old(self).wf(),
            (q as int) < old(self).queues@.len(),
        ensures
            final(self).wf(),
            final(self).current == old(self).current,
            final(self).ticks == old(self).ticks,
            final(self).ints_enabled == old(self).ints_enabled,
            final(self).heap == old(self).heap,
            final(self).sems@ == old(self).sems@,
            final(self).mutexes@ == old(self).mutexes@,
            final(self).tasks@.len() == old(self).tasks@.len(),
            final(self).queues@.len() == old(self).queues@.len(),
            forall|q2: int|
                0 <= q2 < old(self).queues@.len() && q2 != q as int ==> final(self).queues@[q2]
                    == old(self).queues@[q2],
            ({
                let b = old(self).queues@[q as int];
                &&& (msg@.len() != b.msg_size ==> r == Err::<(), KError>(KError::BadSize) && *final(self) == *old(self))
                &&& (msg@.len() == b.msg_size && b.recv_waiters@.len() > 0 ==> r is Ok && final(self).queues@[q as int].items@ == b.items@ && final(self).queues@[
                    q as int
                ].send_waiters@ == b.send_waiters@ && (exists|j: int|
                    0 <= j < b.recv_waiters@.len() && {
                        let w = b.recv_waiters@[j] as int;
                        &&& final(self).queues@[q as int].recv_waiters@
                            == #[trigger] b.recv_waiters@.remove(j)
                        &&& final(self).tasks@[w].state is Ready
                        &&& final(self).tasks@[w].wake == WakeStatus::Received(msg)
                        &&& (forall|k: int|
                            0 <= k < b.recv_waiters@.len() ==> old(self).tasks@[w].priority <= old(self).tasks@[(#[trigger] b.recv_waiters@[k]) as int].priority)
                        &&& (forall|i: int|
                            0 <= i < old(self).tasks@.len() && i != w ==> final(self).tasks@[i]
                                == old(self).tasks@[i])
                    }))
                &&& (msg@.len() == b.msg_size && b.recv_waiters@.len() == 0 && b.items@.len()
                    < b.capacity ==> r is Ok && final(self).queues@[q as int].items@
                    == b.items@.push(msg) && final(self).queues@[q as int].send_waiters@
                    == b.send_waiters@ && final(self).queues@[q as int].recv_waiters@
                    == b.recv_waiters@ && final(self).tasks@ == old(self).tasks@ && final(self).ready@ == old(self).ready@)
                &&& (msg@.len() == b.msg_size && b.recv_waiters@.len() == 0 && b.items@.len()
                    >= b.capacity ==> r == Err::<(), KError>(KError::WouldBlock) && *final(self)
                    == *old(self))
            }),
    {
        proof {
            assert(old(self).wf_queue_at(q as int));
        }
        if msg.len() != self.queues[q].msg_size {
            return Err(KError::BadSize);
        }
        if self.queues[q].recv_waiters.len() > 0 {
            let j = Self::best_waiter(&self.tasks, &self.queues[q].recv_waiters);
            let ghost wset0 = self.queues@[q as int].recv_waiters@;
            let w = self.queues[q].recv_waiters.remove(j);
            self.tasks[w].state = TaskState::Ready;
            self.tasks[w].deadline = None;
            self.tasks[w].wake = WakeStatus::Received(msg);
            proof {
                assert(old(self).wf_task_at(w as int));
            }
            self.push_ready(w);
            proof {
                let oldk = *old(self);
                let wi = w as int;
                let pw = oldk.tasks@[wi].priority as int;
                lemma_vec_len_bound(&self.tasks);
                lemma_vec_len_bound(&self.sems);
                lemma_vec_len_bound(&self.mutexes);
                lemma_vec_len_bound(&self.queues);
                wset0.remove_ensures(j as int);
                assert(!self.queues@[q as int].recv_waiters@.contains(w)) by {
                    if self.queues@[q as int].recv_waiters@.contains(w) {
                        let jj = choose|jj: int|
                            0 <= jj < self.queues@[q as int].recv_waiters@.len() && self.queues@[
                                q as int
                            ].recv_waiters@[jj] == w;
                        if jj < j as int {
                            assert(wset0[jj] == w);
                            assert(wset0[jj] != wset0[j as int]);
                        } else {
                            assert(wset0[jj + 1] == w);
                            assert(wset0[j as int] != wset0[jj + 1]);
                        }
                    }
                }
                assert forall|q2: int|
                    0 <= q2 < self.queues@.len() implies #[trigger] self.wf_queue_at(q2) by {
                    assert(oldk.wf_queue_at(q2));
                    assert forall|jj: int| 0 <= jj < self.queues@[q2].recv_waiters@.len() implies (
                    #[trigger] self.queues@[q2].recv_waiters@[jj]) < self.tasks@.len()
                        && self.tasks@[self.queues@[q2].recv_waiters@[jj] as int].state
                        == TaskState::Blocked(BlockReason::Recv(q2 as usize)) by {
                        let w2 = self.queues@[q2].recv_waiters@[jj];
                        if q2 == q as int {
                            assert(wset0[j as int] == w);
                            if jj < j as int {
                                assert(wset0[jj] == w2);
                                assert(wset0[jj] != wset0[j as int]);
                            } else {
                                assert(wset0[jj + 1] == w2);
                                assert(wset0[j as int] != wset0[jj + 1]);
                            }
                            assert(wset0.contains(w2));
                            assert(oldk.tasks@[w2 as int].state == TaskState::Blocked(
                                BlockReason::Recv(q2 as usize),
                            ));
                            assert(w2 != w);
                            assert((w2 as int) != wi);
                        } else {
                            assert(self.queues@[q2] == oldk.queues@[q2]);
                            assert(oldk.tasks@[w2 as int].state == TaskState::Blocked(
                                BlockReason::Recv(q2 as usize),
                            ));
                            assert((w2 as int) != wi);
                        }
                    }
                    assert forall|jj: int| 0 <= jj < self.queues@[q2].send_waiters@.len() implies (
                    #[trigger] self.queues@[q2].send_waiters@[jj]) < self.tasks@.len()
                        && self.tasks@[self.queues@[q2].send_waiters@[jj] as int].state
                        == TaskState::Blocked(BlockReason::Send(q2 as usize)) by {
                        let w2 = self.queues@[q2].send_waiters@[jj];
                        assert(oldk.tasks@[w2 as int].state == TaskState::Blocked(
                            BlockReason::Send(q2 as usize),
                        ));
                        assert((w2 as int) != wi);
                    }
                    if q2 == q as int {
                        assert forall|j1: int, j2: int|
                            0 <= j1 < j2 < self.queues@[q2].recv_waiters@.len() implies
                            self.queues@[q2].recv_waiters@[j1] != self.queues@[q2].recv_waiters@[
                            j2
                        ] by {
                            let a1: int = if j1 < j as int {
                                j1
                            } else {
                                j1 + 1
                            };
                            let a2: int = if j2 < j as int {
                                j2
                            } else {
                                j2 + 1
                            };
                            assert(self.queues@[q2].recv_waiters@[j1] == wset0[a1]);
                            assert(self.queues@[q2].recv_waiters@[j2] == wset0[a2]);
                        }
                    }
                }
                assert forall|s2: int| 0 <= s2 < self.sems@.len() implies #[trigger] self.wf_sem_at(
                    s2,
                ) by {
                    assert(oldk.wf_sem_at(s2));
                    assert forall|jj: int| 0 <= jj < self.sems@[s2].waiters@.len() implies (
                    #[trigger] self.sems@[s2].waiters@[jj]) < self.tasks@.len()
                        && self.tasks@[self.sems@[s2].waiters@[jj] as int].state
                        == TaskState::Blocked(BlockReason::Sem(s2 as usize)) by {
                        let w2 = self.sems@[s2].waiters@[jj];
                        assert(oldk.tasks@[w2 as int].state == TaskState::Blocked(
                            BlockReason::Sem(s2 as usize),
                        ));
                        assert((w2 as int) != wi);
                    }
                }
                assert forall|m2: int|
                    0 <= m2 < self.mutexes@.len() implies #[trigger] self.wf_mutex_at(m2) by {
                    assert(oldk.wf_mutex_at(m2));
                    assert forall|jj: int| 0 <= jj < self.mutexes@[m2].waiters@.len() implies (
                    #[trigger] self.mutexes@[m2].waiters@[jj]) < self.tasks@.len()
                        && self.tasks@[self.mutexes@[m2].waiters@[jj] as int].state
                        == TaskState::Blocked(BlockReason::Lock(m2 as usize)) by {
                        let w2 = self.mutexes@[m2].waiters@[jj];
                        assert(oldk.tasks@[w2 as int].state == TaskState::Blocked(
                            BlockReason::Lock(m2 as usize),
                        ));
                        assert((w2 as int) != wi);
                    }
                }
                assert forall|p: int, jj: int|
                    0 <= p < NPRIO as int && 0 <= jj < self.ready@[p]@.len() implies {
                    let tt = (#[trigger] self.ready@[p]@[jj]) as int;
                    &&& tt < self.tasks@.len()
                    &&& self.tasks@[tt].state is Ready
                    &&& self.tasks@[tt].priority as int == p
                } by {
                    if p == pw && jj == self.ready@[p]@.len() - 1 {
                    } else {
                        assert(self.ready@[p]@[jj] == oldk.ready@[p]@[jj]);
                        assert((oldk.ready@[p]@[jj] as int) != wi);
                    }
                }
                assert forall|p: int| 0 <= p < NPRIO as int implies distinct_seq(
                    (#[trigger] self.ready@[p])@,
                ) by {
                    if p == pw {
                        assert forall|j1: int, j2: int|
                            0 <= j1 < j2 < self.ready@[p]@.len() implies self.ready@[p]@[j1]
                            != self.ready@[p]@[j2] by {
                            if j2 == self.ready@[p]@.len() - 1 {
                                assert(self.ready@[p]@[j1] == oldk.ready@[p]@[j1]);
                                assert((oldk.ready@[p]@[j1] as int) != wi);
                            } else {
                                assert(self.ready@[p]@[j1] == oldk.ready@[p]@[j1]);
                                assert(self.ready@[p]@[j2] == oldk.ready@[p]@[j2]);
                            }
                        }
                    }
                }
                assert forall|i: int|
                    0 <= i < self.tasks@.len() && (#[trigger] self.tasks@[i]).state is Ready
                        implies self.ready@[self.tasks@[i].priority as int]@.contains(
                    i as TaskId,
                ) by {
                    if i == wi {
                        assert(self.ready@[pw]@[self.ready@[pw]@.len() - 1] == w);
                    } else {
                        assert(oldk.tasks@[i].state is Ready);
                        assert(oldk.wf_task_at(i));
                        let jx = choose|jx: int|
                            0 <= jx < oldk.ready@[oldk.tasks@[i].priority as int]@.len()
                                && oldk.ready@[oldk.tasks@[i].priority as int]@[jx] == i as TaskId;
                        assert(self.ready@[oldk.tasks@[i].priority as int]@[jx] == i as TaskId);
                    }
                }
                assert forall|i: int| 0 <= i < self.tasks@.len() implies #[trigger] self.wf_task_at(
                    i,
                ) by {
                    assert(oldk.wf_task_at(i));
                    if i != wi {
                        assert(self.tasks@[i] == oldk.tasks@[i]);
                        match oldk.tasks@[i].state {
                            TaskState::Blocked(BlockReason::Recv(q3)) => {
                                if q3 == q {
                                    assert(oldk.queues@[q3 as int].recv_waiters@.contains(
                                        i as TaskId,
                                    ));
                                    assert((i as TaskId) != w);
                                    let jy = choose|jy: int|
                                        0 <= jy < wset0.len() && wset0[jy] == i as TaskId;
                                    assert(wset0[j as int] == w);
                                    assert(jy != j as int);
                                    if jy < j as int {
                                        assert(self.queues@[q3 as int].recv_waiters@[jy]
                                            == i as TaskId);
                                    } else {
                                        assert(self.queues@[q3 as int].recv_waiters@[jy - 1]
                                            == i as TaskId);
                                    }
                                    assert(self.queues@[q3 as int].recv_waiters@.contains(
                                        i as TaskId,
                                    ));
                                } else {
                                    assert(self.queues@[q3 as int] == oldk.queues@[q3 as int]);
                                }
                            },
                            TaskState::Blocked(BlockReason::Send(q3)) => {
                                if q3 == q {
                                    assert(self.queues@[q3 as int].send_waiters@ == oldk.queues@[
                                        q3 as int
                                    ].send_waiters@);
                                } else {
                                    assert(self.queues@[q3 as int] == oldk.queues@[q3 as int]);
                                }
                            },
                            _ => {},
                        }
                    }
                }
                assert forall|i1: int, i2: int|
                    0 <= i1 < i2 < self.tasks@.len() && !((#[trigger] self.tasks@[i1]).state
                        is Deleted) && !((#[trigger] self.tasks@[i2]).state is Deleted) implies
                    self.tasks@[i1].stack_block != self.tasks@[i2].stack_block by {
                    assert(!(oldk.tasks@[i1].state is Deleted));
                    assert(!(oldk.tasks@[i2].state is Deleted));
                }
                assert(self.wf_current()) by {
                    if oldk.current is Some {
                        let cc = oldk.current.unwrap();
                        assert(self.tasks@[cc as int].state is Running);
                        assert forall|i: int|
                            0 <= i < self.tasks@.len() && (#[trigger] self.tasks@[i]).state
                                is Running implies i == cc as int by {
                            assert(oldk.tasks@[i].state is Running || i == wi);
                        }
                    }
                }
                assert(self.wf());
                assert(self.queues@[q as int].recv_waiters@ == wset0.remove(j as int));
            }
            return Ok(());
        }
        if self.queues[q].items.len() < self.queues[q].capacity {
            self.queues[q].items.push(msg);
            proof {
                let oldk = *old(self);
                assert forall|i: int| 0 <= i < self.tasks@.len() implies #[trigger] self.wf_task_at(
                    i,
                ) by {
                    assert(oldk.wf_task_at(i));
                    match oldk.tasks@[i].state {
                        TaskState::Blocked(BlockReason::Send(q2)) => {
                            assert(self.queues@[q2 as int].send_waiters@ == oldk.queues@[
                                q2 as int
                            ].send_waiters@);
                            assert(self.queues@[q2 as int].msg_size == oldk.queues@[
                                q2 as int
                            ].msg_size);
                        },
                        TaskState::Blocked(BlockReason::Recv(q2)) => {
                            assert(self.queues@[q2 as int].recv_waiters@ == oldk.queues@[
                                q2 as int
                            ].recv_waiters@);
                        },
                        _ => {},
                    }
                }
                assert forall|q2: int|
                    0 <= q2 < self.queues@.len() implies #[trigger] self.wf_queue_at(q2) by {
                    assert(oldk.wf_queue_at(q2));
                    if q2 != q as int {
                        assert(self.queues@[q2] == oldk.queues@[q2]);
                    } else {
                        assert(oldk.queues@[q2].send_waiters@.len() == 0);
                        assert forall|jj: int|
                            0 <= jj < self.queues@[q2].items@.len() implies (
                        #[trigger] self.queues@[q2].items@[jj])@.len() == self.queues@[
                            q2
                        ].msg_size as int by {
                            if jj < oldk.queues@[q2].items@.len() {
                                assert(self.queues@[q2].items@[jj] == oldk.queues@[q2].items@[jj]);
                            } else {
                                assert(self.queues@[q2].items@[jj] == msg);
                            }
                        }
                    }
                }
                Self::lemma_prims_wf_kept(oldk, Kernel { queues: oldk.queues, ..*self });
                assert forall|s2: int| 0 <= s2 < self.sems@.len() implies #[trigger] self.wf_sem_at(
                    s2,
                ) by {
                    assert((Kernel { queues: oldk.queues, ..*self }).wf_sem_at(s2));
                }
                assert forall|m2: int|
                    0 <= m2 < self.mutexes@.len() implies #[trigger] self.wf_mutex_at(m2) by {
                    assert((Kernel { queues: oldk.queues, ..*self }).wf_mutex_at(m2));
                }
            }
            return Ok(());
        }
        Err(KError::WouldBlock)
    }

    /// Send into queue `q` from the running task, waiting up to `timeout`
    /// ticks for space when the queue is full. A blocked sender carries its
    /// message and delivers it when a receiver frees a slot.
    pub fn queue_send(&mut self, q: usize, msg: Vec<u8>, timeout: u64) -> (r: BlockOutcome)
        requires
            old(self).wf(),
            (q as int) < old(self).queues@.len(),
            old(self).current is Some,
            old(self).ints_enabled,
        ensures
            final(self).wf(),
            final(self).ticks == old(self).ticks,
            final(self).ints_enabled == old(self).ints_enabled,
            final(self).heap == old(self).heap,
            final(self).sems@ == old(self).sems@,
            final(self).mutexes@ == old(self).mutexes@,
            final(self).tasks@.len() == old(self).tasks@.len(),
            final(self).queues@.len() == old(self).queues@.len(),
            forall|q2: int|
                0 <= q2 < old(self).queues@.len() && q2 != q as int ==> final(self).queues@[q2]
                    == old(self).queues@[q2],
            ({
                let b = old(self).queues@[q as int];
                let c = old(self).current.unwrap() as int;
                &&& (msg@.len() != b.msg_size ==> r == BlockOutcome::Fail(KError::BadSize)
                    && *final(self) == *old(self))
                &&& (msg@.len() == b.msg_size && (b.recv_waiters@.len() > 0 || b.items@.len()
                    < b.capacity) ==> r == BlockOutcome::Done && final(self).current == old(self).current)
                &&& (msg@.len() == b.msg_size && b.recv_waiters@.len() == 0 && b.items@.len()
                    >= b.capacity && timeout == 0 ==> r == BlockOutcome::Fail(KError::WouldBlock)
                    && *final(self) == *old(self))
                &&& (msg@.len() == b.msg_size && b.recv_waiters@.len() == 0 && b.items@.len()
                    >= b.capacity && timeout > 0 ==> r == BlockOutcome::Waiting && final(self).tasks@[c].state == TaskState::Blocked(BlockReason::Send(q)) && final(self).tasks@[c].pending_send == Some(msg) && final(self).queues@[q as int].send_waiters@
                    == b.send_waiters@.push(c as TaskId) && final(self).queues@[q as int].items@
                    == b.items@ && final(self).decision_respects_priority())
            }),
    {
        proof {
            assert(old(self).wf_queue_at(q as int));
        }
        if msg.len() != self.queues[q].msg_size {
            return BlockOutcome::Fail(KError::BadSize);
        }
        if self.queues[q].recv_waiters.len() > 0 || self.queues[q].items.len()
            < self.queues[q].capacity {
            match self.queue_try_send(q, msg) {
                Ok(()) => {
                    return BlockOutcome::Done;
                },
                Err(e) => {
                    proof {
                        assert(false);
                    }
                    return BlockOutcome::Fail(e);
                },
            }
        }
        if timeout == 0 {
            return BlockOutcome::Fail(KError::WouldBlock);
        }
        let c = self.current.unwrap();
        let dl: u64 = if u64::MAX - self.ticks < timeout {
            u64::MAX
        } else {
            self.ticks + timeout
        };
        proof {
            assert(old(self).wf_task_at(c as int));
        }
        self.queues[q].send_waiters.push(c);
        self.tasks[c].state = TaskState::Blocked(BlockReason::Send(q));
        self.tasks[c].deadline = Some(dl);
        self.tasks[c].pending_send = Some(msg);
        self.current = None;
        proof {
            let oldk = *old(self);
            let ci = c as int;
            assert(self.tasks@ =~= oldk.tasks@.update(ci, self.tasks@[ci]));
            Self::lemma_wf_after_park(oldk, *self, ci);
            Self::lemma_prims_wf_kept(oldk, Kernel { queues: oldk.queues, ..*self });
            assert forall|s2: int| 0 <= s2 < self.sems@.len() implies #[trigger] self.wf_sem_at(
                s2,
            ) by {
                assert((Kernel { queues: oldk.queues, ..*self }).wf_sem_at(s2));
            }
            assert forall|m2: int| 0 <= m2 < self.mutexes@.len() implies #[trigger] self.wf_mutex_at(
                m2,
            ) by {
                assert((Kernel { queues: oldk.queues, ..*self }).wf_mutex_at(m2));
            }
            assert forall|q2: int| 0 <= q2 < self.queues@.len() implies #[trigger] self.wf_queue_at(
                q2,
            ) by {
                assert(oldk.wf_queue_at(q2));
                if q2 != q as int {
                    assert(self.queues@[q2] == oldk.queues@[q2]);
                    assert forall|j: int| 0 <= j < self.queues@[q2].send_waiters@.len() implies (
                    #[trigger] self.queues@[q2].send_waiters@[j]) < self.tasks@.len()
                        && self.tasks@[self.queues@[q2].send_waiters@[j] as int].state
                        == TaskState::Blocked(BlockReason::Send(q2 as usize)) by {
                        let w = self.queues@[q2].send_waiters@[j];
                        assert(oldk.tasks@[w as int].state == TaskState::Blocked(
                            BlockReason::Send(q2 as usize),
                        ));
                    }
                    assert forall|j: int| 0 <= j < self.queues@[q2].recv_waiters@.len() implies (
                    #[trigger] self.queues@[q2].recv_waiters@[j]) < self.tasks@.len()
                        && self.tasks@[self.queues@[q2].recv_waiters@[j] as int].state
                        == TaskState::Blocked(BlockReason::Recv(q2 as usize)) by {
                        let w = self.queues@[q2].recv_waiters@[j];
                        assert(oldk.tasks@[w as int].state == TaskState::Blocked(
                            BlockReason::Recv(q2 as usize),
                        ));
                    }
                } else {
                    assert(self.queues@[q2].send_waiters@ == oldk.queues@[
                        q2
                    ].send_waiters@.push(c));
                    assert forall|j: int| 0 <= j < self.queues@[q2].send_waiters@.len() implies (
                    #[trigger] self.queues@[q2].send_waiters@[j]) < self.tasks@.len()
                        && self.tasks@[self.queues@[q2].send_waiters@[j] as int].state
                        == TaskState::Blocked(BlockReason::Send(q2 as usize)) by {
                        let w = self.queues@[q2].send_waiters@[j];
                        if j < oldk.queues@[q2].send_waiters@.len() {
                            assert(oldk.tasks@[w as int].state == TaskState::Blocked(
                                BlockReason::Send(q2 as usize),
                            ));
                            assert((w as int) != ci);
                        } else {
                            assert(w == c);
                        }
                    }
                    assert forall|j: int| 0 <= j < self.queues@[q2].recv_waiters@.len() implies (
                    #[trigger] self.queues@[q2].recv_waiters@[j]) < self.tasks@.len()
                        && self.tasks@[self.queues@[q2].recv_waiters@[j] as int].state
                        == TaskState::Blocked(BlockReason::Recv(q2 as usize)) by {
                        let w = self.queues@[q2].recv_waiters@[j];
                        assert(oldk.tasks@[w as int].state == TaskState::Blocked(
                            BlockReason::Recv(q2 as usize),
                        ));
                        assert((w as int) != ci);
                    }
                    assert forall|j1: int, j2: int|
                        0 <= j1 < j2 < self.queues@[q2].send_waiters@.len() implies self.queues@[
                        q2
                    ].send_waiters@[j1] != self.queues@[q2].send_waiters@[j2] by {
                        if j2 == self.queues@[q2].send_waiters@.len() - 1 {
                            assert(self.queues@[q2].send_waiters@[j1] == oldk.queues@[
                                q2
                            ].send_waiters@[j1]);
                            assert(oldk.tasks@[oldk.queues@[q2].send_waiters@[j1] as int].state
                                == TaskState::Blocked(BlockReason::Send(q2 as usize)));
                        }
                    }
                }
            }
            assert forall|p: int, j: int|
                0 <= p < NPRIO as int && 0 <= j < self.ready@[p]@.len() implies {
                let tt = (#[trigger] self.ready@[p]@[j]) as int;
                &&& tt < self.tasks@.len()
                &&& self.tasks@[tt].state is Ready
                &&& self.tasks@[tt].priority as int == p
            } by {
                assert(self.ready@[p]@[j] == oldk.ready@[p]@[j]);
                assert((oldk.ready@[p]@[j] as int) != ci);
            }
            assert forall|i: int|
                0 <= i < self.tasks@.len() && (#[trigger] self.tasks@[i]).state is Ready implies
                self.ready@[self.tasks@[i].priority as int]@.contains(i as TaskId) by {
                assert(oldk.tasks@[i].state is Ready);
                assert(oldk.wf_task_at(i));
            }
            assert forall|i: int| 0 <= i < self.tasks@.len() implies #[trigger] self.wf_task_at(
                i,
            ) by {
                assert(oldk.wf_task_at(i));
                if i != ci {
                    assert(self.tasks@[i] == oldk.tasks@[i]);
                    match oldk.tasks@[i].state {
                        TaskState::Blocked(BlockReason::Send(q3)) => {
                            if q3 == q {
                                assert(oldk.queues@[q3 as int].send_waiters@.contains(
                                    i as TaskId,
                                ));
                                let jj = choose|jj: int|
                                    0 <= jj < oldk.queues@[q3 as int].send_waiters@.len()
                                        && oldk.queues@[q3 as int].send_waiters@[jj]
                                        == i as TaskId;
                                assert(self.queues@[q3 as int].send_waiters@[jj] == i as TaskId);
                            } else {
                                assert(self.queues@[q3 as int] == oldk.queues@[q3 as int]);
                            }
                        },
                        TaskState::Blocked(BlockReason::Recv(q3)) => {
                            if q3 == q {
                                assert(self.queues@[q3 as int].recv_waiters@ == oldk.queues@[
                                    q3 as int
                                ].recv_waiters@);
                            } else {
                                assert(self.queues@[q3 as int] == oldk.queues@[q3 as int]);
                            }
                        },
                        _ => {},
                    }
                } else {
                    assert(self.queues@[q as int].send_waiters@[self.queues@[
                        q as int
                    ].send_waiters@.len() - 1] == c);
                }
            }
            assert(self.wf());
        }
        let ghost mid = *self;
        self.dispatch();
        proof {
            if mid.pick() is Some {
                let p2 = mid.pick().unwrap();
                mid.lemma_pick_is_highest();
                assert((p2 as int) != c as int);
            }
            assert(self.tasks@[c as int] == mid.tasks@[c as int]);
        }
        BlockOutcome::Waiting
    }

    /// Receive from queue `q` without ever blocking: usable from interrupt
    /// context. Returns the oldest message; when a sender was blocked on a
    /// full buffer, the best-ranked one delivers its carried message into
    /// the freed slot and is woken.
    pub fn queue_try_receive(&mut self, q: usize) -> (r: Result<Vec<u8>, KError>)
        requires
            old(self).wf(),
            (q as int) < old(self).queues@.len(),
        ensures
            final(self).wf(),
            final(self).current == old(self).current,
            final(self).ticks == old(self).ticks,
            final(self).ints_enabled == old(self).ints_enabled,
            final(self).heap == old(self).heap,
            final(self).sems@ == old(self).sems@,
            final(self).mutexes@ == old(self).mutexes@,
            final(self).tasks@.len() == old(self).tasks@.len(),
            final(self).queues@.len() == old(self).queues@.len(),
            forall|q2: int|
                0 <= q2 < old(self).queues@.len() && q2 != q as int ==> final(self).queues@[q2]
                    == old(self).queues@[q2],
            ({
                let b = old(self).queues@[q as int];
                &&& (b.items@.len() == 0 ==> r == Err::<Vec<u8>, KError>(KError::WouldBlock)
                    && *final(self) == *old(self))
                &&& (b.items@.len() > 0 ==> (r matches Ok(v) && v@ == b.items@[0]@) && final(self).queues@[q as int].recv_waiters@ == b.recv_waiters@)
                &&& (b.items@.len() > 0 && b.send_waiters@.len() == 0 ==> final(self).queues@[
                    q as int
                ].items@ == b.items@.drop_first() && final(self).tasks@ == old(self).tasks@
                    && final(self).ready@ == old(self).ready@ && final(self).queues@[
                    q as int
                ].send_waiters@ == b.send_waiters@)
                &&& (b.items@.len() > 0 && b.send_waiters@.len() > 0 ==> (exists|j: int|
                    0 <= j < b.send_waiters@.len() && {
                        let w = b.send_waiters@[j] as int;
                        &&& final(self).queues@[q as int].send_waiters@
                            == #[trigger] b.send_waiters@.remove(j)
                        &&& final(self).queues@[q as int].items@ == b.items@.drop_first().push(
                            old(self).tasks@[w].pending_send.unwrap(),
                        )
                        &&& final(self).tasks@[w].state is Ready
                        &&& final(self).tasks@[w].wake == WakeStatus::Woken
                        &&& final(self).tasks@[w].pending_send is None
                        &&& (forall|k: int|
                            0 <= k < b.send_waiters@.len() ==> old(self).tasks@[w].priority <= old(self).tasks@[(#[trigger] b.send_waiters@[k]) as int].priority)
                        &&& (forall|i: int|
                            0 <= i < old(self).tasks@.len() && i != w ==> final(self).tasks@[i]
                                == old(self).tasks@[i])
                    }))
            }),
    {
        proof {
            assert(old(self).wf_queue_at(q as int));
        }
        if self.queues[q].items.len() == 0 {
            return Err(KError::WouldBlock);
        }
        let item = self.queues[q].items.remove(0);
        if self.queues[q].send_waiters.len() == 0 {
            proof {
                let oldk = *old(self);
                assert forall|i: int| 0 <= i < self.tasks@.len() implies #[trigger] self.wf_task_at(
                    i,
                ) by {
                    assert(oldk.wf_task_at(i));
                    match oldk.tasks@[i].state {
                        TaskState::Blocked(BlockReason::Send(q2)) => {
                            assert(self.queues@[q2 as int].send_waiters@ == oldk.queues@[
                                q2 as int
                            ].send_waiters@);
                            assert(self.queues@[q2 as int].msg_size == oldk.queues@[
                                q2 as int
                            ].msg_size);
                        },
                        TaskState::Blocked(BlockReason::Recv(q2)) => {
                            assert(self.queues@[q2 as int].recv_waiters@ == oldk.queues@[
                                q2 as int
                            ].recv_waiters@);
                        },
                        _ => {},
                    }
                }
                assert forall|q2: int|
                    0 <= q2 < self.queues@.len() implies #[trigger] self.wf_queue_at(q2) by {
                    assert(oldk.wf_queue_at(q2));
                    if q2 != q as int {
                        assert(self.queues@[q2] == oldk.queues@[q2]);
                    } else {
                        assert(oldk.queues@[q2].send_waiters@.len() == 0);
                        assert(oldk.queues@[q2].recv_waiters@.len() == 0);
                        assert forall|jj: int|
                            0 <= jj < self.queues@[q2].items@.len() implies (
                        #[trigger] self.queues@[q2].items@[jj])@.len() == self.queues@[
                            q2
                        ].msg_size as int by {
                            assert(self.queues@[q2].items@[jj] == oldk.queues@[q2].items@[jj
                                + 1]);
                        }
                    }
                }
                Self::lemma_prims_wf_kept(oldk, Kernel { queues: oldk.queues, ..*self });
                assert forall|s2: int| 0 <= s2 < self.sems@.len() implies #[trigger] self.wf_sem_at(
                    s2,
                ) by {
                    assert((Kernel { queues: oldk.queues, ..*self }).wf_sem_at(s2));
                }
                assert forall|m2: int|
                    0 <= m2 < self.mutexes@.len() implies #[trigger] self.wf_mutex_at(m2) by {
                    assert((Kernel { queues: oldk.queues, ..*self }).wf_mutex_at(m2));
                }
            }
            return Ok(item);
        }
        let j = Self::best_waiter(&self.tasks, &self.queues[q].send_waiters);
        let ghost wset0 = self.queues@[q as int].send_waiters@;
        let w = self.queues[q].send_waiters.remove(j);
        proof {
            assert(old(self).wf_task_at(w as int));
        }
        let mut pend: Option<Vec<u8>> = None;
        core::mem::swap(&mut pend, &mut self.tasks[w].pending_send);
        match pend {
            Some(pmsg) => {
                self.queues[q].items.push(pmsg);
            },
            None => {
                proof {
                    assert(false);
                }
            },
        }
        self.tasks[w].state = TaskState::Ready;
        self.tasks[w].deadline = None;
        self.tasks[w].wake = WakeStatus::Woken;
        self.push_ready(w);
        proof {
            let oldk = *old(self);
            let wi = w as int;
            let pw = oldk.tasks@[wi].priority as int;
            lemma_vec_len_bound(&self.tasks);
            lemma_vec_len_bound(&self.sems);
            lemma_vec_len_bound(&self.mutexes);
            lemma_vec_len_bound(&self.queues);
            wset0.remove_ensures(j as int);
            assert(self.tasks@ =~= oldk.tasks@.update(wi, self.tasks@[wi]));
            assert(!self.queues@[q as int].send_waiters@.contains(w)) by {
                if self.queues@[q as int].send_waiters@.contains(w) {
                    let jj = choose|jj: int|
                        0 <= jj < self.queues@[q as int].send_waiters@.len() && self.queues@[
                            q as int
                        ].send_waiters@[jj] == w;
                    if jj < j as int {
                        assert(wset0[jj] == w);
                        assert(wset0[jj] != wset0[j as int]);
                    } else {
                        assert(wset0[jj + 1] == w);
                        assert(wset0[j as int] != wset0[jj + 1]);
                    }
                }
            }
            assert forall|q2: int| 0 <= q2 < self.queues@.len() implies #[trigger] self.wf_queue_at(
                q2,
            ) by {
                assert(oldk.wf_queue_at(q2));
                assert forall|jj: int| 0 <= jj < self.queues@[q2].send_waiters@.len() implies (
                #[trigger] self.queues@[q2].send_waiters@[jj]) < self.tasks@.len()
                    && self.tasks@[self.queues@[q2].send_waiters@[jj] as int].state
                    == TaskState::Blocked(BlockReason::Send(q2 as usize)) by {
                    let w2 = self.queues@[q2].send_waiters@[jj];
                    if q2 == q as int {
                        assert(wset0[j as int] == w);
                        if jj < j as int {
                            assert(wset0[jj] == w2);
                            assert(wset0[jj] != wset0[j as int]);
                        } else {
                            assert(wset0[jj + 1] == w2);
                            assert(wset0[j as int] != wset0[jj + 1]);
                        }
                        assert(wset0.contains(w2));
                        assert(oldk.tasks@[w2 as int].state == TaskState::Blocked(
                            BlockReason::Send(q2 as usize),
                        ));
                        assert(w2 != w);
                        assert((w2 as int) != wi);
                    } else {
                        assert(self.queues@[q2] == oldk.queues@[q2]);
                        assert(oldk.tasks@[w2 as int].state == TaskState::Blocked(
                            BlockReason::Send(q2 as usize),
                        ));
                        assert((w2 as int) != wi);
                    }
                }
                assert forall|jj: int| 0 <= jj < self.queues@[q2].recv_waiters@.len() implies (
                #[trigger] self.queues@[q2].recv_waiters@[jj]) < self.tasks@.len()
                    && self.tasks@[self.queues@[q2].recv_waiters@[jj] as int].state
                    == TaskState::Blocked(BlockReason::Recv(q2 as usize)) by {
                    let w2 = self.queues@[q2].recv_waiters@[jj];
                    assert(oldk.tasks@[w2 as int].state == TaskState::Blocked(
                        BlockReason::Recv(q2 as usize),
                    ));
                    assert((w2 as int) != wi);
                }
                if q2 == q as int {
                    assert forall|j1: int, j2: int|
                        0 <= j1 < j2 < self.queues@[q2].send_waiters@.len() implies self.queues@[
                        q2
                    ].send_waiters@[j1] != self.queues@[q2].send_waiters@[j2] by {
                        let a1: int = if j1 < j as int {
                            j1
                        } else {
                            j1 + 1
                        };
                        let a2: int = if j2 < j as int {
                            j2
                        } else {
                            j2 + 1
                        };
                        assert(self.queues@[q2].send_waiters@[j1] == wset0[a1]);
                        assert(self.queues@[q2].send_waiters@[j2] == wset0[a2]);
                    }
                    assert(oldk.queues@[q2].items@.len() == oldk.queues@[q2].capacity as int);
                    assert forall|jj: int| 0 <= jj < self.queues@[q2].items@.len() implies (
                    #[trigger] self.queues@[q2].items@[jj])@.len() == self.queues@[
                        q2
                    ].msg_size as int by {
                        if jj < self.queues@[q2].items@.len() - 1 {
                            assert(self.queues@[q2].items@[jj] == oldk.queues@[q2].items@[jj
                                + 1]);
                        } else {
                            assert(self.queues@[q2].items@[jj]
                                == oldk.tasks@[wi].pending_send.unwrap());
                        }
                    }
                }
            }
            assert forall|s2: int| 0 <= s2 < self.sems@.len() implies #[trigger] self.wf_sem_at(
                s2,
            ) by {
                assert(oldk.wf_sem_at(s2));
                assert forall|jj: int| 0 <= jj < self.sems@[s2].waiters@.len() implies (
                #[trigger] self.sems@[s2].waiters@[jj]) < self.tasks@.len()
                    && self.tasks@[self.sems@[s2].waiters@[jj] as int].state
                    == TaskState::Blocked(BlockReason::Sem(s2 as usize)) by {
                    let w2 = self.sems@[s2].waiters@[jj];
                    assert(oldk.tasks@[w2 as int].state == TaskState::Blocked(
                        BlockReason::Sem(s2 as usize),
                    ));
                    assert((w2 as int) != wi);
                }
            }
            assert forall|m2: int| 0 <= m2 < self.mutexes@.len() implies #[trigger] self.wf_mutex_at(
                m2,
            ) by {
                assert(oldk.wf_mutex_at(m2));
                assert forall|jj: int| 0 <= jj < self.mutexes@[m2].waiters@.len() implies (
                #[trigger] self.mutexes@[m2].waiters@[jj]) < self.tasks@.len()
                    && self.tasks@[self.mutexes@[m2].waiters@[jj] as int].state
                    == TaskState::Blocked(BlockReason::Lock(m2 as usize)) by {
                    let w2 = self.mutexes@[m2].waiters@[jj];
                    assert(oldk.tasks@[w2 as int].state == TaskState::Blocked(
                        BlockReason::Lock(m2 as usize),
                    ));
                    assert((w2 as int) != wi);
                }
            }
            assert forall|p: int, jj: int|
                0 <= p < NPRIO as int && 0 <= jj < self.ready@[p]@.len() implies {
                let tt = (#[trigger] self.ready@[p]@[jj]) as int;
                &&& tt < self.tasks@.len()
                &&& self.tasks@[tt].state is Ready
                &&& self.tasks@[tt].priority as int == p
            } by {
                if p == pw && jj == self.ready@[p]@.len() - 1 {
                } else {
                    assert(self.ready@[p]@[jj] == oldk.ready@[p]@[jj]);
                    assert((oldk.ready@[p]@[jj] as int) != wi);
                }
            }
            assert forall|p: int| 0 <= p < NPRIO as int implies distinct_seq(
                (#[trigger] self.ready@[p])@,
            ) by {
                if p == pw {
                    assert forall|j1: int, j2: int|
                        0 <= j1 < j2 < self.ready@[p]@.len() implies self.ready@[p]@[j1]
                        != self.ready@[p]@[j2] by {
                        if j2 == self.ready@[p]@.len() - 1 {
                            assert(self.ready@[p]@[j1] == oldk.ready@[p]@[j1]);
                            assert((oldk.ready@[p]@[j1] as int) != wi);
                        } else {
                            assert(self.ready@[p]@[j1] == oldk.ready@[p]@[j1]);
                            assert(self.ready@[p]@[j2] == oldk.ready@[p]@[j2]);
                        }
                    }
                }
            }
            assert forall|i: int|
                0 <= i < self.tasks@.len() && (#[trigger] self.tasks@[i]).state is Ready implies
                self.ready@[self.tasks@[i].priority as int]@.contains(i as TaskId) by {
                if i == wi {
                    assert(self.ready@[pw]@[self.ready@[pw]@.len() - 1] == w);
                } else {
                    assert(oldk.tasks@[i].state is Ready);
                    assert(oldk.wf_task_at(i));
                    let jx = choose|jx: int|
                        0 <= jx < oldk.ready@[oldk.tasks@[i].priority as int]@.len()
                            && oldk.ready@[oldk.tasks@[i].priority as int]@[jx] == i as TaskId;
                    assert(self.ready@[oldk.tasks@[i].priority as int]@[jx] == i as TaskId);
                }
            }
            assert forall|i: int| 0 <= i < self.tasks@.len() implies #[trigger] self.wf_task_at(
                i,
            ) by {
                assert(oldk.wf_task_at(i));
                if i != wi {
                    assert(self.tasks@[i] == oldk.tasks@[i]);
                    match oldk.tasks@[i].state {
                        TaskState::Blocked(BlockReason::Send(q3)) => {
                            if q3 == q {
                                assert(oldk.queues@[q3 as int].send_waiters@.contains(
                                    i as TaskId,
                                ));
                                assert((i as TaskId) != w);
                                let jy = choose|jy: int|
                                    0 <= jy < wset0.len() && wset0[jy] == i as TaskId;
                                assert(wset0[j as int] == w);
                                assert(jy != j as int);
                                if jy < j as int {
                                    assert(self.queues@[q3 as int].send_waiters@[jy]
                                        == i as TaskId);
                                } else {
                                    assert(self.queues@[q3 as int].send_waiters@[jy - 1]
                                        == i as TaskId);
                                }
                                assert(self.queues@[q3 as int].send_waiters@.contains(
                                    i as TaskId,
                                ));
                            } else {
                                assert(self.queues@[q3 as int] == oldk.queues@[q3 as int]);
                            }
                        },
                        TaskState::Blocked(BlockReason::Recv(q3)) => {
                            if q3 == q {
                                assert(self.queues@[q3 as int].recv_waiters@ == oldk.queues@[
                                    q3 as int
                                ].recv_waiters@);
                            } else {
                                assert(self.queues@[q3 as int] == oldk.queues@[q3 as int]);
                            }
                        },
                        _ => {},
                    }
                }
            }
            assert forall|i1: int, i2: int|
                0 <= i1 < i2 < self.tasks@.len() && !((#[trigger] self.tasks@[i1]).state
                    is Deleted) && !((#[trigger] self.tasks@[i2]).state is Deleted) implies
                self.tasks@[i1].stack_block != self.tasks@[i2].stack_block by {
                assert(!(oldk.tasks@[i1].state is Deleted));
                assert(!(oldk.tasks@[i2].state is Deleted));
            }
            assert(self.wf_current()) by {
                if oldk.current is Some {
                    let cc = oldk.current.unwrap();
                    assert(self.tasks@[cc as int].state is Running);
                    assert forall|i: int|
                        0 <= i < self.tasks@.len() && (#[trigger] self.tasks@[i]).state
                            is Running implies i == cc as int by {
                        assert(oldk.tasks@[i].state is Running || i == wi);
                    }
                }
            }
            assert(self.wf());
            assert(self.queues@[q as int].send_waiters@ == wset0.remove(j as int));
        }
        Ok(item)
    }

    /// Receive from queue `q` in the running task, waiting up to `timeout`
    /// ticks while the queue is empty. A blocked receiver gets its message
    /// in its wake slot when one arrives, or a timeout outcome.
    pub fn queue_receive(&mut self, q: usize, timeout: u64) -> (r: RecvOutcome)
        requires
            old(self).wf(),
            (q as int) < old(self).queues@.len(),
            old(self).current is Some,
            old(self).ints_enabled,
        ensures
            final(self).wf(),
            final(self).ticks == old(self).ticks,
            final(self).ints_enabled == old(self).ints_enabled,
            final(self).heap == old(self).heap,
            final(self).sems@ == old(self).sems@,
            final(self).mutexes@ == old(self).mutexes@,
            final(self).tasks@.len() == old(self).tasks@.len(),
            final(self).queues@.len() == old(self).queues@.len(),
            forall|q2: int|
                0 <= q2 < old(self).queues@.len() && q2 != q as int ==> final(self).queues@[q2]
                    == old(self).queues@[q2],
            ({
                let b = old(self).queues@[q as int];
                let c = old(self).current.unwrap() as int;
                &&& (b.items@.len() > 0 ==> (r matches RecvOutcome::Done(v) && v@ == b.items@[0]@)
                    && final(self).current == old(self).current)
                &&& (b.items@.len() == 0 && timeout == 0 ==> r == RecvOutcome::Fail(
                    KError::WouldBlock,
                ) && *final(self) == *old(self))
                &&& (b.items@.len() == 0 && timeout > 0 ==> r == RecvOutcome::Waiting && final(self).tasks@[c].state == TaskState::Blocked(BlockReason::Recv(q)) && final(self).tasks@[c].deadline == Some(
                    if old(self).ticks + timeout > u64::MAX {
                        u64::MAX
                    } else {
                        (old(self).ticks + timeout) as u64
                    },
                ) && final(self).queues@[q as int].recv_waiters@ == b.recv_waiters@.push(
                    c as TaskId,
                ) && final(self).queues@[q as int].items@ == b.items@ && final(self).decision_respects_priority())
            }),
    {
        proof {
            assert(old(self).wf_queue_at(q as int));
        }
        if self.queues[q].items.len() > 0 {
            match self.queue_try_receive(q) {
                Ok(v) => {
                    return RecvOutcome::Done(v);
                },
                Err(e) => {
                    proof {
                        assert(false);
                    }
                    return RecvOutcome::Fail(e);
                },
            }
        }
        if timeout == 0 {
            return RecvOutcome::Fail(KError::WouldBlock);
        }
        let c = self.current.unwrap();
        let dl: u64 = if u64::MAX - self.ticks < timeout {
            u64::MAX
        } else {
            self.ticks + timeout
        };
        proof {
            assert(old(self).wf_task_at(c as int));
        }
        self.queues[q].recv_waiters.push(c);
        self.tasks[c].state = TaskState::Blocked(BlockReason::Recv(q));
        self.tasks[c].deadline = Some(dl);
        self.current = None;
        proof {
            let oldk = *old(self);
            let ci = c as int;
            assert(self.tasks@ =~= oldk.tasks@.update(ci, self.tasks@[ci]));
            Self::lemma_wf_after_park(oldk, *self, ci);
            Self::lemma_prims_wf_kept(oldk, Kernel { queues: oldk.queues, ..*self });
            assert forall|s2: int| 0 <= s2 < self.sems@.len() implies #[trigger] self.wf_sem_at(
                s2,
            ) by {
                assert((Kernel { queues: oldk.queues, ..*self }).wf_sem_at(s2));
            }
            assert forall|m2: int| 0 <= m2 < self.mutexes@.len() implies #[trigger] self.wf_mutex_at(
                m2,
            ) by {
                assert((Kernel { queues: oldk.queues, ..*self }).wf_mutex_at(m2));
            }
            assert forall|q2: int| 0 <= q2 < self.queues@.len() implies #[trigger] self.wf_queue_at(
                q2,
            ) by {
                assert(oldk.wf_queue_at(q2));
                if q2 != q as int {
                    assert(self.queues@[q2] == oldk.queues@[q2]);
                    assert forall|jj: int| 0 <= jj < self.queues@[q2].send_waiters@.len() implies (
                    #[trigger] self.queues@[q2].send_waiters@[jj]) < self.tasks@.len()
                        && self.tasks@[self.queues@[q2].send_waiters@[jj] as int].state
                        == TaskState::Blocked(BlockReason::Send(q2 as usize)) by {
                        let w = self.queues@[q2].send_waiters@[jj];
                        assert(oldk.tasks@[w as int].state == TaskState::Blocked(
                            BlockReason::Send(q2 as usize),
                        ));
                    }
                    assert forall|jj: int| 0 <= jj < self.queues@[q2].recv_waiters@.len() implies (
                    #[trigger] self.queues@[q2].recv_waiters@[jj]) < self.tasks@.len()
                        && self.tasks@[self.queues@[q2].recv_waiters@[jj] as int].state
                        == TaskState::Blocked(BlockReason::Recv(q2 as usize)) by {
                        let w = self.queues@[q2].recv_waiters@[jj];
                        assert(oldk.tasks@[w as int].state == TaskState::Blocked(
                            BlockReason::Recv(q2 as usize),
                        ));
                    }
                } else {
                    assert(self.queues@[q2].recv_waiters@ == oldk.queues@[
                        q2
                    ].recv_waiters@.push(c));
                    assert forall|jj: int| 0 <= jj < self.queues@[q2].recv_waiters@.len() implies (
                    #[trigger] self.queues@[q2].recv_waiters@[jj]) < self.tasks@.len()
                        && self.tasks@[self.queues@[q2].recv_waiters@[jj] as int].state
                        == TaskState::Blocked(BlockReason::Recv(q2 as usize)) by {
                        let w = self.queues@[q2].recv_waiters@[jj];
                        if jj < oldk.queues@[q2].recv_waiters@.len() {
                            assert(oldk.tasks@[w as int].state == TaskState::Blocked(
                                BlockReason::Recv(q2 as usize),
                            ));
                            assert((w as int) != ci);
                        } else {
                            assert(w == c);
                        }
                    }
                    assert forall|jj: int| 0 <= jj < self.queues@[q2].send_waiters@.len() implies (
                    #[trigger] self.queues@[q2].send_waiters@[jj]) < self.tasks@.len()
                        && self.tasks@[self.queues@[q2].send_waiters@[jj] as int].state
                        == TaskState::Blocked(BlockReason::Send(q2 as usize)) by {
                        let w = self.queues@[q2].send_waiters@[jj];
                        assert(oldk.tasks@[w as int].state == TaskState::Blocked(
                            BlockReason::Send(q2 as usize),
                        ));
                        assert((w as int) != ci);
                    }
                    assert forall|j1: int, j2: int|
                        0 <= j1 < j2 < self.queues@[q2].recv_waiters@.len() implies self.queues@[
                        q2
                    ].recv_waiters@[j1] != self.queues@[q2].recv_waiters@[j2] by {
                        if j2 == self.queues@[q2].recv_waiters@.len() - 1 {
                            assert(self.queues@[q2].recv_waiters@[j1] == oldk.queues@[
                                q2
                            ].recv_waiters@[j1]);
                            assert(oldk.tasks@[oldk.queues@[q2].recv_waiters@[j1] as int].state
                                == TaskState::Blocked(BlockReason::Recv(q2 as usize)));
                        }
                    }
                }
            }
            assert forall|p: int, j: int|
                0 <= p < NPRIO as int && 0 <= j < self.ready@[p]@.len() implies {
                let tt = (#[trigger] self.ready@[p]@[j]) as int;
                &&& tt < self.tasks@.len()
                &&& self.tasks@[tt].state is Ready
                &&& self.tasks@[tt].priority as int == p
            } by {
                assert(self.ready@[p]@[j] == oldk.ready@[p]@[j]);
                assert((oldk.ready@[p]@[j] as int) != ci);
            }
            assert forall|i: int|
                0 <= i < self.tasks@.len() && (#[trigger] self.tasks@[i]).state is Ready implies
                self.ready@[self.tasks@[i].priority as int]@.contains(i as TaskId) by {
                assert(oldk.tasks@[i].state is Ready);
                assert(oldk.wf_task_at(i));
            }
            assert forall|i: int| 0 <= i < self.tasks@.len() implies #[trigger] self.wf_task_at(
                i,
            ) by {
                assert(oldk.wf_task_at(i));
                if i != ci {
                    assert(self.tasks@[i] == oldk.tasks@[i]);
                    match oldk.tasks@[i].state {
                        TaskState::Blocked(BlockReason::Recv(q3)) => {
                            if q3 == q {
                                assert(oldk.queues@[q3 as int].recv_waiters@.contains(
                                    i as TaskId,
                                ));
                                let jj = choose|jj: int|
                                    0 <= jj < oldk.queues@[q3 as int].recv_waiters@.len()
                                        && oldk.queues@[q3 as int].recv_waiters@[jj]
                                        == i as TaskId;
                                assert(self.queues@[q3 as int].recv_waiters@[jj] == i as TaskId);
                            } else {
                                assert(self.queues@[q3 as int] == oldk.queues@[q3 as int]);
                            }
                        },
                        TaskState::Blocked(BlockReason::Send(q3)) => {
                            if q3 == q {
                                assert(self.queues@[q3 as int].send_waiters@ == oldk.queues@[
                                    q3 as int
                                ].send_waiters@);
                            } else {
                                assert(self.queues@[q3 as int] == oldk.queues@[q3 as int]);
                            }
                        },
                        _ => {},
                    }
                } else {
                    assert(self.queues@[q as int].recv_waiters@[self.queues@[
                        q as int
                    ].recv_waiters@.len() - 1] == c);
                }
            }
            assert(self.wf());
        }
        let ghost mid = *self;
        self.dispatch();
        proof {
            if mid.pick() is Some {
                let p2 = mid.pick().unwrap();
                mid.lemma_pick_is_highest();
                assert((p2 as int) != c as int);
            }
            assert(self.tasks@[c as int] == mid.tasks@[c as int]);
        }
        RecvOutcome::Waiting
    }

    /// Allocate from the boot heap on behalf of the module: the allocator
    /// shim's entry point. Recoverable failure when the space is gone.
    pub fn mem_alloc(&mut self, size: usize, align: usize) -> (r: Option<u64>)
        requires
            old(self).wf(),
        ensures
            final(self).wf(),
            final(self).tasks@ == old(self).tasks@,
            final(self).ready@ == old(self).ready@,
            final(self).current == old(self).current,
            final(self).ticks == old(self).ticks,
            final(self).ints_enabled == old(self).ints_enabled,
            final(self).sems@ == old(self).sems@,
            final(self).mutexes@ == old(self).mutexes@,
            final(self).queues@ == old(self).queues@,
            r is Some <==> (align >= 1 && old(self).heap.used + size <= old(self).heap.capacity
                && old(self).heap.next_id < u64::MAX),
            r is Some ==> final(self).heap.used == old(self).heap.used + size && final(self).heap.has_block(r.unwrap()) && !old(self).heap.has_block(r.unwrap()),
            r is None ==> *final(self) == *old(self),
    {
        let r = self.heap.allocate(size, align);
        proof {
            if r is Some {
                let oldk = *old(self);
                assert forall|i: int| 0 <= i < self.tasks@.len() implies #[trigger] self.wf_task_at(
                    i,
                ) by {
                    assert(oldk.wf_task_at(i));
                    if !(oldk.tasks@[i].state is Deleted) {
                        assert(oldk.heap.has_block(oldk.tasks@[i].stack_block));
                        assert(self.heap.has_block(oldk.tasks@[i].stack_block));
                    }
                }
                Self::lemma_prims_wf_kept(oldk, *self);
            }
        }
        r
    }

    /// Return a module-owned block to the boot heap. A handle that is not
    /// live, or that belongs to a task stack the scheduler owns, is a
    /// contract violation and changes nothing.
    pub fn mem_free(&mut self, id: u64) -> (r: Result<(), KError>)
        requires
            old(self).wf(),
        ensures
            final(self).wf(),
            final(self).tasks@ == old(self).tasks@,
            final(self).ready@ == old(self).ready@,
            final(self).current == old(self).current,
            final(self).ticks == old(self).ticks,
            final(self).ints_enabled == old(self).ints_enabled,
            final(self).sems@ == old(self).sems@,
            final(self).mutexes@ == old(self).mutexes@,
            final(self).queues@ == old(self).queues@,
            r is Err ==> *final(self) == *old(self),
            (exists|i: int|
                0 <= i < old(self).tasks@.len() && !((#[trigger] old(self).tasks@[i]).state
                    is Deleted) && old(self).tasks@[i].stack_block == id) ==> r == Err::<
                (),
                KError,
            >(KError::InvalidState),
            !(exists|i: int|
                0 <= i < old(self).tasks@.len() && !((#[trigger] old(self).tasks@[i]).state
                    is Deleted) && old(self).tasks@[i].stack_block == id) ==> {
                &&& (r is Ok <==> old(self).heap.has_block(id))
                &&& (r is Ok ==> !final(self).heap.has_block(id) && final(self).heap.used == old(self).heap.used - old(self).heap.block_size(id))
            },
    {
        let n = self.tasks.len();
        let mut i: usize = 0;
        while i < n && !(matches!(self.tasks[i].state, TaskState::Deleted) == false
            && self.tasks[i].stack_block == id)
            invariant
                n == self.tasks@.len(),
                i <= n,
                self.wf(),
                forall|j: int|
                    0 <= j < i as int ==> ((#[trigger] self.tasks@[j]).state is Deleted
                        || self.tasks@[j].stack_block != id),
            decreases n - i,
        {
            i = i + 1;
        }
        if i < n {
            return Err(KError::InvalidState);
        }
        let r = match self.heap.free(id) {
            Ok(()) => Ok(()),
            Err(_) => Err(KError::InvalidHandle),
        };
        proof {
            let oldk = *old(self);
            assert forall|j: int| 0 <= j < self.tasks@.len() implies #[trigger] self.wf_task_at(
                j,
            ) by {
                assert(oldk.wf_task_at(j));
                if !(oldk.tasks@[j].state is Deleted) {
                    assert(oldk.heap.has_block(oldk.tasks@[j].stack_block));
                    assert(oldk.tasks@[j].stack_block != id);
                    assert(self.heap.has_block(oldk.tasks@[j].stack_block));
                }
            }
            Self::lemma_prims_wf_kept(oldk, *self);
        }
        r
    }

    /// Destroy task `t`: deregister it from whatever queue or waiter set
    /// holds it, return its stack to the heap, and mark its slot Deleted.
    /// Deleting the running task switches away first. Naming a dead or
    /// unknown task is a contract violation.
    #[verifier::rlimit(80)]
    #[verifier::spinoff_prover]
    pub fn delete_task(&mut self, t: TaskId) -> (r: Result<(), KError>)
        requires
            old(self).wf(),
        ensures
            final(self).wf(),
            final(self).ticks == old(self).ticks,
            final(self).ints_enabled == old(self).ints_enabled,
            ((t as int) >= old(self).tasks@.len() || old(self).tasks@[t as int].state
                is Deleted) ==> r == Err::<(), KError>(KError::NoSuchTask) && *final(self) == *old(self),
            ((t as int) < old(self).tasks@.len() && !(old(self).tasks@[t as int].state
                is Deleted)) ==> {
                &&& r is Ok
                &&& final(self).tasks@.len() == old(self).tasks@.len()
                &&& final(self).tasks@[t as int].state is Deleted
                &&& (!(old(self).tasks@[t as int].state is Running) ==> (forall|j: int|
                    0 <= j < old(self).tasks@.len() && j != t as int ==> final(self).tasks@[j]
                        == old(self).tasks@[j]))
                &&& !final(self).heap.has_block(old(self).tasks@[t as int].stack_block)
                &&& final(self).heap.used == old(self).heap.used - old(self).heap.block_size(
                    old(self).tasks@[t as int].stack_block,
                )
                &&& (old(self).tasks@[t as int].state is Running ==> final(self).decision_respects_priority())
                &&& (!(old(self).tasks@[t as int].state is Running) ==> final(self).current
                    == old(self).current)
            },
    {
        if t >= self.tasks.len() {
            return Err(KError::NoSuchTask);
        }
        proof {
            assert(old(self).wf_task_at(t as int));
        }
        let was_running: bool;
        match self.tasks[t].state {
            TaskState::Deleted => {
                return Err(KError::NoSuchTask);
            },
            TaskState::Running => {
                was_running = true;
                self.current = None;
            },
            TaskState::Ready => {
                was_running = false;
                let p = self.tasks[t].priority;
                proof {
                    assert(distinct_seq(self.ready@[p as int]@));
                }
                remove_waiter(&mut self.ready[p], t);
            },
            TaskState::Blocked(BlockReason::Sem(s)) => {
                was_running = false;
                proof {
                    assert(old(self).wf_sem_at(s as int));
                }
                remove_waiter(&mut self.sems[s].waiters, t);
            },
            TaskState::Blocked(BlockReason::Lock(m)) => {
                was_running = false;
                proof {
                    assert(old(self).wf_mutex_at(m as int));
                }
                remove_waiter(&mut self.mutexes[m].waiters, t);
            },
            TaskState::Blocked(BlockReason::Send(q)) => {
                was_running = false;
                proof {
                    assert(old(self).wf_queue_at(q as int));
                }
                remove_waiter(&mut self.queues[q].send_waiters, t);
            },
            TaskState::Blocked(BlockReason::Recv(q)) => {
                was_running = false;
                proof {
                    assert(old(self).wf_queue_at(q as int));
                }
                remove_waiter(&mut self.queues[q].recv_waiters, t);
            },
            TaskState::Blocked(BlockReason::Sleep) => {
                was_running = false;
            },
            TaskState::Suspended => {
                was_running = false;
            },
        }
        let blk = self.tasks[t].stack_block;
        let freed = self.heap.free(blk);
        proof {
            assert(freed is Ok);
        }
        self.tasks[t].state = TaskState::Deleted;
        self.tasks[t].deadline = None;
        self.tasks[t].pending_send = None;
        proof {
            let oldk = *old(self);
            let ti = t as int;
            lemma_vec_len_bound(&self.tasks);
            lemma_vec_len_bound(&self.sems);
            lemma_vec_len_bound(&self.mutexes);
            lemma_vec_len_bound(&self.queues);
            let r0 = oldk.tasks@[ti].state;
            assert forall|s2: int| 0 <= s2 < self.sems@.len() implies #[trigger] self.wf_sem_at(
                s2,
            ) by {
                assert(oldk.wf_sem_at(s2));
                assert forall|jj: int| 0 <= jj < self.sems@[s2].waiters@.len() implies (
                #[trigger] self.sems@[s2].waiters@[jj]) < self.tasks@.len()
                    && self.tasks@[self.sems@[s2].waiters@[jj] as int].state == TaskState::Blocked(
                    BlockReason::Sem(s2 as usize),
                ) by {
                    let w2 = self.sems@[s2].waiters@[jj];
                    assert(oldk.sems@[s2].waiters@.contains(w2));
                    assert(oldk.tasks@[w2 as int].state == TaskState::Blocked(
                        BlockReason::Sem(s2 as usize),
                    ));
                    if (w2 as int) == ti {
                        assert(r0 == TaskState::Blocked(BlockReason::Sem(s2 as usize)));
                        assert(!self.sems@[s2].waiters@.contains(t));
                    }
                }
                assert(distinct_seq(self.sems@[s2].waiters@));
                if self.sems@[s2].waiters@.len() > 0 {
                    assert(oldk.sems@[s2].waiters@.len() > 0);
                }
            }
            assert forall|m2: int| 0 <= m2 < self.mutexes@.len() implies #[trigger] self.wf_mutex_at(
                m2,
            ) by {
                assert(oldk.wf_mutex_at(m2));
                assert forall|jj: int| 0 <= jj < self.mutexes@[m2].waiters@.len() implies (
                #[trigger] self.mutexes@[m2].waiters@[jj]) < self.tasks@.len()
                    && self.tasks@[self.mutexes@[m2].waiters@[jj] as int].state
                    == TaskState::Blocked(BlockReason::Lock(m2 as usize)) by {
                    let w2 = self.mutexes@[m2].waiters@[jj];
                    assert(oldk.mutexes@[m2].waiters@.contains(w2));
                    assert(oldk.tasks@[w2 as int].state == TaskState::Blocked(
                        BlockReason::Lock(m2 as usize),
                    ));
                    if (w2 as int) == ti {
                        assert(r0 == TaskState::Blocked(BlockReason::Lock(m2 as usize)));
                        assert(!self.mutexes@[m2].waiters@.contains(t));
                    }
                }
                assert(distinct_seq(self.mutexes@[m2].waiters@));
                if self.mutexes@[m2].waiters@.len() > 0 {
                    assert(oldk.mutexes@[m2].waiters@.len() > 0);
                }
            }
            assert forall|q2: int| 0 <= q2 < self.queues@.len() implies #[trigger] self.wf_queue_at(
                q2,
            ) by {
                assert(oldk.wf_queue_at(q2));
                assert(self.queues@[q2].items@ == oldk.queues@[q2].items@);
                assert forall|jj: int| 0 <= jj < self.queues@[q2].send_waiters@.len() implies (
                #[trigger] self.queues@[q2].send_waiters@[jj]) < self.tasks@.len()
                    && self.tasks@[self.queues@[q2].send_waiters@[jj] as int].state
                    == TaskState::Blocked(BlockReason::Send(q2 as usize)) by {
                    let w2 = self.queues@[q2].send_waiters@[jj];
                    assert(oldk.queues@[q2].send_waiters@.contains(w2));
                    assert(oldk.tasks@[w2 as int].state == TaskState::Blocked(
                        BlockReason::Send(q2 as usize),
                    ));
                    if (w2 as int) == ti {
                        assert(r0 == TaskState::Blocked(BlockReason::Send(q2 as usize)));
                        assert(!self.queues@[q2].send_waiters@.contains(t));
                    }
                }
                assert forall|jj: int| 0 <= jj < self.queues@[q2].recv_waiters@.len() implies (
                #[trigger] self.queues@[q2].recv_waiters@[jj]) < self.tasks@.len()
                    && self.tasks@[self.queues@[q2].recv_waiters@[jj] as int].state
                    == TaskState::Blocked(BlockReason::Recv(q2 as usize)) by {
                    let w2 = self.queues@[q2].recv_waiters@[jj];
                    assert(oldk.queues@[q2].recv_waiters@.contains(w2));
                    assert(oldk.tasks@[w2 as int].state == TaskState::Blocked(
                        BlockReason::Recv(q2 as usize),
                    ));
                    if (w2 as int) == ti {
                        assert(r0 == TaskState::Blocked(BlockReason::Recv(q2 as usize)));
                        assert(!self.queues@[q2].recv_waiters@.contains(t));
                    }
                }
                if self.queues@[q2].send_waiters@.len() > 0 {
                    assert(oldk.queues@[q2].send_waiters@.len() > 0);
                }
                if self.queues@[q2].recv_waiters@.len() > 0 {
                    assert(oldk.queues@[q2].recv_waiters@.len() > 0);
                }
            }
            assert forall|p: int, jj: int|
                0 <= p < NPRIO as int && 0 <= jj < self.ready@[p]@.len() implies {
                let tt = (#[trigger] self.ready@[p]@[jj]) as int;
                &&& tt < self.tasks@.len()
                &&& self.tasks@[tt].state is Ready
                &&& self.tasks@[tt].priority as int == p
            } by {
                let w2 = self.ready@[p]@[jj];
                if p == oldk.tasks@[ti].priority as int && r0 is Ready {
                    assert(oldk.ready@[p]@.contains(w2));
                } else {
                    assert(self.ready@[p] == oldk.ready@[p]);
                }
                assert(oldk.tasks@[w2 as int].state is Ready);
                if (w2 as int) == ti {
                    assert(r0 is Ready);
                    assert(!self.ready@[oldk.tasks@[ti].priority as int]@.contains(t));
                }
            }
            assert forall|p: int| 0 <= p < NPRIO as int implies distinct_seq(
                (#[trigger] self.ready@[p])@,
            ) by {
                if p == oldk.tasks@[ti].priority as int && r0 is Ready {
                    assert(distinct_seq(self.ready@[p]@));
                } else {
                    assert(self.ready@[p] == oldk.ready@[p]);
                    assert(distinct_seq(oldk.ready@[p]@));
                }
            }
            assert forall|i: int|
                0 <= i < self.tasks@.len() && (#[trigger] self.tasks@[i]).state is Ready implies
                self.ready@[self.tasks@[i].priority as int]@.contains(i as TaskId) by {
                assert(i != ti);
                assert(oldk.tasks@[i].state is Ready);
                assert(oldk.wf_task_at(i));
                let pi = oldk.tasks@[i].priority as int;
                assert(oldk.ready@[pi]@.contains(i as TaskId));
                if pi == oldk.tasks@[ti].priority as int && r0 is Ready {
                    assert((i as TaskId) != t);
                } else {
                    assert(self.ready@[pi] == oldk.ready@[pi]);
                }
            }
            assert forall|i: int| 0 <= i < self.tasks@.len() implies #[trigger] self.wf_task_at(
                i,
            ) by {
                assert(oldk.wf_task_at(i));
                if i != ti {
                    assert(self.tasks@[i] == oldk.tasks@[i]);
                    if !(oldk.tasks@[i].state is Deleted) {
                        assert(oldk.heap.has_block(oldk.tasks@[i].stack_block));
                        assert(oldk.tasks@[i].stack_block != oldk.tasks@[ti].stack_block);
                        assert(self.heap.has_block(oldk.tasks@[i].stack_block));
                    }
                }
            }
            assert forall|i1: int, i2: int|
                0 <= i1 < i2 < self.tasks@.len() && !((#[trigger] self.tasks@[i1]).state
                    is Deleted) && !((#[trigger] self.tasks@[i2]).state is Deleted) implies
                self.tasks@[i1].stack_block != self.tasks@[i2].stack_block by {
                assert(!(oldk.tasks@[i1].state is Deleted));
                assert(!(oldk.tasks@[i2].state is Deleted));
            }
            assert(self.wf_current()) by {
                if self.current is Some {
                    let cc = self.current.unwrap();
                    assert(oldk.current == Some(cc));
                    assert(!(r0 is Running));
                    assert(self.tasks@[cc as int].state is Running);
                    assert forall|i: int|
                        0 <= i < self.tasks@.len() && (#[trigger] self.tasks@[i]).state
                            is Running implies i == cc as int by {
                        assert(oldk.tasks@[i].state is Running);
                    }
                } else {
                    assert forall|i: int| 0 <= i < self.tasks@.len() implies !((
                    #[trigger] self.tasks@[i]).state is Running) by {
                        if oldk.current is Some {
                            assert(oldk.tasks@[i].state is Running ==> i
                                == oldk.current.unwrap() as int);
                        } else {
                            assert(!(oldk.tasks@[i].state is Running));
                        }
                    }
                }
            }
            assert(self.wf());
        }
        if was_running {
            let ghost mid = *self;
            self.dispatch();
            proof {
                if mid.pick() is Some {
                    let p2 = mid.pick().unwrap();
                    mid.lemma_pick_is_highest();
                    assert((p2 as int) != t as int);
                }
                assert(self.tasks@[t as int] == mid.tasks@[t as int]);
                assert(self.heap == mid.heap);
            }
        }
        Ok(())
    }

    /// Ownership law for a mutex: the owner slot holds at most one task,
    /// so two tasks that both find themselves the owner are the same task.
    pub proof fn lemma_mutex_single_owner(k: &Kernel, m: int, t1: TaskId, t2: TaskId)
        requires
            k.wf(),
            0 <= m < k.mutexes@.len(),
            k.mutexes@[m].owner == Some(t1),
            k.mutexes@[m].owner == Some(t2),
        ensures
            t1 == t2,
    {
    }

    /// Occupancy law for a message queue: the number of buffered messages
    /// always lies between zero and the configured capacity.
    pub proof fn lemma_queue_occupancy_bounds(k: &Kernel, q: int)
        requires
            k.wf(),
            0 <= q < k.queues@.len(),
        ensures
            0 <= k.queues@[q].items@.len() <= k.queues@[q].capacity,
    {
        assert(k.wf_queue_at(q));
    }

    /// Take task `t` out of scheduling until `resume_task`. Only a Ready
    /// or Running task can be suspended; suspending the running task
    /// switches away from it.
    pub fn suspend_task(&mut self, t: TaskId) -> (r: Result<(), KError>)
        requires
            old(self).wf(),
        ensures
            final(self).wf(),
            final(self).ticks == old(self).ticks,
            final(self).ints_enabled == old(self).ints_enabled,
            final(self).heap == old(self).heap,
            final(self).sems@ == old(self).sems@,
            final(self).mutexes@ == old(self).mutexes@,
            final(self).queues@ == old(self).queues@,
            ((t as int) >= old(self).tasks@.len() || old(self).tasks@[t as int].state
                is Deleted) ==> r == Err::<(), KError>(KError::NoSuchTask) && *final(self) == *old(self),
            ((t as int) < old(self).tasks@.len() && !(old(self).tasks@[t as int].state is Ready)
                && !(old(self).tasks@[t as int].state is Running) && !(old(self).tasks@[
                t as int
            ].state is Deleted)) ==> r == Err::<(), KError>(KError::InvalidState) && *final(self)
                == *old(self),
            ((t as int) < old(self).tasks@.len() && (old(self).tasks@[t as int].state is Ready
                || old(self).tasks@[t as int].state is Running)) ==> {
                &&& r is Ok
                &&& final(self).tasks@.len() == old(self).tasks@.len()
                &&& final(self).tasks@[t as int].state is Suspended
                &&& (old(self).tasks@[t as int].state is Running ==> final(self).decision_respects_priority())
                &&& (old(self).tasks@[t as int].state is Ready ==> final(self).current == old(self).current)
            },
    {
        if t >= self.tasks.len() {
            return Err(KError::NoSuchTask);
        }
        proof {
            assert(old(self).wf_task_at(t as int));
        }
        let was_running: bool;
        match self.tasks[t].state {
            TaskState::Ready => {
                was_running = false;
                let p = self.tasks[t].priority;
                proof {
                    assert(distinct_seq(self.ready@[p as int]@));
                }
                remove_waiter(&mut self.ready[p], t);
            },
            TaskState::Running => {
                was_running = true;
                self.current = None;
            },
            _ => {
                match self.tasks[t].state {
                    TaskState::Deleted => {
                        return Err(KError::NoSuchTask);
                    },
                    _ => {
                        return Err(KError::InvalidState);
                    },
                }
            },
        }
        self.tasks[t].state = TaskState::Suspended;
        proof {
            let oldk = *old(self);
            let ti = t as int;
            let r0 = oldk.tasks@[ti].state;
            Self::lemma_prims_wf_kept(oldk, *self);
            assert forall|p: int, jj: int|
                0 <= p < NPRIO as int && 0 <= jj < self.ready@[p]@.len() implies {
                let tt = (#[trigger] self.ready@[p]@[jj]) as int;
                &&& tt < self.tasks@.len()
                &&& self.tasks@[tt].state is Ready
                &&& self.tasks@[tt].priority as int == p
            } by {
                let w2 = self.ready@[p]@[jj];
                if p == oldk.tasks@[ti].priority as int && r0 is Ready {
                    assert(oldk.ready@[p]@.contains(w2));
                } else {
                    assert(self.ready@[p] == oldk.ready@[p]);
                }
                assert(oldk.tasks@[w2 as int].state is Ready);
                if (w2 as int) == ti {
                    assert(r0 is Ready);
                    assert(!self.ready@[oldk.tasks@[ti].priority as int]@.contains(t));
                }
            }
            assert forall|p: int| 0 <= p < NPRIO as int implies distinct_seq(
                (#[trigger] self.ready@[p])@,
            ) by {
                if p == oldk.tasks@[ti].priority as int && r0 is Ready {
                    assert(distinct_seq(self.ready@[p]@));
                } else {
                    assert(self.ready@[p] == oldk.ready@[p]);
                    assert(distinct_seq(oldk.ready@[p]@));
                }
            }
            assert forall|i: int|
                0 <= i < self.tasks@.len() && (#[trigger] self.tasks@[i]).state is Ready implies
                self.ready@[self.tasks@[i].priority as int]@.contains(i as TaskId) by {
                assert(i != ti);
                assert(oldk.tasks@[i].state is Ready);
                assert(oldk.wf_task_at(i));
                let pi = oldk.tasks@[i].priority as int;
                assert(oldk.ready@[pi]@.contains(i as TaskId));
                if pi == oldk.tasks@[ti].priority as int && r0 is Ready {
                    assert((i as TaskId) != t);
                } else {
                    assert(self.ready@[pi] == oldk.ready@[pi]);
                }
            }
            assert forall|i: int| 0 <= i < self.tasks@.len() implies #[trigger] self.wf_task_at(
                i,
            ) by {
                assert(oldk.wf_task_at(i));
                if i != ti {
                    assert(self.tasks@[i] == oldk.tasks@[i]);
                }
            }
            assert forall|i1: int, i2: int|
                0 <= i1 < i2 < self.tasks@.len() && !((#[trigger] self.tasks@[i1]).state
                    is Deleted) && !((#[trigger] self.tasks@[i2]).state is Deleted) implies
                self.tasks@[i1].stack_block != self.tasks@[i2].stack_block by {
                assert(!(oldk.tasks@[i1].state is Deleted));
                assert(!(oldk.tasks@[i2].state is Deleted));
            }
            assert(self.wf_current()) by {
                if self.current is Some {
                    let cc = self.current.unwrap();
                    assert(oldk.current == Some(cc));
                    assert(!(r0 is Running));
                    assert(self.tasks@[cc as int].state is Running);
                    assert forall|i: int|
                        0 <= i < self.tasks@.len() && (#[trigger] self.tasks@[i]).state
                            is Running implies i == cc as int by {
                        assert(oldk.tasks@[i].state is Running);
                    }
                } else {
                    assert forall|i: int| 0 <= i < self.tasks@.len() implies !((
                    #[trigger] self.tasks@[i]).state is Running) by {
                        if oldk.current is Some {
                            assert(oldk.tasks@[i].state is Running ==> i
                                == oldk.current.unwrap() as int);
                        } else {
                            assert(!(oldk.tasks@[i].state is Running));
                        }
                    }
                }
            }
            assert(self.wf());
        }
        if was_running {
            let ghost mid = *self;
            self.dispatch();
            proof {
                if mid.pick() is Some {
                    let p2 = mid.pick().unwrap();
                    mid.lemma_pick_is_highest();
                    assert((p2 as int) != t as int);
                }
                assert(self.tasks@[t as int] == mid.tasks@[t as int]);
            }
        }
        Ok(())
    }

    /// Put a suspended task back at the end of its priority level's FIFO
    /// queue.
    pub fn resume_task(&mut self, t: TaskId) -> (r: Result<(), KError>)
        requires
            old(self).wf(),
        ensures
            final(self).wf(),
            final(self).current == old(self).current,
            final(self).ticks == old(self).ticks,
            final(self).ints_enabled == old(self).ints_enabled,
            final(self).heap == old(self).heap,
            final(self).sems@ == old(self).sems@,
            final(self).mutexes@ == old(self).mutexes@,
            final(self).queues@ == old(self).queues@,
            ((t as int) >= old(self).tasks@.len() || old(self).tasks@[t as int].state
                is Deleted) ==> r == Err::<(), KError>(KError::NoSuchTask) && *final(self) == *old(self),
            ((t as int) < old(self).tasks@.len() && !(old(self).tasks@[t as int].state
                is Suspended) && !(old(self).tasks@[t as int].state is Deleted)) ==> r == Err::<
                (),
                KError,
            >(KError::InvalidState) && *final(self) == *old(self),
            ((t as int) < old(self).tasks@.len() && old(self).tasks@[t as int].state
                is Suspended) ==> {
                &&& r is Ok
                &&& final(self).tasks@.len() == old(self).tasks@.len()
                &&& final(self).tasks@[t as int].state is Ready
                &&& (forall|j: int|
                    0 <= j < old(self).tasks@.len() && j != t as int ==> final(self).tasks@[j]
                        == old(self).tasks@[j])
            },
    {
        if t >= self.tasks.len() {
            return Err(KError::NoSuchTask);
        }
        match self.tasks[t].state {
            TaskState::Suspended => {},
            TaskState::Deleted => {
                return Err(KError::NoSuchTask);
            },
            _ => {
                return Err(KError::InvalidState);
            },
        }
        proof {
            assert(old(self).wf_task_at(t as int));
        }
        self.tasks[t].state = TaskState::Ready;
        self.push_ready(t);
        proof {
            let oldk = *old(self);
            let ti = t as int;
            let pi = oldk.tasks@[ti].priority as int;
            Self::lemma_prims_wf_kept(oldk, *self);
            assert forall|p: int, j: int|
                0 <= p < NPRIO as int && 0 <= j < self.ready@[p]@.len() implies {
                let tt = (#[trigger] self.ready@[p]@[j]) as int;
                &&& tt < self.tasks@.len()
                &&& self.tasks@[tt].state is Ready
                &&& self.tasks@[tt].priority as int == p
            } by {
                if p == pi && j == self.ready@[p]@.len() - 1 {
                } else {
                    assert(self.ready@[p]@[j] == oldk.ready@[p]@[j]);
                    assert((oldk.ready@[p]@[j] as int) != ti);
                }
            }
            assert forall|p: int| 0 <= p < NPRIO as int implies distinct_seq(
                (#[trigger] self.ready@[p])@,
            ) by {
                if p == pi {
                    assert forall|j1: int, j2: int|
                        0 <= j1 < j2 < self.ready@[p]@.len() implies self.ready@[p]@[j1]
                        != self.ready@[p]@[j2] by {
                        if j2 == self.ready@[p]@.len() - 1 {
                            assert(self.ready@[p]@[j1] == oldk.ready@[p]@[j1]);
                            assert((oldk.ready@[p]@[j1] as int) != ti);
                        } else {
                            assert(self.ready@[p]@[j1] == oldk.ready@[p]@[j1]);
                            assert(self.ready@[p]@[j2] == oldk.ready@[p]@[j2]);
                        }
                    }
                }
            }
            assert forall|i: int|
                0 <= i < self.tasks@.len() && (#[trigger] self.tasks@[i]).state is Ready implies
                self.ready@[self.tasks@[i].priority as int]@.contains(i as TaskId) by {
                if i == ti {
                    assert(self.ready@[pi]@[self.ready@[pi]@.len() - 1] == t);
                } else {
                    assert(oldk.tasks@[i].state is Ready);
                    assert(oldk.wf_task_at(i));
                    let jx = choose|jx: int|
                        0 <= jx < oldk.ready@[oldk.tasks@[i].priority as int]@.len()
                            && oldk.ready@[oldk.tasks@[i].priority as int]@[jx] == i as TaskId;
                    assert(self.ready@[oldk.tasks@[i].priority as int]@[jx] == i as TaskId);
                }
            }
            assert forall|i: int| 0 <= i < self.tasks@.len() implies #[trigger] self.wf_task_at(
                i,
            ) by {
                assert(oldk.wf_task_at(i));
                if i != ti {
                    assert(self.tasks@[i] == oldk.tasks@[i]);
                }
            }
            assert forall|i1: int, i2: int|
                0 <= i1 < i2 < self.tasks@.len() && !((#[trigger] self.tasks@[i1]).state
                    is Deleted) && !((#[trigger] self.tasks@[i2]).state is Deleted) implies
                self.tasks@[i1].stack_block != self.tasks@[i2].stack_block by {
                assert(!(oldk.tasks@[i1].state is Deleted));
                assert(!(oldk.tasks@[i2].state is Deleted));
            }
            assert(self.wf_current()) by {
                if oldk.current is Some {
                    let cc = oldk.current.unwrap();
                    assert(self.tasks@[cc as int].state is Running);
                    assert forall|i: int|
                        0 <= i < self.tasks@.len() && (#[trigger] self.tasks@[i]).state
                            is Running implies i == cc as int by {
                        assert(oldk.tasks@[i].state is Running);
                    }
                }
            }
            assert(self.wf());
        }
        Ok(())
    }

    /// Identity of the Running task, if any.
    pub fn current_task(&self) -> (r: Option<TaskId>)
        ensures
            r == self.current,
    {
        self.current
    }

    /// The tick counter: monotonically increasing, bumped once per timer
    /// interrupt.
    pub fn now_ticks(&self) -> (r: u64)
        ensures
            r == self.ticks,
    {
        self.ticks
    }

    /// Current interrupt-delivery state of the critical-section primitive.
    pub fn interrupts_enabled(&self) -> (r: bool)
        ensures
            r == self.ints_enabled,
    {
        self.ints_enabled
    }

    /// Number of task slots ever created (deleted tasks keep their slot).
    pub fn task_count(&self) -> (r: usize)
        ensures
            r == self.tasks@.len(),
    {
        self.tasks.len()
    }

    /// Scheduling state of task `t`.
    pub fn task_state(&self, t: TaskId) -> (r: TaskState)
        requires
            (t as int) < self.tasks@.len(),
        ensures
            r == self.tasks@[t as int].state,
    {
        self.tasks[t].state
    }

    /// Current count of semaphore `s`.
    pub fn sem_count(&self, s: usize) -> (r: u32)
        requires
            (s as int) < self.sems@.len(),
        ensures
            r == self.sems@[s as int].count,
    {
        self.sems[s].count
    }

    /// Owner of mutex `m`, if any.
    pub fn mutex_owner(&self, m: usize) -> (r: Option<TaskId>)
        requires
            (m as int) < self.mutexes@.len(),
        ensures
            r == self.mutexes@[m as int].owner,
    {
        self.mutexes[m].owner
    }

    /// Number of messages buffered in queue `q`.
    pub fn queue_len(&self, q: usize) -> (r: usize)
        requires
            (q as int) < self.queues@.len(),
        ensures
            r as int == self.queues@[q as int].items@.len(),
    {
        self.queues[q].items.len()
    }

    /// Bytes currently allocated from the boot heap.
    pub fn heap_used(&self) -> (r: usize)
        ensures
            r == self.heap.used,
    {
        self.heap.used
    }
}

} // verus!
