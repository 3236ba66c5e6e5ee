use rtos_compat::errors::KError;
use rtos_compat::kernel::{BlockOutcome, Kernel, RecvOutcome};
use rtos_compat::task::{TaskState, WakeStatus};

#[test]
fn semaphore_counts_are_conserved() {
    let mut k = Kernel::new(1024, 2);
    let s = k.sem_create(1, 2).unwrap();
    let mut gives_ok = 0u64;
    let mut takes_ok = 0u64;
    if k.sem_give(s).is_ok() {
        gives_ok += 1;
    }
    if k.sem_give(s).is_ok() {
        gives_ok += 1;
    }
    // Count is at its maximum: the excess give is a no-op failure.
    assert_eq!(k.sem_give(s), Err(KError::AtMaxCount));
    assert_eq!(k.sem_count(s), 2);
    while k.sem_try_take(s).is_ok() {
        takes_ok += 1;
    }
    assert_eq!(k.sem_try_take(s), Err(KError::WouldBlock));
    // Successful takes never exceed the initial count plus successful
    // gives; here the books balance exactly.
    assert_eq!(takes_ok, 1 + gives_ok);
    assert_eq!(k.sem_count(s), 0);
}

#[test]
fn semaphore_give_wakes_highest_priority_waiter() {
    let mut k = Kernel::new(4096, 2);
    let a = k.spawn(1, 128).unwrap();
    let b = k.spawn(3, 128).unwrap();
    let s = k.sem_create(0, 1).unwrap();
    k.tick();
    assert_eq!(k.current_task(), Some(a));
    // The higher-priority task blocks first, then the lower one.
    assert_eq!(k.sem_take(s, 1000), BlockOutcome::Waiting);
    assert_eq!(k.current_task(), Some(b));
    assert_eq!(k.sem_take(s, 1000), BlockOutcome::Waiting);
    assert_eq!(k.current_task(), None);
    // A signal wakes the highest-priority waiter, count untouched.
    k.sem_give(s).unwrap();
    assert!(matches!(k.task_state(a), TaskState::Ready));
    assert!(matches!(k.task_state(b), TaskState::Blocked(_)));
    assert_eq!(k.sem_count(s), 0);
    assert_eq!(k.take_wake(a), WakeStatus::Woken);
}

#[test]
fn semaphore_take_times_out() {
    let mut k = Kernel::new(1024, 2);
    let a = k.spawn(1, 128).unwrap();
    let s = k.sem_create(0, 1).unwrap();
    k.tick();
    assert_eq!(k.sem_take(s, 3), BlockOutcome::Waiting);
    k.tick();
    k.tick();
    assert!(matches!(k.task_state(a), TaskState::Blocked(_)));
    k.tick();
    assert!(matches!(k.task_state(a), TaskState::Running));
    assert_eq!(k.take_wake(a), WakeStatus::TimedOut);
}

#[test]
fn mutex_rejects_unlock_by_non_owner() {
    let mut k = Kernel::new(4096, 2);
    let _a = k.spawn(3, 128).unwrap();
    let b = k.spawn(1, 128).unwrap();
    let m = k.mutex_create();
    k.tick();
    assert_eq!(k.current_task(), Some(b));
    assert_eq!(k.mutex_lock(m, 0), BlockOutcome::Done);
    assert_eq!(k.mutex_owner(m), Some(b));
    // Re-acquiring one's own mutex is reported, not deadlocked.
    assert_eq!(k.mutex_lock(m, 10), BlockOutcome::Fail(KError::AlreadyOwner));
    // The owner goes to sleep; the other task's unlock must be rejected
    // and ownership must be unchanged.
    k.sleep(100);
    assert_ne!(k.current_task(), Some(b));
    assert_eq!(k.mutex_unlock(m), Err(KError::NotOwner));
    assert_eq!(k.mutex_owner(m), Some(b));
}

#[test]
fn mutex_passes_ownership_to_woken_waiter() {
    let mut k = Kernel::new(4096, 2);
    let a = k.spawn(2, 128).unwrap();
    let b = k.spawn(1, 128).unwrap();
    let m = k.mutex_create();
    k.tick();
    assert_eq!(k.current_task(), Some(b));
    assert_eq!(k.mutex_lock(m, 0), BlockOutcome::Done);
    k.yield_now();
    // b still outranks a, so b keeps running; make b sleep so a can run
    // and contend for the lock.
    k.sleep(50);
    assert_eq!(k.current_task(), Some(a));
    assert_eq!(k.mutex_lock(m, 1000), BlockOutcome::Waiting);
    assert!(matches!(k.task_state(a), TaskState::Blocked(_)));
    // b wakes by timeout later; run ticks until it resumes.
    for _ in 0..50 {
        k.tick();
    }
    assert_eq!(k.current_task(), Some(b));
    assert_eq!(k.take_wake(b), WakeStatus::TimedOut);
    // Unlock hands the mutex straight to the waiter and wakes it.
    k.mutex_unlock(m).unwrap();
    assert_eq!(k.mutex_owner(m), Some(a));
    assert!(matches!(k.task_state(a), TaskState::Ready));
    assert_eq!(k.take_wake(a), WakeStatus::Woken);
}

#[test]
fn queue_blocks_or_fails_per_timeout_policy() {
    let mut k = Kernel::new(4096, 2);
    let a = k.spawn(1, 128).unwrap();
    let q = k.queue_create(2, 4).unwrap();
    k.tick();
    assert_eq!(k.current_task(), Some(a));
    // Wrong-size messages are rejected.
    assert_eq!(k.queue_try_send(q, vec![1, 2, 3]), Err(KError::BadSize));
    k.queue_try_send(q, vec![1, 1, 1, 1]).unwrap();
    k.queue_try_send(q, vec![2, 2, 2, 2]).unwrap();
    assert_eq!(k.queue_len(q), 2);
    // Full queue: the try variant and a zero timeout fail immediately.
    assert_eq!(k.queue_try_send(q, vec![3, 3, 3, 3]), Err(KError::WouldBlock));
    assert_eq!(k.queue_send(q, vec![3, 3, 3, 3], 0), BlockOutcome::Fail(KError::WouldBlock));
    // A positive timeout blocks the sender instead.
    assert_eq!(k.queue_send(q, vec![3, 3, 3, 3], 500), BlockOutcome::Waiting);
    assert!(matches!(k.task_state(a), TaskState::Blocked(_)));
    // Draining one slot lets the blocked sender deliver its message.
    assert_eq!(k.queue_try_receive(q).unwrap(), vec![1, 1, 1, 1]);
    assert_eq!(k.queue_len(q), 2);
    assert!(matches!(k.task_state(a), TaskState::Ready));
    assert_eq!(k.take_wake(a), WakeStatus::Woken);
    // FIFO continues through the handed-over message.
    assert_eq!(k.queue_try_receive(q).unwrap(), vec![2, 2, 2, 2]);
    assert_eq!(k.queue_try_receive(q).unwrap(), vec![3, 3, 3, 3]);
    assert_eq!(k.queue_try_receive(q), Err(KError::WouldBlock));
}

#[test]
fn queue_receive_times_out_without_a_sender() {
    // A receiver with a deadline and nothing sent: after the deadline
    // elapses under the tick counter, the call ends in a timeout outcome
    // and the task is schedulable again, never signalled.
    let mut k = Kernel::new(4096, 2);
    let a = k.spawn(1, 128).unwrap();
    let q = k.queue_create(2, 1).unwrap();
    k.tick();
    let start = k.now_ticks();
    assert_eq!(k.queue_receive(q, 100), RecvOutcome::Waiting);
    let mut woke_at = 0u64;
    for _ in 0..200 {
        k.tick();
        if !matches!(k.task_state(a), TaskState::Blocked(_)) {
            woke_at = k.now_ticks();
            break;
        }
    }
    assert_eq!(woke_at, start + 100);
    assert_eq!(k.take_wake(a), WakeStatus::TimedOut);
    assert!(matches!(k.task_state(a), TaskState::Running));
}

#[test]
fn queue_send_hands_message_to_blocked_receiver() {
    let mut k = Kernel::new(4096, 2);
    let a = k.spawn(1, 128).unwrap();
    let q = k.queue_create(2, 2).unwrap();
    k.tick();
    assert_eq!(k.queue_receive(q, 1000), RecvOutcome::Waiting);
    assert!(matches!(k.task_state(a), TaskState::Blocked(_)));
    // An interrupt-context try-send delivers straight to the waiter.
    k.queue_try_send(q, vec![7, 8]).unwrap();
    assert_eq!(k.queue_len(q), 0);
    assert!(matches!(k.task_state(a), TaskState::Ready));
    assert_eq!(k.take_wake(a), WakeStatus::Received(vec![7, 8]));
}
