use rtos_compat::errors::KError;
use rtos_compat::kernel::{BlockOutcome, Kernel};
use rtos_compat::task::{TaskState, WakeStatus};

#[test]
fn spawn_runs_highest_priority_first() {
    let mut k = Kernel::new(4096, 2);
    let a = k.spawn(3, 256).unwrap();
    let b = k.spawn(2, 256).unwrap();
    k.tick();
    assert_eq!(k.current_task(), Some(b));
    assert!(matches!(k.task_state(a), TaskState::Ready));
}

#[test]
fn higher_priority_runs_exclusively_until_it_blocks() {
    // Two tasks, one outranking the other: the scheduler must never run
    // the lower one while the higher one stays Ready.
    let mut k = Kernel::new(4096, 1);
    let a = k.spawn(3, 128).unwrap();
    let b = k.spawn(1, 128).unwrap();
    let s = k.sem_create(0, 1).unwrap();
    k.tick();
    assert_eq!(k.current_task(), Some(b));
    for _ in 0..10 {
        k.tick();
        assert_eq!(k.current_task(), Some(b));
        assert!(matches!(k.task_state(a), TaskState::Ready));
    }
    // The higher task blocks; only then does the lower one run.
    assert_eq!(k.sem_take(s, 100), BlockOutcome::Waiting);
    assert_eq!(k.current_task(), Some(a));
}

#[test]
fn equal_priority_is_fifo_and_round_robin() {
    let mut k = Kernel::new(4096, 1);
    let a = k.spawn(4, 128).unwrap();
    let b = k.spawn(4, 128).unwrap();
    k.tick();
    // FIFO: the task that became Ready first runs first.
    assert_eq!(k.current_task(), Some(a));
    // Slice of one tick: the peers alternate.
    k.tick();
    assert_eq!(k.current_task(), Some(b));
    k.tick();
    assert_eq!(k.current_task(), Some(a));
}

#[test]
fn yield_moves_task_to_back_of_its_level() {
    let mut k = Kernel::new(4096, 100);
    let a = k.spawn(4, 128).unwrap();
    let b = k.spawn(4, 128).unwrap();
    k.tick();
    assert_eq!(k.current_task(), Some(a));
    k.yield_now();
    assert_eq!(k.current_task(), Some(b));
    k.yield_now();
    assert_eq!(k.current_task(), Some(a));
}

#[test]
fn spawn_rejects_bad_priority_and_exhausted_heap() {
    let mut k = Kernel::new(300, 2);
    assert_eq!(k.spawn(99, 64), Err(KError::BadPriority));
    let t = k.spawn(1, 200).unwrap();
    assert_eq!(k.spawn(1, 200), Err(KError::OutOfMemory));
    // Deleting the task frees its stack; the next spawn fits again.
    k.delete_task(t).unwrap();
    assert!(k.spawn(1, 200).is_ok());
}

#[test]
fn delete_running_task_switches_away() {
    let mut k = Kernel::new(4096, 2);
    let a = k.spawn(3, 128).unwrap();
    let b = k.spawn(1, 128).unwrap();
    k.tick();
    assert_eq!(k.current_task(), Some(b));
    let used = k.heap_used();
    k.delete_task(b).unwrap();
    assert!(matches!(k.task_state(b), TaskState::Deleted));
    assert_eq!(k.current_task(), Some(a));
    assert!(k.heap_used() < used);
    assert_eq!(k.delete_task(b), Err(KError::NoSuchTask));
}

#[test]
fn sleep_wakes_with_timeout_status_after_deadline() {
    let mut k = Kernel::new(4096, 2);
    let a = k.spawn(2, 128).unwrap();
    k.tick();
    assert_eq!(k.current_task(), Some(a));
    k.sleep(5);
    assert!(matches!(k.task_state(a), TaskState::Blocked(_)));
    for _ in 0..4 {
        k.tick();
        assert!(matches!(k.task_state(a), TaskState::Blocked(_)));
    }
    k.tick();
    assert!(matches!(k.task_state(a), TaskState::Running));
    assert_eq!(k.take_wake(a), WakeStatus::TimedOut);
}

#[test]
fn critical_section_tokens_nest_by_hand() {
    let mut k = Kernel::new(1024, 2);
    assert!(k.interrupts_enabled());
    let outer = k.cs_enter();
    assert!(outer);
    assert!(!k.interrupts_enabled());
    let inner = k.cs_enter();
    assert!(!inner);
    k.cs_exit(inner);
    assert!(!k.interrupts_enabled());
    k.cs_exit(outer);
    assert!(k.interrupts_enabled());
}

#[test]
fn heap_shim_allocate_free_recoverable() {
    let mut k = Kernel::new(256, 2);
    let b1 = k.mem_alloc(200, 8).unwrap();
    assert!(k.mem_alloc(100, 8).is_none());
    assert_eq!(k.mem_free(9999), Err(KError::InvalidHandle));
    k.mem_free(b1).unwrap();
    assert!(k.mem_alloc(100, 8).is_some());
}

#[test]
fn task_stack_cannot_be_freed_through_the_shim() {
    let mut k = Kernel::new(1024, 2);
    let _t = k.spawn(1, 128).unwrap();
    // The spawned task's stack is the first heap block.
    assert_eq!(k.mem_free(0), Err(KError::InvalidState));
}

#[test]
fn suspend_and_resume_a_task() {
    let mut k = Kernel::new(4096, 2);
    let a = k.spawn(2, 128).unwrap();
    let b = k.spawn(3, 128).unwrap();
    k.tick();
    assert_eq!(k.current_task(), Some(a));
    // Suspending the running task switches to the next-best one.
    k.suspend_task(a).unwrap();
    assert!(matches!(k.task_state(a), TaskState::Suspended));
    assert_eq!(k.current_task(), Some(b));
    assert_eq!(k.suspend_task(a), Err(KError::InvalidState));
    k.resume_task(a).unwrap();
    assert!(matches!(k.task_state(a), TaskState::Ready));
    // The resumed, higher-priority task preempts at the next tick.
    k.tick();
    assert_eq!(k.current_task(), Some(a));
}
