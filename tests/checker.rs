use os::checker::DeadlockCheck;

fn two_threads_two_locks() -> DeadlockCheck {
    let mut dc = DeadlockCheck::new();
    dc.enable();
    dc.add_thread(1);
    dc.add_resource(0, 1);
    dc.add_resource(1, 1);
    dc
}

#[test]
fn holder_without_need_lets_waiter_proceed_then_circular_wait_is_unsafe() {
    let mut dc = two_threads_two_locks();
    assert!(dc.request_resource(0, 0));
    dc.acquire_resource(0, 0);
    assert!(dc.request_resource(1, 1));
    dc.acquire_resource(1, 1);
    // thread 1 waits for resource 0, held by thread 0, which waits for nothing
    assert!(dc.request_resource(1, 0));
    // thread 0 now asks for resource 1, held by thread 1: circular wait
    assert!(!dc.request_resource(0, 1));
}

#[test]
fn disabled_checker_reports_safe_for_circular_wait() {
    let mut dc = two_threads_two_locks();
    dc.disable();
    assert!(dc.request_resource(0, 0));
    dc.acquire_resource(0, 0);
    assert!(dc.request_resource(1, 1));
    dc.acquire_resource(1, 1);
    assert!(dc.request_resource(1, 0));
    assert!(dc.request_resource(0, 1));
}

#[test]
fn semaphore_with_spare_units_is_safe() {
    // three threads, one counting semaphore with two units
    let mut dc = DeadlockCheck::new();
    dc.enable();
    dc.add_thread(2);
    assert_eq!(dc.thread_count(), 3);
    dc.add_resource(0, 2);
    dc.add_resource(1, 1);
    assert!(dc.request_resource(0, 0));
    dc.acquire_resource(0, 0);
    assert!(dc.request_resource(1, 1));
    dc.acquire_resource(1, 1);
    // thread 0 waits for the lock held by thread 1; one semaphore unit is free
    assert!(dc.request_resource(0, 1));
    // thread 1 takes the last semaphore unit: thread 2 can still finish
    assert!(dc.request_resource(1, 0));
    dc.acquire_resource(1, 0);
    // thread 2 waits for the semaphore: no unit free, but thread 1 can finish
    assert!(dc.request_resource(2, 0));
}

#[test]
fn three_thread_cycle_is_unsafe_in_any_order() {
    let mut dc = DeadlockCheck::new();
    dc.enable();
    dc.add_thread(2);
    dc.add_resource(0, 1);
    dc.add_resource(1, 1);
    dc.add_resource(2, 1);
    for t in 0..3usize {
        assert!(dc.request_resource(t, t));
        dc.acquire_resource(t, t);
    }
    assert!(dc.request_resource(0, 1));
    assert!(dc.request_resource(1, 2));
    assert!(!dc.request_resource(2, 0));
}

#[test]
fn release_then_request_again_is_safe() {
    let mut dc = two_threads_two_locks();
    assert!(dc.request_resource(0, 0));
    dc.acquire_resource(0, 0);
    dc.release_resource(0, 0);
    assert!(dc.request_resource(1, 0));
    dc.acquire_resource(1, 0);
    assert!(dc.request_resource(0, 0));
}

#[test]
fn add_thread_is_idempotent_and_add_resource_grows_columns() {
    let mut dc = DeadlockCheck::new();
    assert_eq!(dc.thread_count(), 1);
    dc.add_thread(3);
    assert_eq!(dc.thread_count(), 4);
    dc.add_thread(1);
    assert_eq!(dc.thread_count(), 4);
    dc.add_resource(4, 3);
    dc.enable();
    assert!(dc.request_resource(3, 4));
    dc.acquire_resource(3, 4);
    assert!(dc.request_resource(2, 4));
}
