use os::manager::{advance_stride, stride_lt, TaskManager, BIG_STRIDE};

fn dispatch_counts(start: u64, rounds: usize) -> (usize, usize) {
    // task 1 has priority 10, task 2 priority 20
    let mut m = TaskManager::new();
    m.add(1, start);
    m.add(2, start);
    let (mut a, mut b) = (0usize, 0usize);
    for _ in 0..rounds {
        let t = m.fetch().unwrap();
        let prio = if t.pid == 1 {
            a += 1;
            10
        } else {
            b += 1;
            20
        };
        m.add(t.pid, advance_stride(t.stride, prio));
    }
    (a, b)
}

#[test]
fn thirty_dispatches_split_by_priority() {
    let (a, b) = dispatch_counts(0, 30);
    assert_eq!(a + b, 30);
    // the task of priority 20 runs twice as often as the one of priority 10
    assert!((2 * a as i64 - b as i64).abs() <= 2, "a = {}, b = {}", a, b);
}

#[test]
fn split_by_priority_holds_across_overflow() {
    let (a, b) = dispatch_counts(u64::MAX - 3 * BIG_STRIDE, 300);
    assert_eq!(a + b, 300);
    assert!((2 * a as i64 - b as i64).abs() <= 2, "a = {}, b = {}", a, b);
}

#[test]
fn wrap_aware_comparison() {
    assert!(stride_lt(1, 2));
    assert!(!stride_lt(2, 1));
    assert!(!stride_lt(5, 5));
    assert!(stride_lt(u64::MAX - 10, 5));
    assert!(!stride_lt(5, u64::MAX - 10));
}

#[test]
fn advance_stride_wraps() {
    assert_eq!(advance_stride(0, 1), BIG_STRIDE);
    assert_eq!(advance_stride(0, 16), BIG_STRIDE / 16);
    assert_eq!(advance_stride(u64::MAX, 1), BIG_STRIDE - 1);
}

#[test]
fn fetch_takes_least_stride_and_empties() {
    let mut m = TaskManager::new();
    assert!(m.fetch().is_none());
    m.add(7, 300);
    m.add(8, 100);
    m.add(9, 200);
    assert_eq!(m.len(), 3);
    assert_eq!(m.fetch().unwrap().pid, 8);
    assert_eq!(m.fetch().unwrap().pid, 9);
    assert_eq!(m.fetch().unwrap().pid, 7);
    assert!(m.fetch().is_none());
}
