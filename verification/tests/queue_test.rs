use graph_algorithm_tui::queue::MinQueue;

#[test]
fn pop_on_empty_queue_is_none() {
    let mut q = MinQueue::new();
    assert!(q.is_empty());
    assert_eq!(q.pop_min(), None);
    assert!(q.is_empty());
}

#[test]
fn least_cost_leaves_first() {
    let mut q = MinQueue::new();
    q.push(5, 50);
    q.push(-2, 20);
    q.push(9, 90);
    q.push(0, 10);
    assert!(!q.is_empty());
    assert_eq!(q.pop_min(), Some((-2, 20)));
    assert_eq!(q.pop_min(), Some((0, 10)));
    assert_eq!(q.pop_min(), Some((5, 50)));
    assert_eq!(q.pop_min(), Some((9, 90)));
    assert_eq!(q.pop_min(), None);
}

#[test]
fn equal_costs_leave_by_node() {
    let mut q = MinQueue::new();
    q.push(3, 7);
    q.push(1, 9);
    q.push(3, -3);
    q.push(1, 4);
    q.push(1, 5);
    assert_eq!(q.pop_min(), Some((1, 4)));
    q.push(1, 2);
    assert_eq!(q.pop_min(), Some((1, 2)));
    assert_eq!(q.pop_min(), Some((1, 5)));
    assert_eq!(q.pop_min(), Some((1, 9)));
    assert_eq!(q.pop_min(), Some((3, -3)));
    assert_eq!(q.pop_min(), Some((3, 7)));
    assert!(q.is_empty());
}

#[test]
fn equal_entries_all_leave() {
    let mut q = MinQueue::new();
    q.push(2, 2);
    q.push(2, 2);
    q.push(1, 1);
    q.push(2, 2);
    assert_eq!(q.pop_min(), Some((1, 1)));
    assert_eq!(q.pop_min(), Some((2, 2)));
    assert_eq!(q.pop_min(), Some((2, 2)));
    assert_eq!(q.pop_min(), Some((2, 2)));
    assert_eq!(q.pop_min(), None);
}

#[test]
fn many_entries_leave_in_order() {
    let mut q = MinQueue::new();
    let mut expected: Vec<(i64, i64)> = Vec::new();
    let mut x: i64 = 12345;
    for _ in 0..500 {
        x = (x * 1103515245 + 12345) % 2147483648;
        let cost = x % 50 - 25;
        x = (x * 1103515245 + 12345) % 2147483648;
        let node = x % 20;
        q.push(cost, node);
        expected.push((cost, node));
    }
    expected.sort();
    let mut popped: Vec<(i64, i64)> = Vec::new();
    while let Some(e) = q.pop_min() {
        popped.push(e);
    }
    assert_eq!(popped, expected);
    assert!(q.is_empty());
}

#[test]
fn pushes_and_pops_may_alternate() {
    let mut q = MinQueue::new();
    let extremes = [i64::MAX, i64::MIN, 0, -1, 1];
    for &c in &extremes {
        q.push(c, 0);
        q.push(0, c);
    }
    assert_eq!(q.pop_min(), Some((i64::MIN, 0)));
    assert_eq!(q.pop_min(), Some((-1, 0)));
    q.push(i64::MIN, i64::MAX);
    q.push(i64::MIN, i64::MIN);
    assert_eq!(q.pop_min(), Some((i64::MIN, i64::MIN)));
    assert_eq!(q.pop_min(), Some((i64::MIN, i64::MAX)));
    assert_eq!(q.pop_min(), Some((0, i64::MIN)));
    assert_eq!(q.pop_min(), Some((0, -1)));
    assert_eq!(q.pop_min(), Some((0, 0)));
    assert_eq!(q.pop_min(), Some((0, 0)));
    assert_eq!(q.pop_min(), Some((0, 1)));
    assert_eq!(q.pop_min(), Some((0, i64::MAX)));
    assert_eq!(q.pop_min(), Some((1, 0)));
    assert_eq!(q.pop_min(), Some((i64::MAX, 0)));
    assert_eq!(q.pop_min(), None);
}
