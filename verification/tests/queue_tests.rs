use project_cleanup::queue::WorkQueue;

#[test]
fn count_items() {
    let mut queue = WorkQueue::new();
    for i in 1..20 {
        queue.push(i);
    }

    let mut total = 0;
    for i in queue.drain() {
        total += i;
    }

    assert_eq!(total, 190);
}

#[test]
fn drain_empties_and_returns_everything() {
    let mut queue = WorkQueue::new();
    assert_eq!(queue.len(), 0);
    queue.push(7);
    queue.push(42);
    queue.push(7);
    assert_eq!(queue.len(), 3);
    let mut drained = queue.drain();
    assert_eq!(queue.len(), 0);
    drained.sort();
    assert_eq!(drained, vec![7, 7, 42]);
}

#[test]
fn pop_returns_pushed_items() {
    let mut queue = WorkQueue::new();
    assert_eq!(queue.pop(), None);
    queue.push(5);
    assert_eq!(queue.pop(), Some(5));
    assert_eq!(queue.pop(), None);
}
