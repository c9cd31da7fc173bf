use queue_recursion::queue::{add, catch, throw_internal, Queue, QueueBegin, QueueStep};
use queue_recursion::scheduler::Fault;

fn start_next(q: &mut Queue<u32>) -> Option<usize> {
    let id = q.pop()?;
    match q.begin_call(id) {
        Ok(QueueBegin::Poll) => Some(id),
        Ok(QueueBegin::Skip) => start_next(q),
        Err(_) => panic!("fault"),
    }
}

#[test]
fn breadth_first_order() {
    let mut q: Queue<u32> = Queue::new();
    assert_eq!(q.run(), 0);
    assert_eq!(start_next(&mut q), Some(0));
    assert_eq!(add(&mut q).ok(), Some(1));
    assert_eq!(add(&mut q).ok(), Some(2));
    assert!(matches!(q.end_call(0, false), Ok(QueueStep::Continue)));
    assert_eq!(start_next(&mut q), Some(1));
    assert_eq!(add(&mut q).ok(), Some(3));
    q.end_call(1, false).ok().unwrap();
    let mut order = Vec::new();
    while let Some(id) = start_next(&mut q) {
        order.push(id);
        q.end_call(id, true).ok().unwrap();
    }
    assert_eq!(order, vec![2, 3, 1, 0]);
    assert!(q.task(0).finished);
}

#[test]
fn unfinished_call_without_children_is_queued_again() {
    let mut q: Queue<u32> = Queue::new();
    q.run();
    assert_eq!(start_next(&mut q), Some(0));
    q.end_call(0, false).ok().unwrap();
    assert_eq!(start_next(&mut q), Some(0));
    q.end_call(0, true).ok().unwrap();
    assert_eq!(q.pop(), None);
}

#[test]
fn caught_exception_reaches_catcher() {
    let mut q: Queue<u32> = Queue::new();
    q.run();
    assert_eq!(start_next(&mut q), Some(0));
    assert_eq!(catch(&mut q).ok(), Some(1));
    assert_eq!(q.task(1).catch, Some(1));
    q.end_call(0, false).ok().unwrap();
    assert_eq!(start_next(&mut q), Some(1));
    throw_internal(42, &mut q);
    q.end_call(1, false).ok().unwrap();
    assert_eq!(start_next(&mut q), Some(0));
    assert_eq!(q.take_exception(1), Some(42));
}

#[test]
fn uncaught_exception_stops() {
    let mut q: Queue<u32> = Queue::new();
    q.run();
    assert_eq!(start_next(&mut q), Some(0));
    throw_internal(7, &mut q);
    assert!(matches!(q.end_call(0, false), Ok(QueueStep::Stop(Some(7)))));
}

#[test]
fn cancelled_call_is_a_fault_when_taken() {
    let mut q: Queue<u32> = Queue::new();
    q.run();
    assert_eq!(start_next(&mut q), Some(0));
    add(&mut q).ok().unwrap();
    q.cancel(1);
    q.end_call(0, false).ok().unwrap();
    assert_eq!(q.pop(), Some(1));
    assert!(matches!(q.begin_call(1), Err(Fault::Cancelled)));
}

#[test]
fn fifo_exception_below_a_catch_is_caught() {
    let mut q: Queue<u32> = Queue::new();
    q.run();
    assert_eq!(start_next(&mut q), Some(0));
    assert_eq!(catch(&mut q).ok(), Some(1));
    q.end_call(0, false).ok().unwrap();
    assert_eq!(start_next(&mut q), Some(1));
    assert_eq!(add(&mut q).ok(), Some(2));
    assert_eq!(add(&mut q).ok(), Some(3));
    q.end_call(1, false).ok().unwrap();
    assert_eq!(start_next(&mut q), Some(2));
    throw_internal(9, &mut q);
    q.end_call(2, false).ok().unwrap();
    assert!(q.task(1).stopped && q.task(2).stopped && q.task(3).stopped);
    assert_eq!(q.task(0).children, 0);
    // call 3 was queued before the catcher's parent: it is passed by
    assert_eq!(q.pop(), Some(3));
    assert!(matches!(q.begin_call(3), Ok(QueueBegin::Skip)));
    assert_eq!(start_next(&mut q), Some(0));
    assert_eq!(q.take_exception(1), Some(9));
}

#[test]
fn fifo_catch_round_resumes_catcher_parent() {
    let mut q: Queue<u32> = Queue::new();
    assert_eq!(q.run(), 0);
    assert_eq!(start_next(&mut q), Some(0));
    assert_eq!(catch(&mut q).ok(), Some(1));
    assert_eq!(add(&mut q).ok(), Some(2));
    assert!(matches!(q.end_call(0, false), Ok(QueueStep::Continue)));
    assert_eq!(start_next(&mut q), Some(1));
    throw_internal(7, &mut q);
    assert!(matches!(q.end_call(1, false), Ok(QueueStep::Continue)));
    assert_eq!(q.task(1).exception_store, Some(7));
    assert!(q.task(1).stopped);
    // the parent still waits for its other child
    assert_eq!(q.task(0).children, 1);
    assert_eq!(start_next(&mut q), Some(2));
    assert!(matches!(q.end_call(2, true), Ok(QueueStep::Continue)));
    assert_eq!(q.task(0).children, 0);
    assert_eq!(start_next(&mut q), Some(0));
    assert_eq!(q.take_exception(1), Some(7));
}

#[test]
fn fifo_join_after_all_children() {
    let mut q: Queue<u32> = Queue::new();
    q.run();
    assert_eq!(start_next(&mut q), Some(0));
    add(&mut q).ok().unwrap();
    add(&mut q).ok().unwrap();
    add(&mut q).ok().unwrap();
    q.end_call(0, false).ok().unwrap();
    for child in 1..4 {
        assert_eq!(start_next(&mut q), Some(child));
        q.end_call(child, true).ok().unwrap();
        let waiting = 3 - child as i32;
        assert_eq!(q.task(0).children, waiting);
    }
    assert_eq!(start_next(&mut q), Some(0));
    assert_eq!(q.pop(), None);
}
