use queue_recursion::priority::{ContractError, Priority, PriorityStyle};
use queue_recursion::scheduler::{relay_internal, AfterCall, Begin, Fault, PriorityQueue};

fn start_next(q: &mut PriorityQueue<&'static str>) -> Option<usize> {
    let id = q.pop()?;
    match q.begin_call(id) {
        Ok(Begin::Poll) => Some(id),
        Ok(Begin::Skip) => start_next(q),
        Err(_) => panic!("fault"),
    }
}

#[test]
fn join_resumes_parent_after_children() {
    let mut q: PriorityQueue<&'static str> = PriorityQueue::new(PriorityStyle::Max);
    assert_eq!(q.run(Priority::Value(0)).ok(), Some(0));
    assert_eq!(start_next(&mut q), Some(0));
    assert!(q.task(0).started);
    assert_eq!(q.add_priority(500).ok(), Some(1));
    assert_eq!(q.add_priority(300).ok(), Some(2));
    assert_eq!(q.task(0).children_count, 2);
    assert_eq!(q.task(0).children, vec![1, 2]);
    // the root joins with priority 100
    q.set_priority(Priority::Value(100));
    assert!(matches!(q.end_call(0, false), Ok(AfterCall::Continue)));
    // larger first
    assert_eq!(start_next(&mut q), Some(1));
    assert!(matches!(q.end_call(1, true), Ok(AfterCall::Continue)));
    assert_eq!(q.task(0).children_count, 1);
    assert_eq!(start_next(&mut q), Some(2));
    assert!(matches!(q.end_call(2, true), Ok(AfterCall::Continue)));
    // the last child retired: the root is queued again, with the priority it joined with
    assert_eq!(q.task(0).children_count, 0);
    assert_eq!(start_next(&mut q), Some(0));
    assert!(matches!(q.get_priority(), Priority::Value(100)));
    assert!(matches!(q.end_call(0, true), Ok(AfterCall::Continue)));
    assert!(q.task(0).finished);
    assert_eq!(q.pop(), None);
}

#[test]
fn min_style_runs_smaller_priorities_first() {
    let mut q: PriorityQueue<&'static str> = PriorityQueue::new(PriorityStyle::Min);
    q.run(Priority::Value(0)).ok().unwrap();
    assert_eq!(start_next(&mut q), Some(0));
    q.add_priority(30).ok().unwrap();
    q.add_priority(10).ok().unwrap();
    q.add_priority(20).ok().unwrap();
    q.set_priority(Priority::Now);
    q.end_call(0, false).ok().unwrap();
    let mut order = Vec::new();
    while let Some(id) = start_next(&mut q) {
        order.push(id);
        q.end_call(id, true).ok().unwrap();
    }
    // children by priority, then the root once they are done
    assert_eq!(order, vec![2, 3, 1, 0]);
}

#[test]
fn queue_style_runs_first_in_first_out() {
    let mut q: PriorityQueue<&'static str> = PriorityQueue::new(PriorityStyle::Queue);
    q.run(Priority::Now).ok().unwrap();
    assert_eq!(start_next(&mut q), Some(0));
    q.add_priority(0).ok().unwrap();
    q.add_priority(0).ok().unwrap();
    q.end_call(0, false).ok().unwrap();
    assert_eq!(start_next(&mut q), Some(1));
    q.add_priority(0).ok().unwrap();
    q.end_call(1, false).ok().unwrap();
    let mut order = Vec::new();
    while let Some(id) = start_next(&mut q) {
        order.push(id);
        q.end_call(id, true).ok().unwrap();
    }
    // breadth first: 2 was queued before 3; 1 and then 0 come back once their children finish
    assert_eq!(order, vec![2, 3, 1, 0]);
}

#[test]
fn caught_exception_resumes_catcher_parent_now() {
    let mut q: PriorityQueue<&'static str> = PriorityQueue::new(PriorityStyle::Min);
    q.run(Priority::Value(0)).ok().unwrap();
    assert_eq!(start_next(&mut q), Some(0));
    assert_eq!(q.catch_priority(5).ok(), Some(1));
    assert_eq!(q.add_priority(1).ok(), Some(2));
    assert_eq!(q.task(1).catch, Some(1));
    q.end_call(0, false).ok().unwrap();
    // the caught call runs first (priority 1 < 5 is the plain child, 2)
    assert_eq!(start_next(&mut q), Some(2));
    q.end_call(2, true).ok().unwrap();
    assert_eq!(start_next(&mut q), Some(1));
    relay_internal("boom", &mut q, Priority::Now, true);
    assert!(q.task(1).is_throwing);
    assert!(q.task(0).value.is_now());
    assert!(matches!(q.end_call(1, false), Ok(AfterCall::Continue)));
    // the parent of the catcher runs next and finds the exception
    assert_eq!(start_next(&mut q), Some(0));
    assert_eq!(q.take_exception(1), Some("boom"));
    assert_eq!(q.take_exception(1), None);
}

#[test]
fn uncaught_exception_stops_the_run() {
    let mut q: PriorityQueue<&'static str> = PriorityQueue::new(PriorityStyle::Min);
    q.run(Priority::Value(0)).ok().unwrap();
    assert_eq!(start_next(&mut q), Some(0));
    relay_internal("lost", &mut q, Priority::Now, true);
    match q.end_call(0, false) {
        Ok(AfterCall::Stop(e)) => assert_eq!(e, Some("lost")),
        _ => panic!("the run should stop"),
    }
}

#[test]
fn select_exception_cancels_sibling_branches() {
    let mut q: PriorityQueue<&'static str> = PriorityQueue::new(PriorityStyle::Min);
    q.run(Priority::Value(0)).ok().unwrap();
    assert_eq!(start_next(&mut q), Some(0));
    assert_eq!(q.select_priority(1).ok(), Some(1));
    assert_eq!(q.select_priority(2).ok(), Some(2));
    assert_eq!(q.task(0).select_count, 2);
    q.end_call(0, false).ok().unwrap();
    assert_eq!(start_next(&mut q), Some(1));
    relay_internal("found", &mut q, Priority::Now, true);
    q.end_call(1, false).ok().unwrap();
    assert!(q.task(1).killed && q.task(2).killed);
    assert!(q.task(2).started);
    assert_eq!(q.task(0).select_count, 0);
    // the parent runs next; the cancelled sibling is skipped
    assert_eq!(start_next(&mut q), Some(0));
    assert_eq!(q.take_exception(1), Some("found"));
    q.end_call(0, true).ok().unwrap();
    assert_eq!(start_next(&mut q), None);
}

#[test]
fn replace_and_contract() {
    let mut q: PriorityQueue<&'static str> = PriorityQueue::new(PriorityStyle::Min);
    q.run(Priority::Value(7)).ok().unwrap();
    assert_eq!(start_next(&mut q), Some(0));
    assert!(matches!(q.clone_priority(), Priority::Value(7)));
    let old = q.replace_priority(Priority::Value(9));
    assert!(matches!(old, Priority::Value(7)));
    assert!(matches!(q.get_priority(), Priority::Value(9)));
    let c = q.current_contract();
    assert!(matches!(c.get_priority(&q), Ok(Priority::Value(9))));
    assert!(c.set_priority(&mut q, Priority::Value(3)).is_ok());
    assert!(matches!(c.clone_priority(&q), Ok(Priority::Value(3))));
    q.end_call(0, true).ok().unwrap();
    assert!(matches!(c.set_priority(&mut q, Priority::Value(1)), Err(ContractError::FinishedFunction)));
}

#[test]
fn popping_a_waiting_call_is_a_fault() {
    let mut q: PriorityQueue<&'static str> = PriorityQueue::new(PriorityStyle::Max);
    q.run(Priority::Value(0)).ok().unwrap();
    assert_eq!(start_next(&mut q), Some(0));
    q.add_priority(1).ok().unwrap();
    // deciding on a call that still waits for a child is a fault
    q.set_priority(Priority::Value(5));
    q.end_call(0, false).ok().unwrap();
    assert_eq!(q.pop(), Some(1));
    assert!(matches!(q.begin_call(1), Ok(Begin::Poll)));
    assert!(matches!(q.begin_call(0), Err(Fault::ChildrenPending)));
}

#[test]
fn raise_whenever_keeps_catcher_parent_priority() {
    let mut q: PriorityQueue<&'static str> = PriorityQueue::new(PriorityStyle::Min);
    q.run(Priority::Value(0)).ok().unwrap();
    assert_eq!(start_next(&mut q), Some(0));
    assert_eq!(q.catch_priority(5).ok(), Some(1));
    q.set_priority(Priority::Value(40));
    q.end_call(0, false).ok().unwrap();
    assert_eq!(start_next(&mut q), Some(1));
    relay_internal("later", &mut q, Priority::Now, false);
    assert!(matches!(q.task(0).value, Priority::Value(40)));
    q.end_call(1, false).ok().unwrap();
    assert_eq!(start_next(&mut q), Some(0));
    assert_eq!(q.take_exception(1), Some("later"));
}

#[test]
fn exception_below_a_catch_is_caught() {
    let mut q: PriorityQueue<&'static str> = PriorityQueue::new(PriorityStyle::Min);
    q.run(Priority::Value(0)).ok().unwrap();
    assert_eq!(start_next(&mut q), Some(0));
    assert_eq!(q.catch_priority(1).ok(), Some(1));
    q.end_call(0, false).ok().unwrap();
    assert_eq!(start_next(&mut q), Some(1));
    assert_eq!(q.add_priority(2).ok(), Some(2));
    assert_eq!(q.add_priority(3).ok(), Some(3));
    assert_eq!(q.task(2).catch, Some(1));
    q.end_call(1, false).ok().unwrap();
    assert_eq!(start_next(&mut q), Some(2));
    relay_internal("stop", &mut q, Priority::Now, true);
    q.end_call(2, false).ok().unwrap();
    // the branch of the catcher is cancelled and the catcher retired
    assert!(q.task(1).killed && q.task(2).killed && q.task(3).killed);
    assert!(q.task(1).retired);
    assert_eq!(q.task(0).children_count, 0);
    // the function that made the catch runs next and finds the exception
    assert_eq!(q.pop(), Some(0));
    assert!(matches!(q.begin_call(0), Ok(Begin::Poll)));
    assert_eq!(q.take_exception(1), Some("stop"));
    q.end_call(0, true).ok().unwrap();
    // the cancelled call still queued is passed by
    assert_eq!(q.pop(), Some(3));
    assert!(matches!(q.begin_call(3), Ok(Begin::Skip)));
    assert!(q.task(3).retired);
    assert_eq!(q.pop(), None);
}

#[test]
fn contract_of_a_retired_call_is_gone() {
    let mut q: PriorityQueue<&'static str> = PriorityQueue::new(PriorityStyle::Min);
    q.run(Priority::Value(0)).ok().unwrap();
    assert_eq!(start_next(&mut q), Some(0));
    q.add_priority(3).ok().unwrap();
    q.end_call(0, false).ok().unwrap();
    assert_eq!(start_next(&mut q), Some(1));
    let child = q.current_contract();
    q.end_call(1, true).ok().unwrap();
    // retired but still the running call: reachable
    assert!(matches!(child.get_priority(&q), Ok(Priority::Value(3))));
    assert_eq!(start_next(&mut q), Some(0));
    assert!(matches!(child.get_priority(&q), Err(ContractError::FinishedFunction)));
    assert!(matches!(child.clone_priority(&q), Err(ContractError::FinishedFunction)));
    assert!(matches!(child.set_priority(&mut q, Priority::Value(1)), Err(ContractError::FinishedFunction)));
}

#[test]
fn contract_of_a_call_with_a_caught_child_stays_reachable() {
    let mut q: PriorityQueue<&'static str> = PriorityQueue::new(PriorityStyle::Min);
    q.run(Priority::Value(0)).ok().unwrap();
    assert_eq!(start_next(&mut q), Some(0));
    assert_eq!(q.add_priority(1).ok(), Some(1));
    q.end_call(0, false).ok().unwrap();
    assert_eq!(start_next(&mut q), Some(1));
    let middle = q.current_contract();
    assert_eq!(q.catch_priority(2).ok(), Some(2));
    q.end_call(1, false).ok().unwrap();
    assert_eq!(start_next(&mut q), Some(2));
    q.end_call(2, true).ok().unwrap();
    assert_eq!(start_next(&mut q), Some(1));
    q.end_call(1, true).ok().unwrap();
    assert!(q.task(1).retired);
    assert_eq!(start_next(&mut q), Some(0));
    // the caught child keeps a link to itself and to its parent
    assert!(matches!(middle.get_priority(&q), Ok(Priority::Value(1))));
    assert!(matches!(middle.set_priority(&mut q, Priority::Value(7)), Err(ContractError::FinishedFunction)));
}
