use queue_recursion::queue::{ExceptionPromise, FunctionState, Promise, ResultMatch};

#[test]
fn promise_lifecycle() {
    let p: Promise<u8> = Promise::new();
    assert!(p.data.is_none() && !p.has_started && !p.is_finished && !p.kill_flag);
    let done = Promise { data: Some(5u8), kill_flag: false, has_started: true, is_finished: true };
    assert_eq!(done.unwrap(), 5);
    let mut cancelled = Promise { data: Some(6u8), kill_flag: false, has_started: true, is_finished: true };
    assert_eq!(cancelled.cancel(), Some(6));
    assert!(cancelled.kill_flag);
    assert_eq!(cancelled.data, None);
    assert_eq!(cancelled.cancel(), None);
    let mut never: Promise<u8> = Promise::new();
    assert_eq!(never.cancel(), None);
    assert!(never.kill_flag);
}

#[test]
fn exception_promise_outcomes() {
    let ok: ExceptionPromise<u8, &str> = ExceptionPromise {
        promise: Promise { data: Some(1), kill_flag: false, has_started: true, is_finished: true },
        exception: None,
    };
    assert!(matches!(ok.unwrap().consume_any(), ResultMatch::Returned(1)));
    let err: ExceptionPromise<u8, &str> = ExceptionPromise {
        promise: Promise { data: None, kill_flag: false, has_started: true, is_finished: false },
        exception: Some("bad"),
    };
    assert!(matches!(err.unwrap().consume_any(), ResultMatch::Exception("bad")));
    let ok2: ExceptionPromise<u8, &str> = ExceptionPromise {
        promise: Promise { data: Some(2), kill_flag: false, has_started: true, is_finished: true },
        exception: None,
    };
    assert_eq!(ok2.unwrap().unwrap_ok(), 2);
    let typed: ExceptionPromise<u8, &str> = ExceptionPromise {
        promise: Promise { data: None, kill_flag: false, has_started: true, is_finished: false },
        exception: Some("x"),
    };
    let r = typed.unwrap().consume_type(|s: &str| Ok::<usize, queue_recursion::queue::MatchTypeException>(s.len()));
    assert!(matches!(r, Ok(ResultMatch::Exception(1))));
}

#[test]
fn function_state_steps() {
    let mut join = FunctionState::Join;
    assert!(!join.poll_step());
    assert!(matches!(join, FunctionState::Done));
    assert!(join.poll_step());
    let mut throwing = FunctionState::Throwing;
    assert!(!throwing.poll_step());
    assert!(matches!(throwing, FunctionState::Panic));
}

#[test]
fn join_suspends_exactly_once() {
    let mut join = FunctionState::Join;
    let first = join.poll_step();
    let second = join.poll_step();
    assert!(!first && second);
    assert!(join.poll_step());
}
