use std::cmp::Ordering;
use queue_recursion::priority::{
    MatchTypeException, Priority, PriorityExceptionPromise, PriorityExceptionSelect, ResultMatch,
    SelectMatch,
};
use queue_recursion::queue::{MatchTypeException as QueueMatchTypeException, Promise};

fn promise<T>(data: Option<T>, started: bool, finished: bool) -> Promise<T> {
    Promise { data, kill_flag: false, has_started: started, is_finished: finished }
}

#[test]
fn priority_queries() {
    let v: Priority<i64> = Priority::Value(4);
    let n: Priority<i64> = Priority::Now;
    assert!(!v.is_now());
    assert!(v.is_value());
    assert!(n.is_now());
    assert!(!n.is_value());
    assert_eq!(v.unwrap(), 4);
    assert_eq!(v.to_option(), Some(4));
    assert_eq!(n.to_option(), None);
    let c = v.clone();
    assert_eq!(c.unwrap(), 4);
}

#[test]
fn caught_call_gives_value_without_exception() {
    let p: PriorityExceptionPromise<i32, String> =
        PriorityExceptionPromise { promise: promise(Some(7), true, true), exception: None };
    match p.unwrap().consume_any() {
        ResultMatch::Returned(v) => assert_eq!(v, 7),
        ResultMatch::Exception(_) => panic!("no exception was raised"),
    }
}

#[test]
fn caught_call_gives_exception_first() {
    let p: PriorityExceptionPromise<i32, String> = PriorityExceptionPromise {
        promise: promise(None, true, false),
        exception: Some("boom".to_string()),
    };
    match p.unwrap().consume_any() {
        ResultMatch::Returned(_) => panic!("an exception was raised"),
        ResultMatch::Exception(e) => assert_eq!(e, "boom"),
    }
}

#[test]
fn caught_call_unwrap_ok() {
    let p: PriorityExceptionPromise<i32, String> =
        PriorityExceptionPromise { promise: promise(Some(11), true, true), exception: None };
    assert_eq!(p.unwrap().unwrap_ok(), 11);
}

#[test]
fn caught_call_typed_exception() {
    let p: PriorityExceptionPromise<i32, String> = PriorityExceptionPromise {
        promise: promise(None, true, false),
        exception: Some("42".to_string()),
    };
    let r = p.unwrap().consume_type(|s: String| {
        s.parse::<u8>().map_err(|_| QueueMatchTypeException { expected: "u8" })
    });
    match r {
        Ok(ResultMatch::Exception(v)) => assert_eq!(v, 42u8),
        _ => panic!("expected the exception read as u8"),
    }
    let p: PriorityExceptionPromise<i32, String> = PriorityExceptionPromise {
        promise: promise(None, true, false),
        exception: Some("x".to_string()),
    };
    let r = p.unwrap().consume_type(|s: String| {
        s.parse::<u8>().map_err(|_| QueueMatchTypeException { expected: "u8" })
    });
    match r {
        Err(m) => assert_eq!(m.expected, "u8"),
        _ => panic!("expected a type mismatch"),
    }
}

#[test]
fn selected_call_outcomes() {
    let done: PriorityExceptionSelect<i32, String> =
        PriorityExceptionSelect { promise: promise(Some(3), true, true), exception: None };
    assert!(matches!(done.unwrap().consume_any(), SelectMatch::Returned(3)));
    let cut: PriorityExceptionSelect<i32, String> =
        PriorityExceptionSelect { promise: promise(None, true, false), exception: None };
    assert!(matches!(cut.unwrap().consume_any(), SelectMatch::Interrupted));
    let thrown: PriorityExceptionSelect<i32, String> = PriorityExceptionSelect {
        promise: promise(None, true, false),
        exception: Some("e".to_string()),
    };
    match thrown.unwrap().consume_any() {
        SelectMatch::Exception(e) => assert_eq!(e, "e"),
        _ => panic!("expected the exception"),
    }
    let ok: PriorityExceptionSelect<i32, String> =
        PriorityExceptionSelect { promise: promise(Some(9), true, true), exception: None };
    assert_eq!(ok.unwrap().unwrap_ok(), 9);
}

#[test]
fn selected_call_typed_outcomes() {
    let cut: PriorityExceptionSelect<i32, String> =
        PriorityExceptionSelect { promise: promise(None, true, false), exception: None };
    let r = cut
        .unwrap()
        .consume_type(|s: String| s.parse::<u8>().map_err(|_| MatchTypeException { expected: "u8" }));
    assert!(matches!(r, Ok(SelectMatch::Interrupted)));
    let thrown: PriorityExceptionSelect<i32, String> = PriorityExceptionSelect {
        promise: promise(None, true, false),
        exception: Some("7".to_string()),
    };
    let r = thrown
        .unwrap()
        .consume_type(|s: String| s.parse::<u8>().map_err(|_| MatchTypeException { expected: "u8" }));
    assert!(matches!(r, Ok(SelectMatch::Exception(7u8))));
}

#[test]
fn priority_comparisons() {
    let a: Priority<i64> = Priority::Value(3);
    let b: Priority<i64> = Priority::Value(5);
    assert!(a == Priority::Value(3));
    assert!(a != b);
    assert!(a < b);
    assert!(b > a);
    assert!(a <= Priority::Value(3));
    assert_eq!(a.partial_cmp(&b), Some(Ordering::Less));
    assert_eq!(b.partial_cmp(&a), Some(Ordering::Greater));
    assert_eq!(a.partial_cmp(&a), Some(Ordering::Equal));
    let now: Priority<i64> = Priority::Now;
    assert!(now != now);
    assert!(now != a);
    assert_eq!(now.partial_cmp(&a), None);
    assert_eq!(a.partial_cmp(&now), None);
}

#[test]
fn priority_default_is_now() {
    let p: Priority<i64> = Priority::default();
    assert!(p.is_now());
}
