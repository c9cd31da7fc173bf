//! Properties of whole rounds of the schedulers: a call raising an exception
//! and the run loop handling it, a call waiting for all its children, and the
//! suspension points a call awaits.
use crate::queue::{
    lemma_task_branch_after_root, stop_branch_calls, task_destroy_outcome, task_in_branch,
    task_links_ok, task_with_children, thrown, FunctionState, Queue, QueueStep, Task,
};
use crate::heap::{ranks_before, Heap};
use crate::priority::Priority;
use crate::scheduler::{
    cancel_selected_calls, destroy_outcome, gone, lemma_alive_from, enqueued, in_branch, kill_branch_calls,
    lemma_in_branch_parents, links_ok, push_step, raised, select_cancelled, with_finished,
    with_select_count, AfterCall, Fault, PriorityQueue, PriorityTask,
};
use vstd::prelude::*;

verus! {

/// A join suspends exactly once: the first resume is not ready, the second is,
/// and the point is then done.
pub proof fn law_join_suspends_once(
    s0: FunctionState,
    s1: FunctionState,
    s2: FunctionState,
    r1: bool,
    r2: bool,
)
    requires
        s0 is Join,
        FunctionState::polled(s0, s1, r1),
        FunctionState::polled(s1, s2, r2),
    ensures
        !r1,
        r2,
        s2 is Done,
{
}

/// A raised exception never completes: its resume is not ready, and the point
/// then stands where a further resume is refused.
pub proof fn law_throwing_never_completes(s0: FunctionState, s1: FunctionState, r1: bool)
    requires
        s0 is Throwing,
        FunctionState::polled(s0, s1, r1),
    ensures
        !r1,
        s1 is Panic,
{
}

/// Branches of the first-in first-out scheduler are decided by the parent
/// links alone.
proof fn lemma_task_branch_parents<X>(a: Seq<Task<X>>, b: Seq<Task<X>>, root: int, u: int)
    requires
        a.len() == b.len(),
        forall|v: int| 0 <= v < a.len() ==> #[trigger] a[v].parent == b[v].parent,
    ensures
        task_in_branch(a, root, u) == task_in_branch(b, root, u),
    decreases u,
{
    if u != root && 0 <= u < a.len() {
        assert(a[u].parent == b[u].parent);
        if let Some(p) = a[u].parent {
            if p < u {
                lemma_task_branch_parents(a, b, root, p as int);
            }
        }
    }
}

/// Catching in the first-in first-out scheduler, over a whole round: when the
/// running call `f`, covered by catcher `c` whose parent `cp` has not
/// finished, raises `data`, and then reports back,
/// the round goes on; `c` holds `data`; every call in the branch of `c` is
/// passed by; `cp` waits for one child less, and is put at the back of the
/// queue when it then waits for none (the queue is untouched otherwise); the
/// uncaught exception of the run is untouched.
pub proof fn law_fifo_catch_round<X>(
    q0: Queue<X>,
    q1: Queue<X>,
    q2: Queue<X>,
    data: X,
    f: usize,
    c: usize,
    cp: usize,
    finished: bool,
    r: Result<QueueStep<X>, Fault>,
)
    requires
        q0.wf(),
        !q0.exception_raised(),
        q0.running() == Some(f),
        q0.calls()[f as int].catch == Some(c),
        q0.calls()[c as int].parent == Some(cp),
        q0.calls()[cp as int].children >= 1,
        !q0.calls()[cp as int].finished,
        thrown(q0, q1, data),
        Queue::ended(q1, q2, f, finished, r),
    ensures
        r == Ok::<QueueStep<X>, Fault>(QueueStep::Continue),
        q2.calls()[c as int].exception_store == Some(data),
        forall|u: int|
            0 <= u < q0.calls().len() && task_in_branch(q0.calls(), c as int, u) ==> #[trigger] q2.calls()[u].stopped,
        q2.calls()[cp as int].children == q0.calls()[cp as int].children - 1,
        q0.calls()[cp as int].children == 1 ==> q2.waiting() == q0.waiting().push(cp),
        q0.calls()[cp as int].children > 1 ==> q2.waiting() == q0.waiting(),
        q2.uncaught() == q0.uncaught(),
{
    q0.lemma_wf();
    let calls = q0.calls();
    assert(task_links_ok(calls, f as int));
    assert(task_links_ok(calls, c as int));
    let q1c = q1.calls();
    let t1 = q1c.update(f as int, crate::queue::task_finished(q1c[f as int], finished));
    assert(t1[f as int].catch == Some(c));
    assert forall|v: int| 0 <= v < calls.len() implies #[trigger] t1[v].parent == calls[v].parent by {}
    let t2 = stop_branch_calls(t1, c as int);
    if task_in_branch(t1, c as int, cp as int) {
        lemma_task_branch_after_root(t1, c as int, cp as int);
    }
    assert(t2[cp as int] == t1[cp as int]);
    assert(t1[cp as int] == calls[cp as int]);
    assert(t2[c as int].parent == Some(cp));
    let o = task_destroy_outcome(t2, c as int, false);
    assert(o.0 == t2.update(cp as int, task_with_children(t2[cp as int], (t2[cp as int].children - 1) as i32)));
    assert(o.2 is None);
    assert(o.0[c as int].parent == Some(cp));
    assert forall|u: int|
        0 <= u < calls.len() && task_in_branch(calls, c as int, u) implies #[trigger] q2.calls()[u].stopped by {
        lemma_task_branch_parents(calls, t1, c as int, u);
        if u == cp {
            lemma_task_branch_after_root(calls, c as int, u);
        }
    }
}

/// The children a call waits for in the first-in first-out scheduler,
/// retired one after another (each putting its parent back at the end of the
/// queue when it is the last): the calls after, and the calls queued.
pub open spec fn task_retire_each<X>(calls: Seq<Task<X>>, kids: Seq<usize>) -> (Seq<Task<X>>, Seq<usize>)
    decreases kids.len(),
{
    if kids.len() == 0 {
        (calls, Seq::empty())
    } else {
        let o = task_destroy_outcome(calls, kids[0] as int, true);
        let rest = task_retire_each(o.0, kids.drop_first());
        (
            rest.0,
            match o.1 {
                Some(p) => seq![p] + rest.1,
                None => rest.1,
            },
        )
    }
}

/// Joining in the first-in first-out scheduler: a call that has not finished
/// and waits for `n` children is put back on the queue exactly once, after
/// the last of the `n` children is retired, and no sooner.
pub proof fn law_fifo_join_resumes_after_all_children<X>(calls: Seq<Task<X>>, p: usize, kids: Seq<usize>)
    requires
        p < calls.len(),
        kids.len() >= 1,
        !calls[p as int].finished,
        calls[p as int].children == kids.len(),
        forall|i: int|
            0 <= i < kids.len() ==> p < #[trigger] kids[i] < calls.len() && calls[kids[i] as int].parent
                == Some(p),
    ensures
        task_retire_each(calls, kids).1 == seq![p],
        task_retire_each(calls, kids).0[p as int].children == 0,
    decreases kids.len(),
{
    let k = kids[0] as int;
    let o = task_destroy_outcome(calls, k, true);
    let pt2 = task_with_children(calls[p as int], (calls[p as int].children - 1) as i32);
    assert(o.0 == calls.update(p as int, pt2));
    if kids.len() == 1 {
        assert(o.1 == Some(p));
        assert(kids.drop_first().len() == 0);
        assert(task_retire_each(o.0, kids.drop_first()).1 =~= Seq::<usize>::empty());
        assert(seq![p] + Seq::<usize>::empty() =~= seq![p]);
    } else {
        assert(o.1 is None);
        let rest = kids.drop_first();
        assert forall|i: int| 0 <= i < rest.len() implies p < #[trigger] rest[i] < o.0.len()
            && o.0[rest[i] as int].parent == Some(p) by {
            assert(rest[i] == kids[i + 1]);
        }
        law_fifo_join_resumes_after_all_children(o.0, p, rest);
    }
}

/// Queuing a call by its priority: with `Now` it is the next call taken from
/// the queue; with a value it is queued by that value: at the back in
/// first-in first-out mode, otherwise among the ranked entries, where (with
/// nothing in front) the next call taken ranks no later than it: smallest
/// first, or largest first.
pub proof fn law_queued_by_priority<X>(
    calls: Seq<PriorityTask<X>>,
    q: Heap<usize>,
    id: usize,
    q2: Heap<usize>,
    r: Result<(), Fault>,
)
    requires
        q.wf(),
        q.size() < usize::MAX,
        id < calls.len(),
        calls[id as int].value is Now ==> q.serves_fifo() || q.now_slot().len() == 0,
        push_step(calls, q, id, q2, r),
    ensures
        r is Ok,
        calls[id as int].value is Now ==> forall|q3: Heap<usize>, e: Option<(i64, usize)>|
            #[trigger] Heap::popped(q2, q3, e) ==> (e matches Some(x) && x.1 == id),
        calls[id as int].value matches Priority::Value(k) ==> {
            &&& q.serves_fifo() ==> q2.fifo() == q.fifo().push((k, id))
            &&& !q.serves_fifo() ==> q2.ranked() == q.ranked().insert((k, id)) && q2.now_slot()
                == q.now_slot()
            &&& !q.serves_fifo() && q.now_slot().len() == 0 ==> forall|
                q3: Heap<usize>,
                e: Option<(i64, usize)>,
            | #[trigger] Heap::popped(q2, q3, e) ==> (e matches Some(x) && ranks_before(
                q.serves_max(),
                x.0,
                k,
            ))
        },
{
    q.lemma_wf_parts();
    if calls[id as int].value is Now {
        if q.serves_fifo() {
            assert((seq![(0i64, id)] + q.fifo())[0] == (0i64, id));
        }
    } else {
        let k = crate::scheduler::key_of(calls[id as int].value);
        if !q.serves_fifo() && q.now_slot().len() == 0 {
            assert forall|q3: Heap<usize>, e: Option<(i64, usize)>| #[trigger]
                Heap::popped(q2, q3, e) implies (e matches Some(x) && ranks_before(q.serves_max(), x.0, k)) by {
                assert(q2.ranked().contains((k, id)));
                assert(q2.ranked().len() > 0);
            }
        }
    }
}

/// Raising then resuming, over a whole round: when the running call `f`,
/// covered by caught call `c` (not a selected one) whose parent `cp` has not
/// finished, raises `data` with `priority`
/// (taken only when `change_priority` holds: "now" and "with", not
/// "whenever"), and then reports back, the round goes on; `c` holds `data` and
/// is retired; every call in the branch of `c` is cancelled; `cp` waits for
/// one child less; when it then waits for none it is queued by the priority it
/// then has (with `Now`, as the next call taken), and otherwise the call queue
/// is untouched; the uncaught exception of the run is untouched.
pub proof fn law_raise_then_resume<X>(
    q0: PriorityQueue<X>,
    q1: PriorityQueue<X>,
    q2: PriorityQueue<X>,
    data: X,
    priority: Priority<i64>,
    change_priority: bool,
    f: usize,
    c: usize,
    cp: usize,
    finished: bool,
    r: Result<AfterCall<X>, Fault>,
)
    requires
        q0.wf(),
        !q0.exception_raised(),
        q0.front_free(),
        q0.call_queue().size() < usize::MAX,
        q0.running() == Some(f),
        q0.calls()[f as int].catch == Some(c),
        !q0.calls()[c as int].is_select,
        q0.calls()[c as int].parent == Some(cp),
        q0.calls()[cp as int].children_count >= 1,
        !q0.calls()[cp as int].finished,
        raised(q0, q1, data, priority, change_priority),
        PriorityQueue::ended(q1, q2, f, finished, r),
    ensures
        ({
            let v = if change_priority {
                priority
            } else {
                q0.calls()[cp as int].value
            };
            let n = q0.calls()[cp as int].children_count;
            &&& r == Ok::<AfterCall<X>, Fault>(AfterCall::Continue)
            &&& q2.calls()[c as int].exception_store == Some(data)
            &&& q2.calls()[c as int].retired
            &&& forall|u: int|
                0 <= u < q0.calls().len() && in_branch(q0.calls(), c as int, u) ==> #[trigger] q2.calls()[u].killed
                    && q2.calls()[u].started
            &&& q2.calls()[cp as int].children_count == n - 1
            &&& q2.calls()[cp as int].value == v
            &&& n > 1 ==> q2.call_queue() == q0.call_queue()
            &&& n == 1 ==> enqueued(q0.call_queue(), q2.call_queue(), v, cp)
            &&& n == 1 && v is Now ==> forall|q3: Heap<usize>, e: Option<(i64, usize)>|
                #[trigger] Heap::popped(q2.call_queue(), q3, e) ==> (e matches Some(x) && x.1 == cp)
            &&& q2.uncaught() == q0.uncaught()
        }),
{
    q0.lemma_wf();
    q1.lemma_wf();
    let calls = q0.calls();
    assert(links_ok(calls, f as int));
    assert(links_ok(calls, c as int));
    let q1c = q1.calls();
    let t1 = q1c.update(f as int, with_finished(q1c[f as int], finished));
    PriorityQueue::<X>::lemma_links_kept(q1c, f as int, with_finished(q1c[f as int], finished));
    assert(t1[f as int].catch == Some(c));
    assert(t1[c as int].parent == Some(cp));
    assert(!t1[c as int].is_select);
    assert(t1[cp as int].children_count >= 1 && !t1[cp as int].finished);
    crate::laws::law_caught_exception_resumes_parent(t1, c as int);
    let o = destroy_outcome(kill_branch_calls(t1, c as int), c as int, false);
    assert(o.0[c as int].parent == Some(cp));
    assert forall|v: int| 0 <= v < calls.len() implies #[trigger] calls[v].parent == t1[v].parent by {}
    assert forall|u: int|
        0 <= u < calls.len() && in_branch(calls, c as int, u) implies #[trigger] q2.calls()[u].killed
            && q2.calls()[u].started by {
        lemma_in_branch_parents(calls, t1, c as int, u);
    }
    let v = if change_priority {
        priority
    } else {
        calls[cp as int].value
    };
    assert(t1[cp as int].value == v);
    if v is Now && calls[cp as int].children_count == 1 {
        assert forall|q3: Heap<usize>, e: Option<(i64, usize)>|
            #[trigger] Heap::popped(q2.call_queue(), q3, e) implies (e matches Some(x) && x.1 == cp) by {
            let q = q0.call_queue();
            if q.serves_fifo() {
                assert((seq![(0i64, cp)] + q.fifo())[0] == (0i64, cp));
            }
        }
    }
}

/// Select, over a whole round: when the running call `f`, covered by selected
/// call `c` of a parent `cp` that has not finished, raises `data` and then
/// reports back, the round goes on; `c` holds `data`; every call in the
/// branch of a selected child of `cp` is cancelled (it is passed by when taken
/// from the queue, and a selected call that had not finished reads as
/// interrupted), while whether each call finished is kept; `cp` waits for no
/// selected child, and when it waits for no other child either it is queued
/// by the priority it then has, else the queue is untouched; the uncaught
/// exception of the run is untouched.
pub proof fn law_select_round<X>(
    q0: PriorityQueue<X>,
    q1: PriorityQueue<X>,
    q2: PriorityQueue<X>,
    data: X,
    priority: Priority<i64>,
    change_priority: bool,
    f: usize,
    c: usize,
    cp: usize,
    finished: bool,
    r: Result<AfterCall<X>, Fault>,
)
    requires
        q0.wf(),
        !q0.exception_raised(),
        q0.front_free(),
        q0.call_queue().size() < usize::MAX,
        q0.running() == Some(f),
        q0.calls()[f as int].catch == Some(c),
        q0.calls()[c as int].is_select,
        q0.calls()[c as int].parent == Some(cp),
        !q0.calls()[cp as int].finished,
        raised(q0, q1, data, priority, change_priority),
        PriorityQueue::ended(q1, q2, f, finished, r),
    ensures
        ({
            let v = if change_priority {
                priority
            } else {
                q0.calls()[cp as int].value
            };
            &&& r == Ok::<AfterCall<X>, Fault>(AfterCall::Continue)
            &&& q2.calls().len() == q0.calls().len()
            &&& q2.calls()[c as int].exception_store == Some(data)
            &&& forall|u: int|
                0 <= u < q0.calls().len() && select_cancelled(q0.calls(), cp as int, u) ==> #[trigger] q2.calls()[u].killed
                    && q2.calls()[u].started
            &&& forall|u: int|
                0 <= u < q0.calls().len() ==> #[trigger] q2.calls()[u].finished == if u == f {
                    finished
                } else {
                    q0.calls()[u].finished
                }
            &&& q2.calls()[cp as int].select_count == 0
            &&& q2.calls()[cp as int].value == v
            &&& q0.calls()[cp as int].children_count == 0 ==> enqueued(q0.call_queue(), q2.call_queue(), v, cp)
            &&& q0.calls()[cp as int].children_count != 0 ==> q2.call_queue() == q0.call_queue()
            &&& q2.uncaught() == q0.uncaught()
        }),
{
    q0.lemma_wf();
    let calls = q0.calls();
    assert(links_ok(calls, f as int));
    assert(links_ok(calls, c as int));
    assert(links_ok(calls, cp as int));
    let q1c = q1.calls();
    let t1 = q1c.update(f as int, with_finished(q1c[f as int], finished));
    assert(t1[f as int].catch == Some(c));
    assert(t1[c as int].is_select);
    assert(t1[c as int].parent == Some(cp));
    let t2 = cancel_selected_calls(t1, cp as int);
    assert forall|w: int| 0 <= w < calls.len() implies #[trigger] calls[w].parent == t1[w].parent
        && calls[w].children@ == t1[w].children@ && calls[w].is_select == t1[w].is_select by {}
    assert forall|u: int| 0 <= u < calls.len() implies #[trigger] select_cancelled(calls, cp as int, u)
        == select_cancelled(t1, cp as int, u) by {
        if select_cancelled(calls, cp as int, u) {
            let j = choose|j: int|
                0 <= j < calls[cp as int].children@.len() && calls[calls[cp as int].children@[j] as int].is_select
                    && #[trigger] in_branch(calls, calls[cp as int].children@[j] as int, u);
            lemma_in_branch_parents(calls, t1, calls[cp as int].children@[j] as int, u);
            assert(in_branch(t1, t1[cp as int].children@[j] as int, u));
        }
        if select_cancelled(t1, cp as int, u) {
            let j = choose|j: int|
                0 <= j < t1[cp as int].children@.len() && t1[t1[cp as int].children@[j] as int].is_select
                    && #[trigger] in_branch(t1, t1[cp as int].children@[j] as int, u);
            lemma_in_branch_parents(calls, t1, t1[cp as int].children@[j] as int, u);
            assert(in_branch(calls, calls[cp as int].children@[j] as int, u));
        }
    }
    // the selected catcher lies in its own branch, and the parent in none
    assert(calls[cp as int].children@.contains(c));
    let jc = choose|j: int| 0 <= j < calls[cp as int].children@.len() && calls[cp as int].children@[j] == c;
    assert(in_branch(calls, c as int, c as int));
    assert(select_cancelled(calls, cp as int, c as int));
    if select_cancelled(t1, cp as int, cp as int) {
        let j = choose|j: int|
            0 <= j < t1[cp as int].children@.len() && t1[t1[cp as int].children@[j] as int].is_select
                && #[trigger] in_branch(t1, t1[cp as int].children@[j] as int, cp as int);
        crate::laws::law_branch_after_root(t1, t1[cp as int].children@[j] as int, cp as int);
        assert(cp < t1[cp as int].children@[j]);
    }
    assert(t2[cp as int] == t1[cp as int]);
    let t3 = t2.update(cp as int, with_select_count(t2[cp as int], 0));
    let v = if change_priority {
        priority
    } else {
        calls[cp as int].value
    };
    assert(t1[cp as int].value == v);
    assert(t3[cp as int].value == v);
    assert(t3[c as int].exception_store == Some(data));
}

/// A finishing call resumes its parent: when running call `t`, waiting for
/// nothing, finishes without an exception and reports back, it is retired and
/// its unfinished parent `p` waits for one child less, counted among the
/// selected children when `t` was selected and among the plain ones
/// otherwise. When `p` then waits for no plain and no selected child it is
/// queued again by its priority; otherwise the call queue is untouched.
pub proof fn law_finished_child_resumes_parent<X>(
    q1: PriorityQueue<X>,
    q2: PriorityQueue<X>,
    t: usize,
    p: usize,
    r: Result<AfterCall<X>, Fault>,
)
    requires
        q1.wf(),
        !q1.exception_raised(),
        q1.front_free(),
        q1.call_queue().size() < usize::MAX,
        t < q1.calls().len(),
        q1.calls()[t as int].children_count == 0,
        q1.calls()[t as int].select_count == 0,
        q1.calls()[t as int].parent == Some(p),
        !q1.calls()[p as int].finished,
        q1.calls()[p as int].children_count >= 0,
        q1.calls()[p as int].select_count >= 0,
        q1.calls()[t as int].is_select_head ==> q1.calls()[p as int].select_count >= 1,
        !q1.calls()[t as int].is_select_head ==> q1.calls()[p as int].children_count >= 1,
        PriorityQueue::ended(q1, q2, t, true, r),
    ensures
        ({
            let pt = q1.calls()[p as int];
            let cc = if q1.calls()[t as int].is_select_head {
                pt.children_count as int
            } else {
                pt.children_count - 1
            };
            let sc = if q1.calls()[t as int].is_select_head {
                pt.select_count - 1
            } else {
                pt.select_count as int
            };
            &&& r == Ok::<AfterCall<X>, Fault>(AfterCall::Continue)
            &&& q2.calls()[t as int].retired
            &&& q2.calls()[t as int].finished
            &&& q2.calls()[p as int].children_count == cc
            &&& q2.calls()[p as int].select_count == sc
            &&& q2.calls()[p as int].value == pt.value
            &&& cc == 0 && sc == 0 ==> enqueued(q1.call_queue(), q2.call_queue(), pt.value, p)
            &&& !(cc == 0 && sc == 0) ==> q2.call_queue() == q1.call_queue()
        }),
{
    q1.lemma_wf();
    assert(links_ok(q1.calls(), t as int));
    let q1c = q1.calls();
    let t1 = q1c.update(t as int, with_finished(q1c[t as int], true));
    assert(t1[p as int] == q1c[p as int]);
    let o = destroy_outcome(t1, t as int, true);
    let ts = t1.update(t as int, crate::scheduler::with_retired(t1[t as int]));
    assert(ts[t as int].parent == Some(p));
    assert(ts[p as int] == q1c[p as int]);
}

/// A finished call is retired in turn in the first-in first-out scheduler:
/// when running call `t`, waiting for nothing, finishes and reports back,
/// and its parent `p` has finished and waits for `t` alone, `p` is retired
/// too: the grandparent `g`, not finished, waits for one child less, and is
/// put at the back of the queue when it then waits for none (the queue is
/// untouched otherwise).
pub proof fn law_fifo_finished_parent_retires_in_turn<X>(
    q1: Queue<X>,
    q2: Queue<X>,
    t: usize,
    p: usize,
    g: usize,
    r: Result<QueueStep<X>, Fault>,
)
    requires
        q1.wf(),
        !q1.exception_raised(),
        t < q1.calls().len(),
        q1.calls()[t as int].children == 0,
        q1.calls()[t as int].parent == Some(p),
        q1.calls()[p as int].finished,
        q1.calls()[p as int].children == 1,
        q1.calls()[p as int].parent == Some(g),
        !q1.calls()[g as int].finished,
        q1.calls()[g as int].children >= 1,
        Queue::ended(q1, q2, t, true, r),
    ensures
        r == Ok::<QueueStep<X>, Fault>(QueueStep::Continue),
        q2.calls()[p as int].children == 0,
        q2.calls()[g as int].children == q1.calls()[g as int].children - 1,
        q1.calls()[g as int].children == 1 ==> q2.waiting() == q1.waiting().push(g),
        q1.calls()[g as int].children > 1 ==> q2.waiting() == q1.waiting(),
{
    q1.lemma_wf();
    let calls = q1.calls();
    assert(task_links_ok(calls, t as int));
    assert(task_links_ok(calls, p as int));
    let t1 = calls.update(t as int, crate::queue::task_finished(calls[t as int], true));
    assert(t1[p as int] == calls[p as int]);
    assert(t1[g as int] == calls[g as int]);
    let ts = t1.update(p as int, task_with_children(t1[p as int], 0));
    assert(task_destroy_outcome(t1, t as int, true) == task_destroy_outcome(ts, p as int, true));
    assert(ts[p as int].parent == Some(g));
    assert(ts[g as int] == calls[g as int]);
    let ts2 = ts.update(g as int, task_with_children(ts[g as int], (ts[g as int].children - 1) as i32));
    if calls[g as int].children == 1 {
        assert(task_destroy_outcome(ts, p as int, true) == (ts2, Some(g), Option::<Fault>::None));
    } else {
        assert(task_destroy_outcome(ts, p as int, true) == (ts2, Option::<usize>::None, Option::<Fault>::None));
    }
}

/// A finished call is retired in turn in the priority scheduler: when
/// running call `t`, waiting for nothing, finishes and reports back, and its
/// parent `p` (not a selected call) has finished and waits for `t` alone, `p`
/// is retired too: the grandparent `g`, not finished and waiting for no
/// selected child, waits for one plain child less, and is queued again by its
/// priority when it then waits for none (the queue is untouched otherwise).
pub proof fn law_finished_parent_retires_in_turn<X>(
    q1: PriorityQueue<X>,
    q2: PriorityQueue<X>,
    t: usize,
    p: usize,
    g: usize,
    r: Result<AfterCall<X>, Fault>,
)
    requires
        q1.wf(),
        !q1.exception_raised(),
        q1.front_free(),
        q1.call_queue().size() < usize::MAX,
        t < q1.calls().len(),
        q1.calls()[t as int].children_count == 0,
        q1.calls()[t as int].select_count == 0,
        !q1.calls()[t as int].is_select_head,
        q1.calls()[t as int].parent == Some(p),
        q1.calls()[p as int].finished,
        q1.calls()[p as int].children_count == 1,
        q1.calls()[p as int].select_count == 0,
        !q1.calls()[p as int].is_select_head,
        q1.calls()[p as int].parent == Some(g),
        !q1.calls()[g as int].finished,
        q1.calls()[g as int].children_count >= 1,
        q1.calls()[g as int].select_count == 0,
        PriorityQueue::ended(q1, q2, t, true, r),
    ensures
        r == Ok::<AfterCall<X>, Fault>(AfterCall::Continue),
        q2.calls()[t as int].retired,
        q2.calls()[p as int].retired,
        q2.calls()[p as int].children_count == 0,
        q2.calls()[g as int].children_count == q1.calls()[g as int].children_count - 1,
        q1.calls()[g as int].children_count == 1 ==> enqueued(
            q1.call_queue(),
            q2.call_queue(),
            q1.calls()[g as int].value,
            g,
        ),
        q1.calls()[g as int].children_count > 1 ==> q2.call_queue() == q1.call_queue(),
{
    q1.lemma_wf();
    let calls = q1.calls();
    assert(links_ok(calls, t as int));
    assert(links_ok(calls, p as int));
    let t1 = calls.update(t as int, with_finished(calls[t as int], true));
    assert(t1[p as int] == calls[p as int]);
    assert(t1[g as int] == calls[g as int]);
    let ta = t1.update(t as int, crate::scheduler::with_retired(t1[t as int]));
    let ts = ta.update(p as int, crate::scheduler::with_children_count(ta[p as int], 0));
    assert(destroy_outcome(t1, t as int, true) == destroy_outcome(ts, p as int, true));
    let tb = ts.update(p as int, crate::scheduler::with_retired(ts[p as int]));
    assert(tb[p as int].parent == Some(g));
    assert(tb[g as int] == calls[g as int]);
    let ts2 = tb.update(
        g as int,
        crate::scheduler::with_children_count(tb[g as int], (tb[g as int].children_count - 1) as i32),
    );
    if calls[g as int].children_count == 1 {
        assert(destroy_outcome(ts, p as int, true) == (ts2, Some(g), Option::<Fault>::None));
    } else {
        assert(destroy_outcome(ts, p as int, true) == (ts2, Option::<usize>::None, Option::<Fault>::None));
    }
}

/// Which calls a handle can still reach. A call that is running, has an entry
/// in the call queue, or is its own catcher can be reached; so can the parent
/// or the catcher of a later call that can be reached. A call that is none of
/// these, and that no later reachable call names as parent or catcher, cannot.
pub proof fn law_reachable_calls<X>(
    calls: Seq<PriorityTask<X>>,
    q: Heap<usize>,
    running: Option<usize>,
    id: int,
)
    requires
        0 <= id < calls.len(),
    ensures
        running == Some(id as usize) ==> !gone(calls, q, running, id),
        (exists|k: int| 0 <= k < q.held_entries().len() && q.held_entries()[k].1 == id as usize)
            ==> !gone(calls, q, running, id),
        calls[id].catch == Some(id as usize) ==> !gone(calls, q, running, id),
        forall|v: int|
            id < v < calls.len() && !gone(calls, q, running, v) && (calls[v].parent == Some(
                id as usize,
            ) || calls[v].catch == Some(id as usize)) ==> !#[trigger] gone(calls, q, running, id),
        running != Some(id as usize) && !(exists|k: int|
            0 <= k < q.held_entries().len() && q.held_entries()[k].1 == id as usize) && calls[id].catch
            != Some(id as usize) && (forall|v: int|
            id < v < calls.len() && (calls[v].parent == Some(id as usize) || calls[v].catch == Some(
                id as usize,
            )) ==> #[trigger] gone(calls, q, running, v)) ==> gone(calls, q, running, id),
{
    assert forall|v: int|
        id < v < calls.len() && !gone(calls, q, running, v) && (calls[v].parent == Some(id as usize)
            || calls[v].catch == Some(id as usize)) implies !#[trigger] gone(calls, q, running, id) by {
        lemma_alive_from(calls, q, running, id + 1, v);
        assert(crate::scheduler::alive_from(calls, q, running, id + 1).contains(v));
    }
    let later = crate::scheduler::alive_from(calls, q, running, id + 1);
    if running != Some(id as usize) && !(exists|k: int|
        0 <= k < q.held_entries().len() && q.held_entries()[k].1 == id as usize) && calls[id].catch
        != Some(id as usize) && (forall|v: int|
        id < v < calls.len() && (calls[v].parent == Some(id as usize) || calls[v].catch == Some(
            id as usize,
        )) ==> #[trigger] gone(calls, q, running, v)) {
        assert forall|v: int| #[trigger] later.contains(v) implies !crate::scheduler::refers_to(calls, v, id) by {
            lemma_alive_from(calls, q, running, id + 1, v);
            if crate::scheduler::refers_to(calls, v, id) {
                assert(gone(calls, q, running, v));
            }
        }
        lemma_alive_from(calls, q, running, id + 1, id);
    }
}

} // verus!
