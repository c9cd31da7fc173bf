//! The bookkeeping of the priority scheduler: the calls it knows of, the call
//! queue, and the decisions of its run loop. Running a call (polling its
//! future) is the caller's part: it pops a call, lets the scheduler decide
//! whether to run it, runs it, and reports back.
use crate::heap::Heap;
use crate::priority::{ContractError, Priority, PriorityStyle};
use vstd::prelude::*;

verus! {

broadcast use {vstd::multiset::group_multiset_axioms, vstd::multiset::group_multiset_properties};

/// A state the run loop cannot go on from; each is a point where the loop
/// stops with a panic.
pub enum Fault {
    /// A call taken from the queue still waits for children.
    ChildrenPending,
    /// A call's count of waiting children went below zero.
    IllegalChildren,
    /// A call taken from the queue is raising an exception.
    ThrowingCall,
    /// A count of children left the range of `i32`.
    CountOverflow,
    /// The call queue cannot hold another entry.
    QueueFull,
    /// A cancelled call was taken from the first-in first-out queue.
    Cancelled,
}

/// What the scheduler knows of one call.
pub struct PriorityTask<X> {
    /// The call's priority; it orders the call when it is queued.
    pub value: Priority<i64>,
    /// The call that started the run.
    pub is_head: bool,
    /// Children added or caught by this call that have not finished.
    pub children_count: i32,
    /// The call that made this one.
    pub parent: Option<usize>,
    /// The caught or selected call whose exception handler covers this call.
    pub catch: Option<usize>,
    /// An exception caught for this call.
    pub exception_store: Option<X>,
    /// An exception was raised under this catcher.
    pub is_throwing: bool,
    /// The call's future has completed.
    pub finished: bool,
    /// Made by a select.
    pub is_select: bool,
    /// Made by a select (it counts among its parent's selected calls).
    pub is_select_head: bool,
    /// The calls made by this call, in order.
    pub children: Vec<usize>,
    /// Selected children that have not finished.
    pub select_count: i32,
    /// Cancelled by an exception in a sibling branch.
    pub killed: bool,
    /// The call has been started (or cancelled).
    pub started: bool,
    /// The call has been retired: it finished with no child left waiting,
    /// or it was passed by without running.
    pub retired: bool,
}

/// Call `task`, marked retired.
pub open spec fn with_retired<X>(task: PriorityTask<X>) -> PriorityTask<X> {
    PriorityTask { retired: true, ..task }
}

/// Call `id` has an entry in call queue `q`.
pub open spec fn queued_in(q: Heap<usize>, id: usize) -> bool {
    exists|k: int| 0 <= k < q.held_entries().len() && #[trigger] q.held_entries()[k].1 == id
}

/// Call `v` keeps call `u` alive: `u` is its parent or its catcher.
pub open spec fn refers_to<X>(calls: Seq<PriorityTask<X>>, v: int, u: int) -> bool {
    &&& u < v
    &&& calls[v].parent == Some(u as usize) || calls[v].catch == Some(u as usize)
}

/// Call `u` is kept alive by itself: it is running, queued, or its own catcher.
pub open spec fn held_by_itself<X>(
    calls: Seq<PriorityTask<X>>,
    q: Heap<usize>,
    running: Option<usize>,
    u: int,
) -> bool {
    ||| running == Some(u as usize)
    ||| queued_in(q, u as usize)
    ||| calls[u].catch == Some(u as usize)
}

/// The calls numbered `k` or more that are still alive: those kept alive by
/// themselves, and the parent or catcher of a later call that is alive.
pub open spec fn alive_from<X>(
    calls: Seq<PriorityTask<X>>,
    q: Heap<usize>,
    running: Option<usize>,
    k: int,
) -> Set<int>
    decreases calls.len() - k,
{
    if !(0 <= k < calls.len()) {
        Set::empty()
    } else {
        let later = alive_from(calls, q, running, k + 1);
        if held_by_itself(calls, q, running, k) || exists|v: int|
            #[trigger] later.contains(v) && refers_to(calls, v, k) {
            later.insert(k)
        } else {
            later
        }
    }
}

/// Call `id` can no longer be reached through a handle: nothing alive keeps
/// it alive (see `alive_from`).
pub open spec fn gone<X>(
    calls: Seq<PriorityTask<X>>,
    q: Heap<usize>,
    running: Option<usize>,
    id: int,
) -> bool {
    !alive_from(calls, q, running, id).contains(id)
}

/// The calls alive from `k` on lie in `k..calls.len()`, and each is alive
/// exactly when it is counted alive from its own number.
pub(crate) proof fn lemma_alive_from<X>(
    calls: Seq<PriorityTask<X>>,
    q: Heap<usize>,
    running: Option<usize>,
    k: int,
    v: int,
)
    requires
        0 <= k,
    ensures
        alive_from(calls, q, running, k).contains(v) ==> k <= v < calls.len(),
        k <= v ==> (alive_from(calls, q, running, k).contains(v) == alive_from(
            calls,
            q,
            running,
            v,
        ).contains(v)),
    decreases calls.len() - k,
{
    if 0 <= k < calls.len() {
        lemma_alive_from(calls, q, running, k + 1, v);
    }
}

/// The key under which a priority is queued (`Now` goes in front, its key is
/// not looked at).
pub open spec fn key_of(v: Priority<i64>) -> i64 {
    match v {
        Priority::Value(k) => k,
        Priority::Now => 0,
    }
}

/// `new` is the call queue `old` once call `id` with priority `v` is queued:
/// in front for `Now`, by key otherwise.
pub open spec fn enqueued(old: Heap<usize>, new: Heap<usize>, v: Priority<i64>, id: usize) -> bool {
    if v is Now {
        Heap::pushed_front(old, new, (0, id))
    } else {
        Heap::pushed_back(old, new, (key_of(v), id))
    }
}

/// The links of call `t` point at calls that exist, parents come before their
/// children, and a catcher has a parent.
pub open spec fn links_ok<X>(tasks: Seq<PriorityTask<X>>, t: int) -> bool {
    let task = tasks[t];
    &&& task.parent matches Some(p) ==> p < t && tasks[p as int].children@.contains(t as usize)
    &&& task.catch matches Some(c) ==> c <= t && tasks[c as int].parent is Some
    &&& task.is_select ==> task.catch == Some(t as usize)
    &&& task.is_select_head == task.is_select
    &&& forall|k: int|
        0 <= k < task.children@.len() ==> t < #[trigger] task.children@[k] < tasks.len()
            && tasks[task.children@[k] as int].parent == Some(t as usize)
}

/// Call `task` with a new count of waiting children.
pub open spec fn with_children_count<X>(task: PriorityTask<X>, n: i32) -> PriorityTask<X> {
    PriorityTask { children_count: n, ..task }
}

/// Call `task` with a new count of selected children.
pub open spec fn with_select_count<X>(task: PriorityTask<X>, n: i32) -> PriorityTask<X> {
    PriorityTask { select_count: n, ..task }
}

/// What retiring call `t` does to the calls: `t` is marked retired; its
/// parent has one child less
/// waiting (a selected child counts among the selected ones); a finished
/// parent with no child left is retired in turn; an unfinished one with no
/// child left is queued again when `readd` holds. The result is the calls
/// after, the call queued (if any) and the fault met (if any).
pub open spec fn destroy_outcome<X>(tasks: Seq<PriorityTask<X>>, t: int, readd: bool) -> (
    Seq<PriorityTask<X>>,
    Option<usize>,
    Option<Fault>,
)
    decreases t,
{
    if !(0 <= t < tasks.len()) {
        (tasks, None, None)
    } else {
        let tasks = tasks.update(t, with_retired(tasks[t]));
        match tasks[t].parent {
            None => (tasks, None, None),
            Some(p) => {
                if !(p < t) {
                    (tasks, None, None)
                } else {
                    let pt = tasks[p as int];
                    if tasks[t].is_select_head && pt.select_count == i32::MIN {
                        (tasks, None, Some(Fault::CountOverflow))
                    } else if !tasks[t].is_select_head && pt.children_count == i32::MIN {
                        (tasks, None, Some(Fault::CountOverflow))
                    } else {
                        let pt2 = if tasks[t].is_select_head {
                            with_select_count(pt, (pt.select_count - 1) as i32)
                        } else {
                            with_children_count(pt, (pt.children_count - 1) as i32)
                        };
                        let ts = tasks.update(p as int, pt2);
                        if pt2.children_count < 0 {
                            (ts, None, Some(Fault::IllegalChildren))
                        } else if pt2.finished && pt2.children_count == 0 {
                            destroy_outcome(ts, p as int, readd)
                        } else if pt2.children_count == 0 && readd && pt2.select_count == 0 {
                            (ts, Some(p), None)
                        } else {
                            (ts, None, None)
                        }
                    }
                }
            },
        }
    }
}

/// Call `u` lies in the branch rooted at call `root`: it is `root`, or its
/// parent lies in that branch.
pub open spec fn in_branch<X>(tasks: Seq<PriorityTask<X>>, root: int, u: int) -> bool
    decreases u,
{
    if u == root {
        true
    } else if !(0 <= u < tasks.len()) {
        false
    } else {
        match tasks[u].parent {
            Some(p) => if p < u {
                in_branch(tasks, root, p as int)
            } else {
                false
            },
            None => false,
        }
    }
}

/// Call `task`, cancelled.
pub open spec fn killed_task<X>(task: PriorityTask<X>) -> PriorityTask<X> {
    PriorityTask { killed: true, started: true, ..task }
}

/// Branches are decided by the parent links alone.
pub(crate) proof fn lemma_in_branch_parents<X>(a: Seq<PriorityTask<X>>, b: Seq<PriorityTask<X>>, root: int, u: int)
    requires
        a.len() == b.len(),
        forall|v: int| 0 <= v < a.len() ==> #[trigger] a[v].parent == b[v].parent,
    ensures
        in_branch(a, root, u) == in_branch(b, root, u),
    decreases u,
{
    if u != root && 0 <= u < a.len() {
        assert(a[u].parent == b[u].parent);
        if let Some(p) = a[u].parent {
            if p < u {
                lemma_in_branch_parents(a, b, root, p as int);
            }
        }
    }
}

/// A call lies in the branch of `root` exactly when it is `root` or lies in the
/// branch of one of the children of `root`.
proof fn lemma_branch_by_children<X>(tasks: Seq<PriorityTask<X>>, root: int, u: int)
    requires
        0 <= root < tasks.len(),
        tasks.len() <= usize::MAX,
        forall|t: int| 0 <= t < tasks.len() ==> links_ok(tasks, t),
    ensures
        in_branch(tasks, root, u) <==> (u == root || exists|j: int|
            0 <= j < tasks[root].children@.len() && #[trigger] in_branch(
                tasks,
                tasks[root].children@[j] as int,
                u,
            )),
    decreases u,
{
    let ch = tasks[root].children@;
    if u != root && 0 <= u < tasks.len() {
        assert(links_ok(tasks, u));
        if let Some(p) = tasks[u].parent {
            if p as int == root {
                assert(ch.contains(u as usize));
                let j = choose|j: int| 0 <= j < ch.len() && ch[j] == u as usize;
                assert(ch[j] as int == u);
                assert(in_branch(tasks, u, u));
                assert(in_branch(tasks, ch[j] as int, u));
            } else {
                lemma_branch_by_children(tasks, root, p as int);
                if in_branch(tasks, root, u) {
                    let j = choose|j: int|
                        0 <= j < ch.len() && #[trigger] in_branch(tasks, ch[j] as int, p as int);
                    assert(in_branch(tasks, ch[j] as int, u));
                }
            }
        }
        if exists|j: int| 0 <= j < ch.len() && #[trigger] in_branch(tasks, ch[j] as int, u) {
            let j = choose|j: int| 0 <= j < ch.len() && #[trigger] in_branch(tasks, ch[j] as int, u);
            assert(links_ok(tasks, root));
            lemma_branch_of_child(tasks, root, ch[j] as int, u);
        }
    } else if u != root {
        if exists|j: int| 0 <= j < ch.len() && #[trigger] in_branch(tasks, ch[j] as int, u) {
            let j = choose|j: int| 0 <= j < ch.len() && #[trigger] in_branch(tasks, ch[j] as int, u);
            assert(links_ok(tasks, root));
            lemma_branch_of_child(tasks, root, ch[j] as int, u);
        }
    }
}

/// The branch of a child lies within the branch of its parent.
proof fn lemma_branch_of_child<X>(tasks: Seq<PriorityTask<X>>, root: int, c: int, u: int)
    requires
        0 <= root < c < tasks.len(),
        tasks.len() <= usize::MAX,
        tasks[c].parent == Some(root as usize),
        in_branch(tasks, c, u),
    ensures
        in_branch(tasks, root, u),
    decreases u,
{
    assert(in_branch(tasks, root, root));
    if u == c {
        assert(in_branch(tasks, root, c));
    } else if u != root {
        let p = tasks[u].parent.unwrap();
        assert(p < u && in_branch(tasks, c, p as int));
        lemma_branch_of_child(tasks, root, c, p as int);
        assert(in_branch(tasks, root, u));
    }
}

/// Queuing call `id` of `calls` turns call queue `q` into `q2`, with result `r`.
pub open spec fn push_step<X>(
    calls: Seq<PriorityTask<X>>,
    q: Heap<usize>,
    id: usize,
    q2: Heap<usize>,
    r: Result<(), Fault>,
) -> bool {
    &&& q.size() >= usize::MAX ==> r == Err::<(), Fault>(Fault::QueueFull)
    &&& q.size() < usize::MAX ==> r is Ok && enqueued(q, q2, calls[id as int].value, id)
}

/// Retiring call `t` (see `destroy_outcome`) turns calls `calls` and call queue
/// `q` into `calls2` and `q2`, with result `r`.
pub open spec fn destroy_step<X>(
    calls: Seq<PriorityTask<X>>,
    q: Heap<usize>,
    t: usize,
    readd: bool,
    calls2: Seq<PriorityTask<X>>,
    q2: Heap<usize>,
    r: Result<(), Fault>,
) -> bool {
    let o = destroy_outcome(calls, t as int, readd);
    &&& o.2 matches Some(f) ==> r == Err::<(), Fault>(f)
    &&& o.2 is None ==> calls2 == o.0
    &&& o.2 is None ==> (o.1 is None ==> r is Ok && q2 == q)
    &&& o.2 is None ==> (o.1 matches Some(p) ==> push_step(o.0, q, p, q2, r))
}

/// Resuming catcher parent `cp` once an exception reached it: a finished one
/// is retired, one with no child left waiting is queued again.
pub open spec fn resume_step<X>(
    calls: Seq<PriorityTask<X>>,
    q: Heap<usize>,
    cp: usize,
    calls2: Seq<PriorityTask<X>>,
    q2: Heap<usize>,
    r: Result<(), Fault>,
) -> bool {
    if calls[cp as int].finished {
        destroy_step(calls, q, cp, true, calls2, q2, r)
    } else if calls[cp as int].children_count == 0 {
        calls2 == calls && push_step(calls, q, cp, q2, r)
    } else {
        calls2 == calls && q2 == q && r is Ok
    }
}

/// Retiring keeps the number of calls and the links of every call.
pub(crate) proof fn lemma_destroy_keeps_links<X>(tasks: Seq<PriorityTask<X>>, t: int, readd: bool)
    ensures
        destroy_outcome(tasks, t, readd).0.len() == tasks.len(),
        forall|u: int|
            0 <= u < tasks.len() ==> (#[trigger] destroy_outcome(tasks, t, readd).0[u]).parent
                == tasks[u].parent && destroy_outcome(tasks, t, readd).0[u].catch == tasks[u].catch,
    decreases t,
{
    if 0 <= t < tasks.len() {
        let tasks = tasks.update(t, with_retired(tasks[t]));
        if let Some(p) = tasks[t].parent {
            if p < t {
                let pt = tasks[p as int];
                if !(tasks[t].is_select_head && pt.select_count == i32::MIN) && !(
                !tasks[t].is_select_head && pt.children_count == i32::MIN) {
                    let pt2 = if tasks[t].is_select_head {
                        with_select_count(pt, (pt.select_count - 1) as i32)
                    } else {
                        with_children_count(pt, (pt.children_count - 1) as i32)
                    };
                    lemma_destroy_keeps_links(tasks.update(p as int, pt2), p as int, readd);
                }
            }
        }
    }
}

/// Retiring without queuing again never queues a call.
proof fn lemma_destroy_no_readd<X>(tasks: Seq<PriorityTask<X>>, t: int)
    ensures
        destroy_outcome(tasks, t, false).1 is None,
    decreases t,
{
    if 0 <= t < tasks.len() {
        let tasks = tasks.update(t, with_retired(tasks[t]));
        if let Some(p) = tasks[t].parent {
            if p < t {
                let pt = tasks[p as int];
                if !(tasks[t].is_select_head && pt.select_count == i32::MIN) && !(
                !tasks[t].is_select_head && pt.children_count == i32::MIN) {
                    let pt2 = if tasks[t].is_select_head {
                        with_select_count(pt, (pt.select_count - 1) as i32)
                    } else {
                        with_children_count(pt, (pt.children_count - 1) as i32)
                    };
                    lemma_destroy_no_readd(tasks.update(p as int, pt2), p as int);
                }
            }
        }
    }
}

/// The calls once every call in the branch rooted at `root` is cancelled.
pub open spec fn kill_branch_calls<X>(calls: Seq<PriorityTask<X>>, root: int) -> Seq<
    PriorityTask<X>,
> {
    Seq::new(
        calls.len(),
        |u: int|
            if in_branch(calls, root, u) {
                killed_task(calls[u])
            } else {
                calls[u]
            },
    )
}

/// Call `task`, marked started.
pub open spec fn with_started<X>(task: PriorityTask<X>) -> PriorityTask<X> {
    PriorityTask { started: true, ..task }
}

/// Call `task`, with its future completed or not.
pub open spec fn with_finished<X>(task: PriorityTask<X>, finished: bool) -> PriorityTask<X> {
    PriorityTask { finished, ..task }
}

/// Call `id` is covered by a catcher under which an exception was raised.
pub open spec fn caught_elsewhere<X>(calls: Seq<PriorityTask<X>>, id: int) -> bool {
    calls[id].catch matches Some(c) && calls[c as int].is_throwing
}

/// Call `u` lies in the branch of a selected child of call `cp`.
pub open spec fn select_cancelled<X>(calls: Seq<PriorityTask<X>>, cp: int, u: int) -> bool {
    exists|j: int|
        0 <= j < calls[cp].children@.len() && calls[calls[cp].children@[j] as int].is_select
            && #[trigger] in_branch(calls, calls[cp].children@[j] as int, u)
}

/// The calls once every branch of a selected child of `cp` is cancelled.
pub open spec fn cancel_selected_calls<X>(calls: Seq<PriorityTask<X>>, cp: int) -> Seq<
    PriorityTask<X>,
> {
    Seq::new(
        calls.len(),
        |u: int|
            if select_cancelled(calls, cp, u) {
                killed_task(calls[u])
            } else {
                calls[u]
            },
    )
}

/// The error of a result, the value dropped.
pub open spec fn unit_of<T>(r: Result<T, Fault>) -> Result<(), Fault> {
    match r {
        Ok(_) => Ok(()),
        Err(f) => Err(f),
    }
}

/// Call `t` is a new call: priority `value`, made by `parent`, covered by
/// `catch`, selected or not, with nothing done yet.
pub open spec fn is_new_call<X>(
    t: PriorityTask<X>,
    value: Priority<i64>,
    is_head: bool,
    parent: Option<usize>,
    catch: Option<usize>,
    is_select: bool,
) -> bool {
    &&& t.value == value
    &&& t.is_head == is_head
    &&& t.children_count == 0
    &&& t.parent == parent
    &&& t.catch == catch
    &&& t.exception_store is None
    &&& !t.is_throwing
    &&& !t.finished
    &&& t.is_select == is_select
    &&& t.is_select_head == is_select
    &&& t.children@.len() == 0
    &&& t.select_count == 0
    &&& !t.killed
    &&& !t.started
    &&& !t.retired
}

/// Calls `a` and `b` agree but for their counts and lists of children.
pub open spec fn same_but_children<X>(a: PriorityTask<X>, b: PriorityTask<X>) -> bool {
    &&& a.value == b.value
    &&& a.is_head == b.is_head
    &&& a.parent == b.parent
    &&& a.catch == b.catch
    &&& a.exception_store == b.exception_store
    &&& a.is_throwing == b.is_throwing
    &&& a.finished == b.finished
    &&& a.is_select == b.is_select
    &&& a.is_select_head == b.is_select_head
    &&& a.killed == b.killed
    &&& a.started == b.started
    &&& a.retired == b.retired
}

/// `new` is `old` with one more call at the end, made by `parent` (which lists
/// it as its last child, its other fields but its counts unchanged), with
/// priority `value`, covered by `catch`; no other call changes.
pub open spec fn call_added<X>(
    old: Seq<PriorityTask<X>>,
    new: Seq<PriorityTask<X>>,
    value: Priority<i64>,
    is_head: bool,
    parent: Option<usize>,
    catch: Option<usize>,
    is_select: bool,
) -> bool {
    let n = old.len() as int;
    &&& new.len() == n + 1
    &&& is_new_call(new[n], value, is_head, parent, catch, is_select)
    &&& forall|u: int|
        0 <= u < n && parent != Some(u as usize) ==> #[trigger] new[u] == old[u]
    &&& parent matches Some(p) ==> {
        &&& same_but_children(new[p as int], old[p as int])
        &&& new[p as int].children@ == old[p as int].children@.push(n as usize)
    }
}

/// Call `task` with priority `value`.
pub open spec fn with_value<X>(task: PriorityTask<X>, value: Priority<i64>) -> PriorityTask<X> {
    PriorityTask { value, ..task }
}

/// Catcher `task` once exception `data` was raised under it.
pub open spec fn with_exception<X>(task: PriorityTask<X>, data: X) -> PriorityTask<X> {
    PriorityTask { exception_store: Some(data), is_throwing: true, ..task }
}

/// Call `task` with its caught exception taken out.
pub open spec fn without_exception<X>(task: PriorityTask<X>) -> PriorityTask<X> {
    PriorityTask { exception_store: None, ..task }
}

/// What to do with a call taken from the queue.
pub enum Begin {
    /// Nothing: it was cancelled, or an exception passed it by.
    Skip,
    /// Run it.
    Poll,
}

/// How the run goes on after a call ran.
pub enum AfterCall<X> {
    /// Take the next call from the queue.
    Continue,
    /// The run is over: an exception was raised that no catcher covers.
    Stop(Option<X>),
}

/// A handle on one call, through which its priority can be read and changed.
pub struct Contract {
    priority_task: usize,
}

impl Contract {
    /// The call this handle is on.
    pub closed spec fn call(&self) -> usize {
        self.priority_task
    }

    /// The call can no longer be reached (see `gone`): the calls from the
    /// last one down to this one are marked alive when they keep themselves
    /// alive or a marked later call refers to them.
    fn is_gone<X>(&self, queue: &PriorityQueue<X>) -> (g: bool)
        requires
            self.call() < queue.calls().len(),
        ensures
            g == gone(queue.calls(), queue.call_queue(), queue.running(), self.call() as int),
    {
        let ghost calls = queue.calls();
        let ghost q = queue.call_queue();
        let ghost running = queue.running();
        let id = self.priority_task;
        let n = queue.tasks.len();
        let mut marks: Vec<bool> = Vec::new();
        while marks.len() < n
            invariant
                marks@.len() <= n,
                forall|j: int| 0 <= j < marks@.len() ==> !#[trigger] marks@[j],
            decreases n - marks@.len(),
        {
            marks.push(false);
        }
        let entries = queue.queue.entries();
        let mut i: usize = 0;
        while i < entries.len()
            invariant
                n == calls.len(),
                entries@ == q.held_entries(),
                i <= entries@.len(),
                marks@.len() == n,
                forall|j: int|
                    0 <= j < n ==> #[trigger] marks@[j] == exists|k: int|
                        0 <= k < i && entries@[k].1 == j,
            decreases entries@.len() - i,
        {
            let x = entries[i].1;
            if x < n {
                marks.set(x, true);
            }
            proof {
                assert forall|j: int| 0 <= j < n implies #[trigger] marks@[j] == exists|k: int|
                    0 <= k < i + 1 && entries@[k].1 == j by {
                    if entries@[i as int].1 == j {
                        assert(0 <= i < i + 1 && entries@[i as int].1 == j);
                    }
                }
            }
            i = i + 1;
        }
        if let Some(c) = queue.current {
            if c < n {
                marks.set(c, true);
            }
        }
        proof {
            assert forall|j: int| 0 <= j < n implies #[trigger] marks@[j] == (running == Some(
                j as usize,
            ) || queued_in(q, j as usize)) by {
                if queued_in(q, j as usize) {
                    let k = choose|k: int|
                        0 <= k < q.held_entries().len() && #[trigger] q.held_entries()[k].1 == j
                            as usize;
                    assert(0 <= k < entries@.len() && entries@[k].1 == j);
                }
            }
        }
        let mut k: usize = n;
        while k > id
            invariant
                n == calls.len(),
                calls == queue.calls(),
                id <= k <= n,
                marks@.len() == n,
                forall|v: int|
                    k <= v < n ==> #[trigger] marks@[v] == alive_from(calls, q, running, k as int).contains(
                        v,
                    ),
                forall|j: int|
                    0 <= j < k ==> #[trigger] marks@[j] == (running == Some(j as usize) || queued_in(
                        q,
                        j as usize,
                    ) || exists|v: int|
                        k <= v < n && alive_from(calls, q, running, k as int).contains(v) && refers_to(
                            calls,
                            v,
                            j,
                        )),
            decreases k,
        {
            k = k - 1;
            let t = queue.task(k);
            if t.catch == Some(k) {
                marks.set(k, true);
            }
            let ghost later = alive_from(calls, q, running, k + 1);
            proof {
                assert forall|v: int| #[trigger] later.contains(v) implies k + 1 <= v < n by {
                    lemma_alive_from(calls, q, running, k + 1, v);
                }
                assert(marks@[k as int] == alive_from(calls, q, running, k as int).contains(k as int));
            }
            if marks[k] {
                if let Some(p) = t.parent {
                    if p < k {
                        marks.set(p, true);
                    }
                }
                if let Some(c) = t.catch {
                    if c < k {
                        marks.set(c, true);
                    }
                }
            }
            proof {
                let now = alive_from(calls, q, running, k as int);
                assert forall|v: int| k <= v < n implies #[trigger] marks@[v] == now.contains(v) by {
                    if v > k {
                        lemma_alive_from(calls, q, running, k as int, v);
                        lemma_alive_from(calls, q, running, k + 1, v);
                    }
                }
                assert forall|j: int| 0 <= j < k implies #[trigger] marks@[j] == (running == Some(
                    j as usize,
                ) || queued_in(q, j as usize) || exists|v: int|
                    k <= v < n && now.contains(v) && refers_to(calls, v, j)) by {
                    if exists|v: int| k <= v < n && now.contains(v) && refers_to(calls, v, j) {
                        let v = choose|v: int| k <= v < n && now.contains(v) && refers_to(calls, v, j);
                        if v > k {
                            lemma_alive_from(calls, q, running, k as int, v);
                            lemma_alive_from(calls, q, running, k + 1, v);
                            assert(k + 1 <= v < n && later.contains(v) && refers_to(calls, v, j));
                        }
                    }
                    if exists|v: int| k + 1 <= v < n && later.contains(v) && refers_to(calls, v, j) {
                        let v = choose|v: int| k + 1 <= v < n && later.contains(v) && refers_to(calls, v, j);
                        lemma_alive_from(calls, q, running, k as int, v);
                        lemma_alive_from(calls, q, running, k + 1, v);
                        assert(k <= v < n && now.contains(v) && refers_to(calls, v, j));
                    }
                }
            }
        }
        !marks[id]
    }

    /// Sets the call's priority; a call that is gone or has finished can no
    /// longer be changed.
    pub fn set_priority<X>(&self, queue: &mut PriorityQueue<X>, priority: Priority<i64>) -> (r:
        Result<(), ContractError>)
        requires
            old(queue).wf(),
            self.call() < old(queue).calls().len(),
        ensures
            final(queue).wf(),
            ({
                let refused = gone(old(queue).calls(), old(queue).call_queue(), old(queue).running(), self.call() as int)
                    || old(queue).calls()[self.call() as int].finished;
                &&& refused ==> r == Err::<(), ContractError>(ContractError::FinishedFunction)
                    && final(queue).calls() == old(queue).calls()
                &&& !refused ==> r is Ok && final(queue).calls() == old(queue).calls().update(
                    self.call() as int,
                    with_value(old(queue).calls()[self.call() as int], priority),
                )
            }),
            final(queue).call_queue() == old(queue).call_queue(),
            final(queue).running() == old(queue).running(),
            final(queue).exception_raised() == old(queue).exception_raised(),
            final(queue).uncaught() == old(queue).uncaught(),
    {
        if self.is_gone(queue) {
            return Err(ContractError::FinishedFunction);
        }
        if queue.task(self.priority_task).finished {
            return Err(ContractError::FinishedFunction);
        }
        queue.replace_task_value(self.priority_task, priority);
        Ok(())
    }

    /// The call's priority, unless the call is gone.
    pub fn get_priority<X>(&self, queue: &PriorityQueue<X>) -> (r: Result<Priority<i64>, ContractError>)
        requires
            self.call() < queue.calls().len(),
        ensures
            r == if gone(queue.calls(), queue.call_queue(), queue.running(), self.call() as int) {
                Err::<Priority<i64>, ContractError>(ContractError::FinishedFunction)
            } else {
                Ok::<Priority<i64>, ContractError>(queue.calls()[self.call() as int].value)
            },
    {
        if self.is_gone(queue) {
            return Err(ContractError::FinishedFunction);
        }
        Ok(queue.task(self.priority_task).value)
    }

    /// The call's priority, cloned, unless the call is gone.
    pub fn clone_priority<X>(&self, queue: &PriorityQueue<X>) -> (r: Result<Priority<i64>, ContractError>)
        requires
            self.call() < queue.calls().len(),
        ensures
            r == if gone(queue.calls(), queue.call_queue(), queue.running(), self.call() as int) {
                Err::<Priority<i64>, ContractError>(ContractError::FinishedFunction)
            } else {
                Ok::<Priority<i64>, ContractError>(queue.calls()[self.call() as int].value)
            },
    {
        if self.is_gone(queue) {
            return Err(ContractError::FinishedFunction);
        }
        Ok(queue.task(self.priority_task).value)
    }
}

/// The scheduler's state.
pub struct PriorityQueue<X> {
    tasks: Vec<PriorityTask<X>>,
    queue: Heap<usize>,
    exception_ready: bool,
    current: Option<usize>,
    last_resort_exception_container: Option<X>,
}

impl<X> PriorityQueue<X> {
    /// The calls, indexed by their number.
    pub closed spec fn calls(&self) -> Seq<PriorityTask<X>> {
        self.tasks@
    }

    /// The call queue.
    pub closed spec fn call_queue(&self) -> Heap<usize> {
        self.queue
    }

    /// The call being run (the last one started).
    pub closed spec fn running(&self) -> Option<usize> {
        self.current
    }

    /// An exception was raised by the call being run.
    pub closed spec fn exception_raised(&self) -> bool {
        self.exception_ready
    }

    /// An exception raised where no catcher covers it.
    pub closed spec fn uncaught(&self) -> Option<X> {
        self.last_resort_exception_container
    }

    /// The queue holds no "now" entry (or serves first-in first-out), so one
    /// call may be queued in front.
    pub open spec fn front_free(&self) -> bool {
        self.call_queue().serves_fifo() || self.call_queue().now_slot().len() == 0
    }

    /// Internal consistency of calls, links and call queue.
    pub closed spec fn wf(&self) -> bool {
        &&& self.queue.wf()
        &&& forall|t: int| 0 <= t < self.tasks@.len() ==> links_ok(self.tasks@, t)
        &&& forall|e: (i64, usize)| #[trigger]
            self.queue.ranked().contains(e) ==> e.1 < self.tasks@.len()
        &&& forall|k: int|
            0 <= k < self.queue.now_slot().len() ==> #[trigger] self.queue.now_slot()[k].1
                < self.tasks@.len()
        &&& forall|k: int|
            0 <= k < self.queue.fifo().len() ==> #[trigger] self.queue.fifo()[k].1
                < self.tasks@.len()
        &&& self.current matches Some(c) ==> c < self.tasks@.len()
    }

    /// What a well-formed scheduler holds: a well-formed call queue whose
    /// entries name known calls, calls whose links are in order, and a running
    /// call that is known.
    pub proof fn lemma_wf(&self)
        requires
            self.wf(),
        ensures
            self.call_queue().wf(),
            self.calls().len() <= usize::MAX,
            forall|t: int| 0 <= t < self.calls().len() ==> links_ok(self.calls(), t),
            forall|k: int|
                0 <= k < self.call_queue().held_entries().len() ==> #[trigger] self.call_queue().held_entries()[k].1
                    < self.calls().len(),
            self.running() matches Some(c) ==> c < self.calls().len(),
    {
        self.queue.lemma_wf_parts();
        assert(self.tasks.len() == self.tasks@.len());
        let h = self.queue.held_entries();
        assert forall|k: int| 0 <= k < h.len() implies #[trigger] h[k].1 < self.tasks@.len() by {
            let ns = self.queue.slots().len();
            let nn = self.queue.now_slot().len();
            if k < ns {
                assert(h[k] == self.queue.slots()[k]);
                assert(self.queue.ranked().contains(self.queue.slots()[k]));
            } else if k < ns + nn {
                assert(h[k] == self.queue.now_slot()[k - ns]);
            } else {
                assert(h[k] == self.queue.fifo()[k - ns - nn]);
            }
        }
    }

    /// An empty scheduler ordering calls by `priority_style`.
    pub fn new(priority_style: PriorityStyle) -> (q: Self)
        ensures
            q.wf(),
            q.calls().len() == 0,
            q.call_queue().serves_max() == (priority_style is Max),
            q.call_queue().serves_fifo() == (priority_style is Queue),
            q.call_queue().size() == 0,
            q.running() is None,
            !q.exception_raised(),
            q.uncaught() is None,
    {
        let is_max = match priority_style {
            PriorityStyle::Min => false,
            PriorityStyle::Max => true,
            PriorityStyle::Queue => false,
        };
        let is_queue = match priority_style {
            PriorityStyle::Queue => true,
            _ => false,
        };
        let q = PriorityQueue {
            tasks: Vec::new(),
            queue: Heap::new(is_max, is_queue),
            exception_ready: false,
            current: None,
            last_resort_exception_container: None,
        };
        q
    }

    /// What the scheduler knows of call `id`.
    pub fn task(&self, id: usize) -> (t: &PriorityTask<X>)
        requires
            id < self.calls().len(),
        ensures
            *t == self.calls()[id as int],
    {
        &self.tasks[id]
    }

    /// The call being run, if any.
    pub fn current(&self) -> (c: Option<usize>)
        ensures
            c == self.running(),
    {
        self.current
    }

    /// Number of entries in the call queue.
    pub fn queued(&self) -> (n: usize)
        requires
            self.wf(),
        ensures
            n == self.call_queue().size(),
    {
        self.queue.len()
    }

    /// Queues call `id` by its priority: `Now` in front of all others, a value
    /// by its key.
    fn push(&mut self, id: usize) -> (r: Result<(), Fault>)
        requires
            old(self).wf(),
            id < old(self).calls().len(),
            old(self).calls()[id as int].value is Now ==> old(self).front_free(),
        ensures
            final(self).wf(),
            final(self).calls() == old(self).calls(),
            final(self).running() == old(self).running(),
            final(self).exception_raised() == old(self).exception_raised(),
            final(self).uncaught() == old(self).uncaught(),
            push_step(old(self).calls(), old(self).call_queue(), id, final(self).call_queue(), r),
    {
        if self.queue.len() == usize::MAX {
            return Err(Fault::QueueFull);
        }
        let value = self.tasks[id].value;
        match value {
            Priority::Now => {
                self.queue.push_start((0, id));
            },
            Priority::Value(k) => {
                self.queue.push((k, id));
            },
        }
        proof {
            let n = self.tasks@.len();
            assert forall|e: (i64, usize)| #[trigger]
                self.queue.ranked().contains(e) implies e.1 < n by {
                if value is Value {
                    assert(old(self).queue.ranked().insert((key_of(value), id)).contains(e));
                    if e != (key_of(value), id) {
                        assert(old(self).queue.ranked().contains(e));
                    }
                }
            }
            assert forall|k: int| 0 <= k < self.queue.fifo().len() implies #[trigger] self.queue.fifo()[k].1 < n by {
                if self.queue.serves_fifo() {
                    if value is Now {
                        if k > 0 {
                            assert(self.queue.fifo()[k] == old(self).queue.fifo()[k - 1]);
                        }
                    } else {
                        if k < old(self).queue.fifo().len() {
                            assert(self.queue.fifo()[k] == old(self).queue.fifo()[k]);
                        }
                    }
                }
            }
        }
        Ok(())
    }

    /// Replacing a call by one with the same links keeps every call's links in order.
    pub(crate) proof fn lemma_links_kept(tasks: Seq<PriorityTask<X>>, p: int, t2: PriorityTask<X>)
        requires
            0 <= p < tasks.len(),
            forall|t: int| 0 <= t < tasks.len() ==> links_ok(tasks, t),
            t2.parent == tasks[p].parent,
            t2.catch == tasks[p].catch,
            t2.is_select == tasks[p].is_select,
            t2.is_select_head == tasks[p].is_select_head,
            t2.children@ == tasks[p].children@,
        ensures
            forall|t: int| 0 <= t < tasks.len() ==> links_ok(tasks.update(p, t2), t),
    {
        let ts = tasks.update(p, t2);
        assert forall|t: int| 0 <= t < tasks.len() implies links_ok(ts, t) by {
            assert(links_ok(tasks, t));
            if let Some(q) = ts[t].parent {
                assert(ts[q as int].children@ == tasks[q as int].children@);
            }
            if let Some(c) = ts[t].catch {
                assert(ts[c as int].parent == tasks[c as int].parent);
            }
            assert forall|k: int| 0 <= k < ts[t].children@.len() implies t < #[trigger] ts[t].children@[k]
                < ts.len() && ts[ts[t].children@[k] as int].parent == Some(t as usize) by {
                assert(tasks[t].children@[k] == ts[t].children@[k]);
                assert(ts[ts[t].children@[k] as int].parent == tasks[tasks[t].children@[k] as int].parent);
            }
        }
    }

    /// The parent `p` of call `t` has one child less waiting (or one selected
    /// child less, when `t` was selected).
    fn decrement_parent(&mut self, t: usize, p: usize) -> (r: Result<(), Fault>)
        requires
            old(self).wf(),
            t < old(self).calls().len(),
            old(self).calls()[t as int].parent == Some(p),
        ensures
            ({
                let pt = old(self).calls()[p as int];
                if old(self).calls()[t as int].is_select_head {
                    if pt.select_count == i32::MIN {
                        r == Err::<(), Fault>(Fault::CountOverflow)
                    } else {
                        r is Ok && final(self).calls() == old(self).calls().update(
                            p as int,
                            with_select_count(pt, (pt.select_count - 1) as i32),
                        )
                    }
                } else {
                    if pt.children_count == i32::MIN {
                        r == Err::<(), Fault>(Fault::CountOverflow)
                    } else {
                        r is Ok && final(self).calls() == old(self).calls().update(
                            p as int,
                            with_children_count(pt, (pt.children_count - 1) as i32),
                        )
                    }
                }
            }),
            final(self).wf(),
            final(self).call_queue() == old(self).call_queue(),
            final(self).running() == old(self).running(),
            final(self).exception_raised() == old(self).exception_raised(),
            final(self).uncaught() == old(self).uncaught(),
    {
        proof {
            assert(links_ok(self.tasks@, t as int));
        }
        if self.tasks[t].is_select_head {
            if self.tasks[p].select_count == i32::MIN {
                return Err(Fault::CountOverflow);
            }
            self.tasks[p].select_count = self.tasks[p].select_count - 1;
        } else {
            if self.tasks[p].children_count == i32::MIN {
                return Err(Fault::CountOverflow);
            }
            self.tasks[p].children_count = self.tasks[p].children_count - 1;
        }
        proof {
            let pt = old(self).tasks@[p as int];
            let pt2 = if old(self).tasks@[t as int].is_select_head {
                with_select_count(pt, (pt.select_count - 1) as i32)
            } else {
                with_children_count(pt, (pt.children_count - 1) as i32)
            };
            assert(self.tasks@ =~= old(self).tasks@.update(p as int, pt2));
            Self::lemma_links_kept(old(self).tasks@, p as int, pt2);
        }
        Ok(())
    }

    /// Retires call `t`: see `destroy_outcome`.
    fn destroy(&mut self, t: usize, readd: bool) -> (r: Result<(), Fault>)
        requires
            old(self).wf(),
            t < old(self).calls().len(),
            old(self).front_free(),
        ensures
            final(self).wf(),
            final(self).running() == old(self).running(),
            final(self).exception_raised() == old(self).exception_raised(),
            final(self).uncaught() == old(self).uncaught(),
            destroy_step(
                old(self).calls(),
                old(self).call_queue(),
                t,
                readd,
                final(self).calls(),
                final(self).call_queue(),
                r,
            ),
        decreases t,
    {
        self.set_retired(t);
        proof {
            assert(links_ok(self.tasks@, t as int));
        }
        match self.tasks[t].parent {
            None => Ok(()),
            Some(p) => {
                self.decrement_parent(t, p)?;
                if self.tasks[p].children_count < 0 {
                    return Err(Fault::IllegalChildren);
                }
                if self.tasks[p].finished && self.tasks[p].children_count == 0 {
                    return self.destroy(p, readd);
                } else if self.tasks[p].children_count == 0 && readd && self.tasks[p].select_count
                    == 0 {
                    return self.push(p);
                }
                Ok(())
            },
        }
    }

    /// Cancels every call in the branch rooted at `root`: each is marked killed
    /// and started.
    fn eviscerate_branch(&mut self, root: usize)
        requires
            old(self).wf(),
            root < old(self).calls().len(),
        ensures
            final(self).wf(),
            final(self).calls().len() == old(self).calls().len(),
            forall|u: int|
                0 <= u < old(self).calls().len() ==> #[trigger] final(self).calls()[u] == if in_branch(
                    old(self).calls(),
                    root as int,
                    u,
                ) {
                    killed_task(old(self).calls()[u])
                } else {
                    old(self).calls()[u]
                },
            final(self).call_queue() == old(self).call_queue(),
            final(self).running() == old(self).running(),
            final(self).exception_raised() == old(self).exception_raised(),
            final(self).uncaught() == old(self).uncaught(),
        decreases old(self).calls().len() - root,
    {
        let ghost old_tasks = self.tasks@;
        proof {
            assert(self.tasks.len() == old_tasks.len());
        }
        self.tasks[root].killed = true;
        self.tasks[root].started = true;
        proof {
            let t2 = killed_task(old_tasks[root as int]);
            assert(self.tasks@ =~= old_tasks.update(root as int, t2));
            Self::lemma_links_kept(old_tasks, root as int, t2);
            assert(links_ok(old_tasks, root as int));
        }
        let n = self.tasks[root].children.len();
        let mut k: usize = 0;
        while k < n
            invariant
                self.wf(),
                self.tasks@.len() == old_tasks.len(),
                old_tasks == old(self).tasks@,
                old_tasks.len() <= usize::MAX,
                root < old_tasks.len(),
                n == old_tasks[root as int].children@.len(),
                k <= n,
                forall|t: int| 0 <= t < old_tasks.len() ==> links_ok(old_tasks, t),
                forall|u: int|
                    0 <= u < old_tasks.len() ==> #[trigger] self.tasks@[u] == if u == root || exists|j: int|
                        0 <= j < k && #[trigger] in_branch(
                            old_tasks,
                            old_tasks[root as int].children@[j] as int,
                            u,
                        ) {
                        killed_task(old_tasks[u])
                    } else {
                        old_tasks[u]
                    },
                self.queue == old(self).queue,
                self.current == old(self).current,
                self.exception_ready == old(self).exception_ready,
                self.last_resort_exception_container == old(self).last_resort_exception_container,
            decreases n - k,
        {
            proof {
                assert(self.tasks@[root as int] == killed_task(old_tasks[root as int]));
                assert(links_ok(old_tasks, root as int));
            }
            let c = self.tasks[root].children[k];
            let ghost mid = self.tasks@;
            proof {
                assert(c == old_tasks[root as int].children@[k as int]);
                assert(root < c < old_tasks.len());
                assert forall|v: int| 0 <= v < old_tasks.len() implies #[trigger] mid[v].parent
                    == old_tasks[v].parent by {
                    assert(mid[v] == killed_task(old_tasks[v]) || mid[v] == old_tasks[v]);
                }
            }
            assert(self.calls().len() - c < old(self).calls().len() - root);
            self.eviscerate_branch(c);
            proof {
                assert forall|u: int| 0 <= u < old_tasks.len() implies #[trigger] self.tasks@[u]
                    == if u == root || exists|j: int|
                        0 <= j < k + 1 && #[trigger] in_branch(
                            old_tasks,
                            old_tasks[root as int].children@[j] as int,
                            u,
                        ) {
                        killed_task(old_tasks[u])
                    } else {
                        old_tasks[u]
                    } by {
                    lemma_in_branch_parents(mid, old_tasks, c as int, u);
                    if in_branch(old_tasks, c as int, u) {
                        assert(in_branch(
                            old_tasks,
                            old_tasks[root as int].children@[k as int] as int,
                            u,
                        ));
                    }
                }
            }
            k = k + 1;
        }
        proof {
            assert forall|u: int| 0 <= u < old_tasks.len() implies #[trigger] self.tasks@[u]
                == if in_branch(old(self).calls(), root as int, u) {
                    killed_task(old(self).calls()[u])
                } else {
                    old(self).calls()[u]
                } by {
                lemma_branch_by_children(old_tasks, root as int, u);
            }
        }
    }

    /// An exception reached catcher parent `cp`: see `resume_step`.
    fn resume_catcher(&mut self, cp: usize) -> (r: Result<(), Fault>)
        requires
            old(self).wf(),
            cp < old(self).calls().len(),
            old(self).front_free(),
        ensures
            final(self).wf(),
            final(self).running() == old(self).running(),
            final(self).exception_raised() == old(self).exception_raised(),
            final(self).uncaught() == old(self).uncaught(),
            resume_step(
                old(self).calls(),
                old(self).call_queue(),
                cp,
                final(self).calls(),
                final(self).call_queue(),
                r,
            ),
    {
        if self.tasks[cp].finished {
            return self.destroy(cp, true);
        }
        if self.tasks[cp].children_count == 0 {
            return self.push(cp);
        }
        Ok(())
    }

    /// Cancels the branch of every selected child of call `cp`.
    fn cancel_selected(&mut self, cp: usize)
        requires
            old(self).wf(),
            cp < old(self).calls().len(),
        ensures
            final(self).wf(),
            final(self).calls() == cancel_selected_calls(old(self).calls(), cp as int),
            final(self).call_queue() == old(self).call_queue(),
            final(self).running() == old(self).running(),
            final(self).exception_raised() == old(self).exception_raised(),
            final(self).uncaught() == old(self).uncaught(),
    {
        let ghost old_tasks = self.tasks@;
        proof {
            assert(self.tasks.len() == old_tasks.len());
            assert(links_ok(old_tasks, cp as int));
        }
        let n = self.tasks[cp].children.len();
        let mut k: usize = 0;
        while k < n
            invariant
                self.wf(),
                self.tasks@.len() == old_tasks.len(),
                old_tasks == old(self).tasks@,
                old_tasks.len() <= usize::MAX,
                cp < old_tasks.len(),
                n == old_tasks[cp as int].children@.len(),
                k <= n,
                forall|t: int| 0 <= t < old_tasks.len() ==> links_ok(old_tasks, t),
                forall|u: int|
                    0 <= u < old_tasks.len() ==> #[trigger] self.tasks@[u] == if exists|j: int|
                        0 <= j < k && old_tasks[old_tasks[cp as int].children@[j] as int].is_select
                            && #[trigger] in_branch(
                            old_tasks,
                            old_tasks[cp as int].children@[j] as int,
                            u,
                        ) {
                        killed_task(old_tasks[u])
                    } else {
                        old_tasks[u]
                    },
                self.queue == old(self).queue,
                self.current == old(self).current,
                self.exception_ready == old(self).exception_ready,
                self.last_resort_exception_container == old(self).last_resort_exception_container,
            decreases n - k,
        {
            let ghost mid = self.tasks@;
            proof {
                assert(links_ok(old_tasks, cp as int));
                assert(self.tasks@[cp as int].children@ == old_tasks[cp as int].children@);
                assert forall|v: int| 0 <= v < old_tasks.len() implies #[trigger] mid[v].parent
                    == old_tasks[v].parent by {
                    assert(mid[v] == killed_task(old_tasks[v]) || mid[v] == old_tasks[v]);
                }
            }
            let c = self.tasks[cp].children[k];
            proof {
                assert(c == old_tasks[cp as int].children@[k as int]);
                assert(mid[c as int].is_select == old_tasks[c as int].is_select);
            }
            if self.tasks[c].is_select {
                self.eviscerate_branch(c);
                proof {
                    assert forall|u: int| 0 <= u < old_tasks.len() implies #[trigger] self.tasks@[u]
                        == if exists|j: int|
                            0 <= j < k + 1 && old_tasks[old_tasks[cp as int].children@[j] as int].is_select
                                && #[trigger] in_branch(
                                old_tasks,
                                old_tasks[cp as int].children@[j] as int,
                                u,
                            ) {
                            killed_task(old_tasks[u])
                        } else {
                            old_tasks[u]
                        } by {
                        lemma_in_branch_parents(mid, old_tasks, c as int, u);
                        if in_branch(old_tasks, c as int, u) {
                            assert(in_branch(
                                old_tasks,
                                old_tasks[cp as int].children@[k as int] as int,
                                u,
                            ));
                        }
                    }
                }
            } else {
                proof {
                    assert forall|u: int| 0 <= u < old_tasks.len() implies #[trigger] self.tasks@[u]
                        == if exists|j: int|
                            0 <= j < k + 1 && old_tasks[old_tasks[cp as int].children@[j] as int].is_select
                                && #[trigger] in_branch(
                                old_tasks,
                                old_tasks[cp as int].children@[j] as int,
                                u,
                            ) {
                            killed_task(old_tasks[u])
                        } else {
                            old_tasks[u]
                        } by {
                        if exists|j: int|
                            0 <= j < k + 1 && old_tasks[old_tasks[cp as int].children@[j] as int].is_select
                                && #[trigger] in_branch(
                                old_tasks,
                                old_tasks[cp as int].children@[j] as int,
                                u,
                            ) {
                            let j = choose|j: int|
                                0 <= j < k + 1 && old_tasks[old_tasks[cp as int].children@[j] as int].is_select
                                    && #[trigger] in_branch(
                                    old_tasks,
                                    old_tasks[cp as int].children@[j] as int,
                                    u,
                                );
                            assert(j != k);
                        }
                    }
                }
            }
            k = k + 1;
        }
        proof {
            assert(self.tasks@ =~= cancel_selected_calls(old_tasks, cp as int));
        }
    }

    /// Decides what to do with call `id`, just taken from the queue: a call
    /// still waiting for children is a fault; a cancelled one is retired and
    /// skipped; one whose catcher has an exception raised under it is retired
    /// and skipped (the catcher's parent was resumed when the exception was
    /// raised); a call raising an exception is a fault; any other call is
    /// started and becomes the running call.
    pub fn begin_call(&mut self, id: usize) -> (r: Result<Begin, Fault>)
        requires
            old(self).wf(),
            id < old(self).calls().len(),
            old(self).front_free(),
        ensures
            final(self).wf(),
            final(self).exception_raised() == old(self).exception_raised(),
            final(self).uncaught() == old(self).uncaught(),
            r is Ok ==> final(self).call_queue() == old(self).call_queue(),
            ({
                let t = old(self).calls()[id as int];
                let pending = t.children_count != 0;
                let caught = caught_elsewhere(old(self).calls(), id as int);
                &&& pending ==> r == Err::<Begin, Fault>(Fault::ChildrenPending)
                &&& !pending && t.killed ==> {
                    &&& r == Ok::<Begin, Fault>(Begin::Skip)
                    &&& final(self).calls() == old(self).calls().update(id as int, with_retired(t))
                    &&& final(self).running() == old(self).running()
                }
                &&& !pending && !t.killed && caught ==> {
                    let c1 = old(self).calls().update(id as int, with_started(t));
                    let o = destroy_outcome(c1, id as int, false);
                    &&& final(self).running() == old(self).running()
                    &&& o.2 matches Some(f) ==> r == Err::<Begin, Fault>(f)
                    &&& o.2 is None ==> r == Ok::<Begin, Fault>(Begin::Skip) && final(self).calls()
                        == o.0
                }
                &&& !pending && !t.killed && !caught && t.is_throwing ==> r == Err::<Begin, Fault>(
                    Fault::ThrowingCall,
                )
                &&& !pending && !t.killed && !caught && !t.is_throwing ==> {
                    &&& r == Ok::<Begin, Fault>(Begin::Poll)
                    &&& final(self).calls() == old(self).calls().update(id as int, with_started(t))
                    &&& final(self).running() == Some(id)
                    &&& final(self).front_free()
                }
            }),
    {
        if self.tasks[id].children_count != 0 {
            return Err(Fault::ChildrenPending);
        }
        if self.tasks[id].killed {
            self.set_retired(id);
            return Ok(Begin::Skip);
        }
        let catch = self.tasks[id].catch;
        proof {
            assert(links_ok(self.tasks@, id as int));
        }
        let mut caught = false;
        if let Some(c) = catch {
            caught = self.tasks[c].is_throwing;
        }
        if caught {
            self.set_started(id);
            proof {
                lemma_destroy_no_readd(self.tasks@, id as int);
            }
            self.destroy(id, false)?;
            return Ok(Begin::Skip);
        }
        if self.tasks[id].is_throwing {
            return Err(Fault::ThrowingCall);
        }
        self.current = Some(id);
        self.set_started(id);
        Ok(Begin::Poll)
    }

    /// `new` is the scheduler `old` once running call `id` has reported back
    /// (see `end_call`), with result `r`.
    pub open spec fn ended(old: Self, new: Self, id: usize, finished: bool, r: Result<AfterCall<X>, Fault>) -> bool {
        &&& new.wf()
        &&& new.running() == old.running()
        &&& !new.exception_raised()
        &&& ({
            let t1 = old.calls().update(
                id as int,
                with_finished(old.calls()[id as int], finished),
            );
            let t = t1[id as int];
            &&& !old.exception_raised() ==> {
                &&& new.uncaught() == old.uncaught()
                &&& r is Ok ==> r == Ok::<AfterCall<X>, Fault>(AfterCall::Continue)
                &&& if !finished && t.children_count == 0 && t.select_count == 0 {
                    new.calls() == t1 && push_step(
                        t1,
                        old.call_queue(),
                        id,
                        new.call_queue(),
                        unit_of(r),
                    )
                } else if finished && t.children_count == 0 && t.select_count == 0 {
                    destroy_step(
                        t1,
                        old.call_queue(),
                        id,
                        true,
                        new.calls(),
                        new.call_queue(),
                        unit_of(r),
                    )
                } else {
                    new.calls() == t1 && new.call_queue()
                        == old.call_queue() && r is Ok
                }
            }
            &&& old.exception_raised() && t.catch is None ==> {
                &&& r == Ok::<AfterCall<X>, Fault>(AfterCall::Stop(old.uncaught()))
                &&& new.uncaught() is None
                &&& new.calls() == t1
                &&& new.call_queue() == old.call_queue()
            }
            &&& old.exception_raised() && t.catch is Some && t1[t.catch.unwrap() as int].is_select ==> {
                let cp = t1[t.catch.unwrap() as int].parent.unwrap();
                let t2 = cancel_selected_calls(t1, cp as int);
                let t3 = t2.update(cp as int, with_select_count(t2[cp as int], 0));
                &&& new.uncaught() == old.uncaught()
                &&& r is Ok ==> r == Ok::<AfterCall<X>, Fault>(AfterCall::Continue)
                &&& resume_step(
                    t3,
                    old.call_queue(),
                    cp,
                    new.calls(),
                    new.call_queue(),
                    unit_of(r),
                )
            }
            &&& old.exception_raised() && t.catch is Some && !t1[t.catch.unwrap() as int].is_select ==> {
                let c = t.catch.unwrap();
                let t2 = kill_branch_calls(t1, c as int);
                let o = destroy_outcome(t2, c as int, false);
                &&& new.uncaught() == old.uncaught()
                &&& o.2 matches Some(f) ==> r == Err::<AfterCall<X>, Fault>(f)
                &&& o.2 is None ==> {
                    let cp = o.0[c as int].parent.unwrap();
                    &&& r is Ok ==> r == Ok::<AfterCall<X>, Fault>(AfterCall::Continue)
                    &&& resume_step(
                        o.0,
                        old.call_queue(),
                        cp,
                        new.calls(),
                        new.call_queue(),
                        unit_of(r),
                    )
                }
            }
        })
    }

    /// Records what running call `id` gave: `finished` when its future
    /// completed. Without an exception, an unfinished call with no child
    /// waiting is queued again and a finished one is retired. With an exception
    /// no catcher covers, the run stops with it. With one a selected call
    /// covers, every selected branch of that call's parent is cancelled and the
    /// parent resumed. With one a caught call covers, every call in the
    /// catcher's branch is cancelled, the catcher (which holds the exception)
    /// is retired, and the catcher's parent resumed: retired if finished,
    /// queued again by its priority if no child of it waits.
    pub fn end_call(&mut self, id: usize, finished: bool) -> (r: Result<AfterCall<X>, Fault>)
        requires
            old(self).wf(),
            id < old(self).calls().len(),
            old(self).front_free(),
        ensures
            Self::ended(*old(self), *final(self), id, finished, r),
    {
        self.set_finished(id, finished);
        proof {
            assert(links_ok(self.tasks@, id as int));
        }
        if self.exception_ready {
            self.exception_ready = false;
            match self.tasks[id].catch {
                None => {
                    let uncaught = self.last_resort_exception_container.take();
                    return Ok(AfterCall::Stop(uncaught));
                },
                Some(c) => {
                    proof {
                        assert(links_ok(self.tasks@, c as int));
                    }
                    if self.tasks[c].is_select {
                        let catch_parent = self.tasks[c].parent.unwrap();
                        self.cancel_selected(catch_parent);
                        proof {
                            assert(catch_parent < self.tasks@.len());
                        }
                        self.clear_select_count(catch_parent);
                        self.resume_catcher(catch_parent)?;
                        return Ok(AfterCall::Continue);
                    }
                    let ghost t1 = self.tasks@;
                    self.eviscerate_branch(c);
                    proof {
                        assert(self.tasks@ =~= kill_branch_calls(t1, c as int));
                        lemma_destroy_no_readd(self.tasks@, c as int);
                        lemma_destroy_keeps_links(self.tasks@, c as int, false);
                    }
                    self.destroy(c, false)?;
                    proof {
                        assert(c < self.tasks@.len());
                        assert(links_ok(self.tasks@, c as int));
                    }
                    let catch_parent = self.tasks[c].parent.unwrap();
                    self.resume_catcher(catch_parent)?;
                    return Ok(AfterCall::Continue);
                },
            }
        }
        if !finished && self.tasks[id].children_count == 0 && self.tasks[id].select_count == 0 {
            self.push(id)?;
        } else if finished && self.tasks[id].children_count == 0 && self.tasks[id].select_count
            == 0 {
            self.destroy(id, true)?;
        }
        Ok(AfterCall::Continue)
    }

    /// Marks call `id` finished or not.
    fn set_finished(&mut self, id: usize, finished: bool)
        requires
            old(self).wf(),
            id < old(self).calls().len(),
        ensures
            final(self).wf(),
            final(self).calls() == old(self).calls().update(
                id as int,
                with_finished(old(self).calls()[id as int], finished),
            ),
            final(self).call_queue() == old(self).call_queue(),
            final(self).running() == old(self).running(),
            final(self).exception_raised() == old(self).exception_raised(),
            final(self).uncaught() == old(self).uncaught(),
    {
        self.tasks[id].finished = finished;
        proof {
            let t2 = with_finished(old(self).tasks@[id as int], finished);
            assert(self.tasks@ =~= old(self).tasks@.update(id as int, t2));
            Self::lemma_links_kept(old(self).tasks@, id as int, t2);
        }
    }

    /// Call `cp` has no selected child left waiting.
    fn clear_select_count(&mut self, cp: usize)
        requires
            old(self).wf(),
            cp < old(self).calls().len(),
        ensures
            final(self).wf(),
            final(self).calls() == old(self).calls().update(
                cp as int,
                with_select_count(old(self).calls()[cp as int], 0),
            ),
            final(self).call_queue() == old(self).call_queue(),
            final(self).running() == old(self).running(),
            final(self).exception_raised() == old(self).exception_raised(),
            final(self).uncaught() == old(self).uncaught(),
    {
        self.tasks[cp].select_count = 0;
        proof {
            let t2 = with_select_count(old(self).tasks@[cp as int], 0);
            assert(self.tasks@ =~= old(self).tasks@.update(cp as int, t2));
            Self::lemma_links_kept(old(self).tasks@, cp as int, t2);
        }
    }

    /// Makes a new call and queues it by its key (the ranked part, or the back in
    /// first-in first-out mode).
    fn add_priority_task(
        &mut self,
        parent: Option<usize>,
        catch: Option<usize>,
        catch_self: bool,
        is_select: bool,
        is_head: bool,
        priority: Priority<i64>,
    ) -> (r: Result<usize, Fault>)
        requires
            old(self).wf(),
            parent matches Some(p) ==> p < old(self).calls().len(),
            catch matches Some(c) ==> c < old(self).calls().len() && old(self).calls()[c as int].parent is Some,
            catch_self ==> parent is Some,
            is_select ==> catch_self,
        ensures
            old(self).call_queue().size() >= usize::MAX ==> r == Err::<usize, Fault>(Fault::QueueFull)
                && *final(self) == *old(self),
            old(self).call_queue().size() < usize::MAX ==> {
                let n = old(self).calls().len();
                &&& r == Ok::<usize, Fault>(n as usize)
                &&& final(self).wf()
                &&& call_added(
                    old(self).calls(),
                    final(self).calls(),
                    priority,
                    is_head,
                    parent,
                    if catch_self {
                        Some(n as usize)
                    } else {
                        catch
                    },
                    is_select,
                )
                &&& Heap::pushed_back(
                    old(self).call_queue(),
                    final(self).call_queue(),
                    (key_of(priority), n as usize),
                )
                &&& parent matches Some(p) ==> {
                    &&& final(self).calls()[p as int].children_count == old(
                        self,
                    ).calls()[p as int].children_count
                    &&& final(self).calls()[p as int].select_count == old(
                        self,
                    ).calls()[p as int].select_count
                }
            },
            final(self).running() == old(self).running(),
            final(self).exception_raised() == old(self).exception_raised(),
            final(self).uncaught() == old(self).uncaught(),
    {
        if self.queue.len() == usize::MAX {
            return Err(Fault::QueueFull);
        }
        let id = self.tasks.len();
        let task = PriorityTask {
            value: priority,
            is_head,
            children_count: 0,
            parent,
            catch: if catch_self {
                Some(id)
            } else {
                catch
            },
            exception_store: None,
            is_throwing: false,
            finished: false,
            is_select,
            is_select_head: is_select,
            children: Vec::new(),
            select_count: 0,
            killed: false,
            started: false,
            retired: false,
        };
        let ghost old_tasks = self.tasks@;
        self.tasks.push(task);
        if let Some(p) = parent {
            self.tasks[p].children.push(id);
        }
        let key = match priority {
            Priority::Value(k) => k,
            Priority::Now => 0,
        };
        self.queue.push((key, id));
        proof {
            let ts = self.tasks@;
            assert forall|t: int| 0 <= t < ts.len() implies links_ok(ts, t) by {
                if t < old_tasks.len() {
                    assert(links_ok(old_tasks, t));
                    let ot = old_tasks[t];
                    if let Some(q) = ts[t].parent {
                        assert(old_tasks[q as int].children@.contains(t as usize));
                        let j = choose|j: int|
                            0 <= j < old_tasks[q as int].children@.len()
                                && old_tasks[q as int].children@[j] == t as usize;
                        assert(ts[q as int].children@[j] == t as usize);
                    }
                    if let Some(c) = ts[t].catch {
                        assert(ts[c as int].parent == old_tasks[c as int].parent);
                    }
                    assert forall|k: int| 0 <= k < ts[t].children@.len() implies t
                        < #[trigger] ts[t].children@[k] < ts.len() && ts[ts[t].children@[k] as int].parent
                        == Some(t as usize) by {
                        if k < ot.children@.len() {
                            assert(ts[t].children@[k] == ot.children@[k]);
                        }
                    }
                } else {
                    if let Some(q) = parent {
                        assert(ts[q as int].children@[ts[q as int].children@.len() - 1] == id);
                    }
                }
            }
            let n = ts.len();
            assert forall|e: (i64, usize)| #[trigger]
                self.queue.ranked().contains(e) implies e.1 < n by {
                if !self.queue.serves_fifo() {
                    if e != (key, id) {
                        assert(old(self).queue.ranked().contains(e));
                    }
                }
            }
            assert forall|k: int| 0 <= k < self.queue.fifo().len() implies #[trigger] self.queue.fifo()[k].1 < n by {
                if self.queue.serves_fifo() && k < old(self).queue.fifo().len() {
                    assert(self.queue.fifo()[k] == old(self).queue.fifo()[k]);
                }
            }
            assert(forall|k: int| 0 <= k < self.queue.now_slot().len() ==> #[trigger] self.queue.now_slot()[k] == old(self).queue.now_slot()[k]);
        }
        Ok(id)
    }

    /// The scheduler's part of a run: queues the starting call with
    /// `priority` (no parent, no catcher). The caller then takes calls with
    /// `pop`, decides on each with `begin_call`, runs it and reports with
    /// `end_call`, until the queue is empty or the run stops. A `Now` start is
    /// queued by key; it cannot be ordered against other keyed calls, so the
    /// ranked part must be empty then.
    pub fn run(&mut self, priority: Priority<i64>) -> (r: Result<usize, Fault>)
        requires
            old(self).wf(),
            priority is Now ==> old(self).call_queue().serves_fifo() || old(
                self,
            ).call_queue().ranked().len() == 0,
        ensures
            old(self).call_queue().size() >= usize::MAX ==> r == Err::<usize, Fault>(Fault::QueueFull)
                && *final(self) == *old(self),
            old(self).call_queue().size() < usize::MAX ==> {
                let n = old(self).calls().len();
                &&& r == Ok::<usize, Fault>(n as usize)
                &&& final(self).wf()
                &&& call_added(old(self).calls(), final(self).calls(), priority, true, None, None, false)
                &&& Heap::pushed_back(
                    old(self).call_queue(),
                    final(self).call_queue(),
                    (key_of(priority), n as usize),
                )
            },
            final(self).running() == old(self).running(),
            final(self).exception_raised() == old(self).exception_raised(),
            final(self).uncaught() == old(self).uncaught(),
    {
        self.add_priority_task(None, None, false, false, true, priority)
    }

    /// Adds a child call of the running call with priority `value`: the running
    /// call waits for one more child, and the child is covered by the running
    /// call's catcher. Nothing changes when a count or the queue is full.
    pub fn add_priority(&mut self, value: i64) -> (r: Result<usize, Fault>)
        requires
            old(self).wf(),
            old(self).running() is Some,
        ensures
            final(self).wf(),
            final(self).running() == old(self).running(),
            final(self).exception_raised() == old(self).exception_raised(),
            final(self).uncaught() == old(self).uncaught(),
            ({
                let cur = old(self).running().unwrap();
                let ct = old(self).calls()[cur as int];
                let n = old(self).calls().len();
                &&& ct.children_count == i32::MAX ==> r == Err::<usize, Fault>(Fault::CountOverflow)
                    && *final(self) == *old(self)
                &&& ct.children_count < i32::MAX && old(self).call_queue().size() >= usize::MAX ==> r
                    == Err::<usize, Fault>(Fault::QueueFull) && *final(self) == *old(self)
                &&& ct.children_count < i32::MAX && old(self).call_queue().size() < usize::MAX ==> {
                    &&& r == Ok::<usize, Fault>(n as usize)
                    &&& call_added(
                        old(self).calls(),
                        final(self).calls(),
                        Priority::Value(value),
                        false,
                        Some(cur),
                        ct.catch,
                        false,
                    )
                    &&& final(self).calls()[cur as int].children_count == ct.children_count + 1
                    &&& final(self).calls()[cur as int].select_count == ct.select_count
                    &&& Heap::pushed_back(
                        old(self).call_queue(),
                        final(self).call_queue(),
                        (value, n as usize),
                    )
                }
            }),
    {
        let current = self.current.unwrap();
        if self.tasks[current].children_count == i32::MAX {
            return Err(Fault::CountOverflow);
        }
        if self.queue.len() == usize::MAX {
            return Err(Fault::QueueFull);
        }
        proof {
            assert(links_ok(self.tasks@, current as int));
            if let Some(c) = self.tasks@[current as int].catch {
                assert(links_ok(self.tasks@, c as int));
            }
        }
        let catch = self.tasks[current].catch;
        let id = match self.add_priority_task(
            Some(current),
            catch,
            false,
            false,
            false,
            Priority::Value(value),
        ) {
            Ok(id) => id,
            Err(f) => return Err(f),
        };
        let ghost mid = self.tasks@;
        self.tasks[current].children_count = self.tasks[current].children_count + 1;
        proof {
            let t2 = PriorityTask { children_count: (mid[current as int].children_count + 1) as i32, ..mid[current as int] };
            assert(self.tasks@ =~= mid.update(current as int, t2));
            Self::lemma_links_kept(mid, current as int, t2);
        }
        Ok(id)
    }

    /// Adds a caught child call of the running call with priority `value`: it
    /// is its own catcher, and the running call waits for one more child.
    /// Nothing changes when a count or the queue is full.
    pub fn catch_priority(&mut self, value: i64) -> (r: Result<usize, Fault>)
        requires
            old(self).wf(),
            old(self).running() is Some,
        ensures
            final(self).wf(),
            final(self).running() == old(self).running(),
            final(self).exception_raised() == old(self).exception_raised(),
            final(self).uncaught() == old(self).uncaught(),
            ({
                let cur = old(self).running().unwrap();
                let ct = old(self).calls()[cur as int];
                let n = old(self).calls().len();
                &&& ct.children_count == i32::MAX ==> r == Err::<usize, Fault>(Fault::CountOverflow)
                    && *final(self) == *old(self)
                &&& ct.children_count < i32::MAX && old(self).call_queue().size() >= usize::MAX ==> r
                    == Err::<usize, Fault>(Fault::QueueFull) && *final(self) == *old(self)
                &&& ct.children_count < i32::MAX && old(self).call_queue().size() < usize::MAX ==> {
                    &&& r == Ok::<usize, Fault>(n as usize)
                    &&& call_added(
                        old(self).calls(),
                        final(self).calls(),
                        Priority::Value(value),
                        false,
                        Some(cur),
                        Some(n as usize),
                        false,
                    )
                    &&& final(self).calls()[cur as int].children_count == ct.children_count + 1
                    &&& final(self).calls()[cur as int].select_count == ct.select_count
                    &&& Heap::pushed_back(
                        old(self).call_queue(),
                        final(self).call_queue(),
                        (value, n as usize),
                    )
                }
            }),
    {
        let current = self.current.unwrap();
        if self.tasks[current].children_count == i32::MAX {
            return Err(Fault::CountOverflow);
        }
        if self.queue.len() == usize::MAX {
            return Err(Fault::QueueFull);
        }
        proof {
            assert(links_ok(self.tasks@, current as int));
            if let Some(c) = self.tasks@[current as int].catch {
                assert(links_ok(self.tasks@, c as int));
            }
        }
        let id = match self.add_priority_task(
            Some(current),
            None,
            true,
            false,
            false,
            Priority::Value(value),
        ) {
            Ok(id) => id,
            Err(f) => return Err(f),
        };
        let ghost mid = self.tasks@;
        self.tasks[current].children_count = self.tasks[current].children_count + 1;
        proof {
            let t2 = PriorityTask { children_count: (mid[current as int].children_count + 1) as i32, ..mid[current as int] };
            assert(self.tasks@ =~= mid.update(current as int, t2));
            Self::lemma_links_kept(mid, current as int, t2);
        }
        Ok(id)
    }

    /// Adds a selected child call of the running call with priority `value`:
    /// it is its own catcher, and the running call waits for one more selected
    /// child. An exception in one selected branch cancels the others. Nothing
    /// changes when a count or the queue is full.
    pub fn select_priority(&mut self, value: i64) -> (r: Result<usize, Fault>)
        requires
            old(self).wf(),
            old(self).running() is Some,
        ensures
            final(self).wf(),
            final(self).running() == old(self).running(),
            final(self).exception_raised() == old(self).exception_raised(),
            final(self).uncaught() == old(self).uncaught(),
            ({
                let cur = old(self).running().unwrap();
                let ct = old(self).calls()[cur as int];
                let n = old(self).calls().len();
                &&& ct.select_count == i32::MAX ==> r == Err::<usize, Fault>(Fault::CountOverflow)
                    && *final(self) == *old(self)
                &&& ct.select_count < i32::MAX && old(self).call_queue().size() >= usize::MAX ==> r
                    == Err::<usize, Fault>(Fault::QueueFull) && *final(self) == *old(self)
                &&& ct.select_count < i32::MAX && old(self).call_queue().size() < usize::MAX ==> {
                    &&& r == Ok::<usize, Fault>(n as usize)
                    &&& call_added(
                        old(self).calls(),
                        final(self).calls(),
                        Priority::Value(value),
                        false,
                        Some(cur),
                        Some(n as usize),
                        true,
                    )
                    &&& final(self).calls()[cur as int].select_count == ct.select_count + 1
                    &&& final(self).calls()[cur as int].children_count == ct.children_count
                    &&& Heap::pushed_back(
                        old(self).call_queue(),
                        final(self).call_queue(),
                        (value, n as usize),
                    )
                }
            }),
    {
        let current = self.current.unwrap();
        if self.tasks[current].select_count == i32::MAX {
            return Err(Fault::CountOverflow);
        }
        if self.queue.len() == usize::MAX {
            return Err(Fault::QueueFull);
        }
        proof {
            assert(links_ok(self.tasks@, current as int));
            if let Some(c) = self.tasks@[current as int].catch {
                assert(links_ok(self.tasks@, c as int));
            }
        }
        let id = match self.add_priority_task(
            Some(current),
            None,
            true,
            true,
            false,
            Priority::Value(value),
        ) {
            Ok(id) => id,
            Err(f) => return Err(f),
        };
        let ghost mid = self.tasks@;
        self.tasks[current].select_count = self.tasks[current].select_count + 1;
        proof {
            let t2 = PriorityTask { select_count: (mid[current as int].select_count + 1) as i32, ..mid[current as int] };
            assert(self.tasks@ =~= mid.update(current as int, t2));
            Self::lemma_links_kept(mid, current as int, t2);
        }
        Ok(id)
    }

    /// Sets the priority of call `id`.
    pub(crate) fn replace_task_value(&mut self, id: usize, value: Priority<i64>)
        requires
            old(self).wf(),
            id < old(self).calls().len(),
        ensures
            final(self).wf(),
            final(self).calls() == old(self).calls().update(
                id as int,
                with_value(old(self).calls()[id as int], value),
            ),
            final(self).call_queue() == old(self).call_queue(),
            final(self).running() == old(self).running(),
            final(self).exception_raised() == old(self).exception_raised(),
            final(self).uncaught() == old(self).uncaught(),
    {
        self.tasks[id].value = value;
        proof {
            let t2 = with_value(old(self).tasks@[id as int], value);
            assert(self.tasks@ =~= old(self).tasks@.update(id as int, t2));
            Self::lemma_links_kept(old(self).tasks@, id as int, t2);
        }
    }

    /// The running call's priority.
    pub fn get_priority(&self) -> (p: Priority<i64>)
        requires
            self.wf(),
            self.running() is Some,
        ensures
            p == self.calls()[self.running().unwrap() as int].value,
    {
        self.tasks[self.current.unwrap()].value
    }

    /// The running call's priority, cloned.
    pub fn clone_priority(&self) -> (p: Priority<i64>)
        requires
            self.wf(),
            self.running() is Some,
        ensures
            p == self.calls()[self.running().unwrap() as int].value,
    {
        self.tasks[self.current.unwrap()].value
    }

    /// Sets the running call's priority; it orders the call when it is next
    /// queued (after a join, or when an exception reaches it).
    pub fn set_priority(&mut self, value: Priority<i64>)
        requires
            old(self).wf(),
            old(self).running() is Some,
        ensures
            final(self).wf(),
            final(self).calls() == old(self).calls().update(
                old(self).running().unwrap() as int,
                with_value(old(self).calls()[old(self).running().unwrap() as int], value),
            ),
            final(self).call_queue() == old(self).call_queue(),
            final(self).running() == old(self).running(),
            final(self).exception_raised() == old(self).exception_raised(),
            final(self).uncaught() == old(self).uncaught(),
    {
        let current = self.current.unwrap();
        self.replace_task_value(current, value);
    }

    /// Sets the running call's priority and gives back the one it had.
    pub fn replace_priority(&mut self, value: Priority<i64>) -> (old_value: Priority<i64>)
        requires
            old(self).wf(),
            old(self).running() is Some,
        ensures
            old_value == old(self).calls()[old(self).running().unwrap() as int].value,
            final(self).wf(),
            final(self).calls() == old(self).calls().update(
                old(self).running().unwrap() as int,
                with_value(old(self).calls()[old(self).running().unwrap() as int], value),
            ),
            final(self).call_queue() == old(self).call_queue(),
            final(self).running() == old(self).running(),
            final(self).exception_raised() == old(self).exception_raised(),
            final(self).uncaught() == old(self).uncaught(),
    {
        let current = self.current.unwrap();
        let vat = self.tasks[current].value;
        self.replace_task_value(current, value);
        vat
    }

    /// A handle on the running call, through which its priority can be read
    /// and changed later.
    pub fn current_contract(&self) -> (c: Contract)
        requires
            self.running() is Some,
        ensures
            c.call() == self.running().unwrap(),
    {
        Contract { priority_task: self.current.unwrap() }
    }

    /// Takes out the exception caught for call `id`, if any.
    pub fn take_exception(&mut self, id: usize) -> (e: Option<X>)
        requires
            old(self).wf(),
            id < old(self).calls().len(),
        ensures
            e == old(self).calls()[id as int].exception_store,
            final(self).wf(),
            final(self).calls() == old(self).calls().update(
                id as int,
                without_exception(old(self).calls()[id as int]),
            ),
            final(self).call_queue() == old(self).call_queue(),
            final(self).running() == old(self).running(),
            final(self).exception_raised() == old(self).exception_raised(),
            final(self).uncaught() == old(self).uncaught(),
    {
        let e = self.tasks[id].exception_store.take();
        proof {
            let t2 = without_exception(old(self).tasks@[id as int]);
            assert(self.tasks@ =~= old(self).tasks@.update(id as int, t2));
            Self::lemma_links_kept(old(self).tasks@, id as int, t2);
        }
        e
    }

    /// Marks call `id` retired.
    fn set_retired(&mut self, id: usize)
        requires
            old(self).wf(),
            id < old(self).calls().len(),
        ensures
            final(self).wf(),
            final(self).calls() == old(self).calls().update(
                id as int,
                with_retired(old(self).calls()[id as int]),
            ),
            final(self).call_queue() == old(self).call_queue(),
            final(self).running() == old(self).running(),
            final(self).exception_raised() == old(self).exception_raised(),
            final(self).uncaught() == old(self).uncaught(),
    {
        self.tasks[id].retired = true;
        proof {
            let t2 = with_retired(old(self).tasks@[id as int]);
            assert(self.tasks@ =~= old(self).tasks@.update(id as int, t2));
            Self::lemma_links_kept(old(self).tasks@, id as int, t2);
        }
    }

    /// Marks call `id` started.
    fn set_started(&mut self, id: usize)
        requires
            old(self).wf(),
            id < old(self).calls().len(),
        ensures
            final(self).wf(),
            final(self).calls() == old(self).calls().update(
                id as int,
                with_started(old(self).calls()[id as int]),
            ),
            final(self).call_queue() == old(self).call_queue(),
            final(self).running() == old(self).running(),
            final(self).exception_raised() == old(self).exception_raised(),
            final(self).uncaught() == old(self).uncaught(),
    {
        self.tasks[id].started = true;
        proof {
            let t2 = with_started(old(self).tasks@[id as int]);
            assert(self.tasks@ =~= old(self).tasks@.update(id as int, t2));
            Self::lemma_links_kept(old(self).tasks@, id as int, t2);
        }
    }

    /// Takes the next call from the call queue: the front in first-in
    /// first-out mode; otherwise the "now" call if there is one, else a call
    /// whose key ranks first.
    pub fn pop(&mut self) -> (r: Option<usize>)
        requires
            old(self).wf(),
        ensures
            final(self).wf(),
            final(self).calls() == old(self).calls(),
            final(self).running() == old(self).running(),
            final(self).exception_raised() == old(self).exception_raised(),
            final(self).uncaught() == old(self).uncaught(),
            final(self).front_free(),
            exists|e: Option<(i64, usize)>|
                Heap::popped(old(self).call_queue(), final(self).call_queue(), e) && r == match e {
                    Some(x) => Some(x.1),
                    None => None::<usize>,
                },
            r matches Some(id) ==> id < final(self).calls().len(),
    {
        let e = self.queue.pop();
        proof {
            assert(Heap::popped(old(self).queue, self.queue, e));
            let n = self.tasks@.len();
            assert forall|x: (i64, usize)| #[trigger]
                self.queue.ranked().contains(x) implies x.1 < n by {
                if !old(self).queue.serves_fifo() && old(self).queue.now_slot().len() == 0 {
                    if let Some(y) = e {
                        assert(old(self).queue.ranked().contains(x));
                    }
                }
            }
            assert forall|k: int| 0 <= k < self.queue.fifo().len() implies #[trigger] self.queue.fifo()[k].1 < n by {
                if self.queue.serves_fifo() {
                    assert(self.queue.fifo()[k] == old(self).queue.fifo()[k + 1]);
                }
            }
            if let Some(y) = e {
                if old(self).queue.serves_fifo() {
                    assert(y == old(self).queue.fifo()[0]);
                } else if old(self).queue.now_slot().len() > 0 {
                    assert(y == old(self).queue.now_slot()[0]);
                } else {
                    assert(old(self).queue.ranked().contains(y));
                }
            }
        }
        let r = match e {
            Some(x) => Some(x.1),
            None => None,
        };
        assert(Heap::popped(old(self).call_queue(), self.call_queue(), e) && r == match e {
            Some(x) => Some(x.1),
            None => None::<usize>,
        });
        r
    }
}

/// `new` is the scheduler `old` once its running call raised exception
/// `data` (see `relay_internal`).
pub open spec fn raised<X>(
    old: PriorityQueue<X>,
    new: PriorityQueue<X>,
    data: X,
    priority: Priority<i64>,
    change_priority: bool,
) -> bool {
    &&& new.wf()
    &&& new.exception_raised()
    &&& new.running() == old.running()
    &&& new.call_queue() == old.call_queue()
    &&& ({
        let cur = old.running().unwrap();
        match old.calls()[cur as int].catch {
            None => new.calls() == old.calls() && new.uncaught()
                == Some(data),
            Some(c) => {
                let cp = old.calls()[c as int].parent.unwrap();
                let c1 = if change_priority {
                    old.calls().update(
                        cp as int,
                        with_value(old.calls()[cp as int], priority),
                    )
                } else {
                    old.calls()
                };
                &&& new.uncaught() == old.uncaught()
                &&& new.calls() == c1.update(c as int, with_exception(c1[c as int], data))
            },
        }
    })
}

/// The running call raises exception `data`. With no catcher covering it,
/// `data` becomes the uncaught exception; otherwise the catcher stores it
/// and is marked as raising, and, with `change_priority`, the catcher's
/// parent gets `priority`. Either way the raise is recorded for `end_call`.
pub fn relay_internal<X>(
    data: X,
    queue: &mut PriorityQueue<X>,
    priority: Priority<i64>,
    change_priority: bool,
)
    requires
        old(queue).wf(),
        old(queue).running() is Some,
    ensures
        raised(*old(queue), *final(queue), data, priority, change_priority),
{
    let current = queue.current.unwrap();
    proof {
        assert(links_ok(queue.tasks@, current as int));
    }
    match queue.tasks[current].catch {
        None => {
            queue.last_resort_exception_container = Some(data);
        },
        Some(c) => {
            proof {
                assert(links_ok(queue.tasks@, c as int));
            }
            if change_priority {
                let cp = queue.tasks[c].parent.unwrap();
                queue.replace_task_value(cp, priority);
            }
            let ghost mid = queue.tasks@;
            queue.tasks[c].exception_store = Some(data);
            queue.tasks[c].is_throwing = true;
            proof {
                let t2 = with_exception(mid[c as int], data);
                assert(queue.tasks@ =~= mid.update(c as int, t2));
                PriorityQueue::<X>::lemma_links_kept(mid, c as int, t2);
            }
        },
    }
    queue.exception_ready = true;
}

} // verus!
