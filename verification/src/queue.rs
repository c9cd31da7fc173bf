//! The first-in first-out scheduler: its call results, the state of a call's
//! suspension point, and the bookkeeping of the run loop.
use crate::scheduler::{unit_of, Fault};
use std::collections::VecDeque;
use vstd::prelude::*;

verus! {

/// The error a typed look at an exception gives when the exception holds
/// another type. `expected` names the type that was asked for.
pub struct MatchTypeException {
    pub expected: &'static str,
}

/// A call's outcome: its value, or the exception that stopped it.
pub enum ResultMatch<T, E> {
    Returned(T),
    Exception(E),
}

/// What a call has produced so far: its value once it finished, and whether it
/// was started, finished or cancelled.
pub struct Promise<T> {
    pub data: Option<T>,
    pub kill_flag: bool,
    pub has_started: bool,
    pub is_finished: bool,
}

impl<T> Promise<T> {
    /// A promise of a call that has not started.
    pub fn new() -> (p: Self)
        ensures
            p.data is None,
            !p.kill_flag,
            !p.has_started,
            !p.is_finished,
    {
        Promise { data: None, kill_flag: false, has_started: false, is_finished: false }
    }

    /// Cancels the call: the promise is marked cancelled and its value, if it
    /// had one, is taken out and given back.
    pub fn cancel(&mut self) -> (r: Option<T>)
        ensures
            r == old(self).data,
            final(self).data is None,
            final(self).kill_flag,
            final(self).has_started == old(self).has_started,
            final(self).is_finished == old(self).is_finished,
    {
        self.kill_flag = true;
        self.data.take()
    }

    /// The value of a call that started and finished.
    pub fn unwrap(self) -> (v: T)
        requires
            self.has_started,
            self.is_finished,
            self.data is Some,
        ensures
            self.data == Some(v),
    {
        match self.data {
            Some(v) => v,
            None => vstd::pervasive::unreached(),
        }
    }
}

/// A caught call: its promise, and the exception caught from it, if any.
pub struct ExceptionPromise<T, X> {
    pub promise: Promise<T>,
    pub exception: Option<X>,
}

/// A caught call whose outcome can be read.
pub struct UnwrappedExceptionPromise<T, X> {
    exception_promise: ExceptionPromise<T, X>,
}

impl<T, X> ExceptionPromise<T, X> {
    /// The outcome can be read once the call has started.
    pub fn unwrap(self) -> (u: UnwrappedExceptionPromise<T, X>)
        requires
            self.promise.has_started,
        ensures
            u.inner() == self,
    {
        UnwrappedExceptionPromise { exception_promise: self }
    }
}

impl<T, X> UnwrappedExceptionPromise<T, X> {
    /// The caught call this was made from.
    pub closed spec fn inner(&self) -> ExceptionPromise<T, X> {
        self.exception_promise
    }

    /// The outcome can be read: an exception was caught, or the call finished
    /// with a value.
    pub open spec fn readable(&self) -> bool {
        match self.inner().exception {
            Some(_) => true,
            None => self.inner().promise.is_finished && self.inner().promise.data is Some,
        }
    }

    /// The exception if one was caught, else the value.
    pub fn consume_any(self) -> (r: ResultMatch<T, X>)
        requires
            self.readable(),
        ensures
            r == match self.inner().exception {
                Some(e) => ResultMatch::Exception(e),
                None => ResultMatch::<T, X>::Returned(self.inner().promise.data.unwrap()),
            },
    {
        let exception_promise = self.exception_promise;
        let promise = exception_promise.promise;
        let exception = exception_promise.exception;
        match exception {
            None => ResultMatch::Returned(promise.data.unwrap()),
            Some(o) => ResultMatch::Exception(o),
        }
    }

    /// The value of a call that finished without an exception.
    pub fn unwrap_ok(self) -> (v: T)
        requires
            self.readable(),
            self.inner().exception is None,
        ensures
            self.inner().promise.data == Some(v),
    {
        match self.consume_any() {
            ResultMatch::Returned(o) => o,
            ResultMatch::Exception(_) => vstd::pervasive::unreached(),
        }
    }

    /// The outcome with the exception read as a given type: `cast` reads it,
    /// and gives `MatchTypeException` when it holds another type.
    pub fn consume_type<E, F: FnOnce(X) -> Result<E, MatchTypeException>>(self, cast: F) -> (r:
        Result<ResultMatch<T, E>, MatchTypeException>)
        requires
            self.readable(),
            self.inner().exception matches Some(e) ==> call_requires(cast, (e,)),
        ensures
            self.inner().exception is None ==> r == Ok::<ResultMatch<T, E>, MatchTypeException>(
                ResultMatch::Returned(self.inner().promise.data.unwrap()),
            ),
            self.inner().exception matches Some(e) ==> exists|c: Result<E, MatchTypeException>|
                call_ensures(cast, (e,), c) && r == match c {
                    Ok(v) => Ok(ResultMatch::<T, E>::Exception(v)),
                    Err(m) => Err(m),
                },
    {
        match self.consume_any() {
            ResultMatch::Returned(val) => Ok(ResultMatch::Returned(val)),
            ResultMatch::Exception(e) => match cast(e) {
                Ok(v) => Ok(ResultMatch::Exception(v)),
                Err(m) => Err(m),
            },
        }
    }
}

/// Where a call stands at a suspension point.
pub enum FunctionState {
    /// Waiting for its children; the next resume finishes the wait.
    Join,
    /// The wait is over.
    Done,
    /// An exception was raised; the call must not be resumed again.
    Throwing,
    /// Resumed after raising an exception.
    Panic,
}

impl FunctionState {
    /// `new` is suspension point `old` after one resume that gave `ready`:
    /// only a finished wait is ready; a join is then done, and a raised
    /// exception turns into a resume that must not happen.
    pub open spec fn polled(old: FunctionState, new: FunctionState, ready: bool) -> bool {
        &&& ready == (old is Done)
        &&& new == match old {
            FunctionState::Join => FunctionState::Done,
            FunctionState::Done => FunctionState::Done,
            FunctionState::Throwing => FunctionState::Panic,
            FunctionState::Panic => FunctionState::Panic,
        }
    }

    /// One resume of the suspension point: `true` when it is over. A join
    /// suspends once and is then done; a raised exception suspends and may not
    /// be resumed again.
    pub fn poll_step(&mut self) -> (ready: bool)
        requires
            !(*old(self) is Panic),
        ensures
            Self::polled(*old(self), *final(self), ready),
    {
        match self {
            FunctionState::Join => {
                *self = FunctionState::Done;
                false
            },
            FunctionState::Done => true,
            FunctionState::Throwing => {
                *self = FunctionState::Panic;
                false
            },
            FunctionState::Panic => vstd::pervasive::unreached(),
        }
    }
}

/// What the first-in first-out scheduler knows of one call.
pub struct Task<X> {
    /// The call that started the run.
    pub is_head: bool,
    /// Children added or caught by this call that have not finished.
    pub children: i32,
    /// The call that made this one.
    pub parent: Option<usize>,
    /// The caught call whose exception handler covers this call.
    pub catch: Option<usize>,
    /// An exception caught for this call.
    pub exception_store: Option<X>,
    /// An exception was raised under this catcher.
    pub is_throwing: bool,
    /// The call's future has completed.
    pub finished: bool,
    /// The call has been started.
    pub started: bool,
    /// The call's promise was cancelled.
    pub kill_flag: bool,
    /// An exception was raised under a catcher above the call: it is passed
    /// by without running.
    pub stopped: bool,
}

/// Call `u` lies in the branch rooted at call `root`: it is `root`, or its
/// parent lies in that branch.
pub open spec fn task_in_branch<X>(tasks: Seq<Task<X>>, root: int, u: int) -> bool
    decreases u,
{
    if u == root {
        true
    } else if !(0 <= u < tasks.len()) {
        false
    } else {
        match tasks[u].parent {
            Some(p) => if p < u {
                task_in_branch(tasks, root, p as int)
            } else {
                false
            },
            None => false,
        }
    }
}

/// A call in the branch of `root` comes no earlier than `root`.
pub(crate) proof fn lemma_task_branch_after_root<X>(tasks: Seq<Task<X>>, root: int, u: int)
    requires
        task_in_branch(tasks, root, u),
    ensures
        u >= root,
    decreases u,
{
    if u != root {
        let p = tasks[u].parent.unwrap();
        lemma_task_branch_after_root(tasks, root, p as int);
    }
}

/// Call `task`, passed by.
pub open spec fn task_stopped<X>(task: Task<X>) -> Task<X> {
    Task { stopped: true, ..task }
}

/// The calls once every call in the branch rooted at `root` is passed by.
pub open spec fn stop_branch_calls<X>(tasks: Seq<Task<X>>, root: int) -> Seq<Task<X>> {
    Seq::new(
        tasks.len(),
        |u: int|
            if task_in_branch(tasks, root, u) {
                task_stopped(tasks[u])
            } else {
                tasks[u]
            },
    )
}

/// Parents come before their children, and a catcher comes no later than the
/// calls it covers and has a parent.
pub open spec fn task_links_ok<X>(tasks: Seq<Task<X>>, t: int) -> bool {
    &&& tasks[t].parent matches Some(p) ==> p < t
    &&& tasks[t].catch matches Some(c) ==> c <= t && tasks[c as int].parent is Some
}

/// Call `task` with a new count of waiting children.
pub open spec fn task_with_children<X>(task: Task<X>, n: i32) -> Task<X> {
    Task { children: n, ..task }
}

/// What retiring call `t` does to the calls: its parent has one child less
/// waiting; a finished parent with no child left is retired in turn; an
/// unfinished one with no child left is queued again when `readd` holds. The
/// result is the calls after, the call queued (if any) and the fault met.
pub open spec fn task_destroy_outcome<X>(tasks: Seq<Task<X>>, t: int, readd: bool) -> (
    Seq<Task<X>>,
    Option<usize>,
    Option<Fault>,
)
    decreases t,
{
    if !(0 <= t < tasks.len()) {
        (tasks, None, None)
    } else {
        match tasks[t].parent {
            None => (tasks, None, None),
            Some(p) => {
                if !(p < t) {
                    (tasks, None, None)
                } else if tasks[p as int].children == i32::MIN {
                    (tasks, None, Some(Fault::CountOverflow))
                } else {
                    let pt = task_with_children(tasks[p as int], (tasks[p as int].children - 1) as i32);
                    let ts = tasks.update(p as int, pt);
                    if pt.children < 0 {
                        (ts, None, Some(Fault::IllegalChildren))
                    } else if pt.finished && pt.children == 0 {
                        task_destroy_outcome(ts, p as int, readd)
                    } else if pt.children == 0 && readd {
                        (ts, Some(p), None)
                    } else {
                        (ts, None, None)
                    }
                }
            },
        }
    }
}

/// Retiring (see `task_destroy_outcome`) turns calls `calls` and queue `q` into
/// `calls2` and `q2`, with result `r`.
pub open spec fn task_destroy_step<X>(
    calls: Seq<Task<X>>,
    q: Seq<usize>,
    t: usize,
    readd: bool,
    calls2: Seq<Task<X>>,
    q2: Seq<usize>,
    r: Result<(), Fault>,
) -> bool {
    let o = task_destroy_outcome(calls, t as int, readd);
    &&& o.2 matches Some(f) ==> r == Err::<(), Fault>(f)
    &&& o.2 is None ==> calls2 == o.0 && r is Ok
    &&& o.2 is None ==> (o.1 is None ==> q2 == q)
    &&& o.2 is None ==> (o.1 matches Some(p) ==> q2 == q.push(p))
}

/// Call `task`, marked started.
pub open spec fn task_started<X>(task: Task<X>) -> Task<X> {
    Task { started: true, ..task }
}

/// Call `task`, with its future completed or not.
pub open spec fn task_finished<X>(task: Task<X>, finished: bool) -> Task<X> {
    Task { finished, ..task }
}

/// Call `task` with its promise cancelled.
pub open spec fn task_killed<X>(task: Task<X>) -> Task<X> {
    Task { kill_flag: true, ..task }
}

/// Catcher `task` once exception `data` was raised under it.
pub open spec fn task_thrown<X>(task: Task<X>, data: X) -> Task<X> {
    Task { exception_store: Some(data), is_throwing: true, ..task }
}

/// Call `task` with its caught exception taken out.
pub open spec fn task_without_exception<X>(task: Task<X>) -> Task<X> {
    Task { exception_store: None, ..task }
}

/// Call `t` is a new call made by `parent`, covered by `catch`, with nothing
/// done yet.
pub open spec fn is_new_task<X>(t: Task<X>, is_head: bool, parent: Option<usize>, catch: Option<usize>) -> bool {
    &&& t.is_head == is_head
    &&& t.children == 0
    &&& t.parent == parent
    &&& t.catch == catch
    &&& t.exception_store is None
    &&& !t.is_throwing
    &&& !t.finished
    &&& !t.started
    &&& !t.kill_flag
    &&& !t.stopped
}

/// Retiring without queuing again never queues a call.
proof fn lemma_task_destroy_no_readd<X>(tasks: Seq<Task<X>>, t: int)
    ensures
        task_destroy_outcome(tasks, t, false).1 is None,
        task_destroy_outcome(tasks, t, false).0.len() == tasks.len(),
        forall|u: int|
            0 <= u < tasks.len() ==> (#[trigger] task_destroy_outcome(tasks, t, false).0[u]).parent
                == tasks[u].parent && task_destroy_outcome(tasks, t, false).0[u].catch
                == tasks[u].catch,
    decreases t,
{
    if 0 <= t < tasks.len() {
        if let Some(p) = tasks[t].parent {
            if p < t && tasks[p as int].children != i32::MIN {
                let pt = task_with_children(tasks[p as int], (tasks[p as int].children - 1) as i32);
                lemma_task_destroy_no_readd(tasks.update(p as int, pt), p as int);
            }
        }
    }
}

/// The first-in first-out scheduler's state.
pub struct Queue<X> {
    tasks: Vec<Task<X>>,
    vec_deque: VecDeque<usize>,
    exception_ready: bool,
    current: Option<usize>,
    last_resort_exception_container: Option<X>,
}

/// How the run goes on after a call ran.
pub enum QueueStep<X> {
    /// Take the next call from the queue.
    Continue,
    /// The run is over: an exception was raised that no catcher covers.
    Stop(Option<X>),
}

/// What to do with a call taken from the queue.
pub enum QueueBegin {
    /// Nothing: an exception passed it by.
    Skip,
    /// Run it.
    Poll,
}

impl<X> Queue<X> {
    /// The calls, indexed by their number.
    pub closed spec fn calls(&self) -> Seq<Task<X>> {
        self.tasks@
    }

    /// The calls waiting to run, front first.
    pub closed spec fn waiting(&self) -> Seq<usize> {
        self.vec_deque@
    }

    /// The call being run (the last one started).
    pub closed spec fn running(&self) -> Option<usize> {
        self.current
    }

    /// An exception was raised by the call being run.
    pub closed spec fn exception_raised(&self) -> bool {
        self.exception_ready
    }

    /// An exception raised where no catcher covers it.
    pub closed spec fn uncaught(&self) -> Option<X> {
        self.last_resort_exception_container
    }

    /// Links point at calls that exist; queued calls exist.
    pub closed spec fn wf(&self) -> bool {
        &&& forall|t: int| 0 <= t < self.tasks@.len() ==> task_links_ok(self.tasks@, t)
        &&& forall|k: int|
            0 <= k < self.vec_deque@.len() ==> #[trigger] self.vec_deque@[k] < self.tasks@.len()
        &&& self.current matches Some(c) ==> c < self.tasks@.len()
    }

    /// What a well-formed scheduler holds: calls whose links are in order,
    /// queued calls that are known, and a running call that is known.
    pub proof fn lemma_wf(&self)
        requires
            self.wf(),
        ensures
            self.calls().len() <= usize::MAX,
            forall|t: int| 0 <= t < self.calls().len() ==> task_links_ok(self.calls(), t),
            forall|k: int| 0 <= k < self.waiting().len() ==> #[trigger] self.waiting()[k] < self.calls().len(),
            self.running() matches Some(c) ==> c < self.calls().len(),
    {
        assert(self.tasks.len() == self.tasks@.len());
    }

    /// Replacing a call by one with the same links keeps every call's links.
    pub(crate) proof fn lemma_task_links_kept(tasks: Seq<Task<X>>, p: int, t2: Task<X>)
        requires
            0 <= p < tasks.len(),
            forall|t: int| 0 <= t < tasks.len() ==> task_links_ok(tasks, t),
            t2.parent == tasks[p].parent,
            t2.catch == tasks[p].catch,
        ensures
            forall|t: int| 0 <= t < tasks.len() ==> task_links_ok(tasks.update(p, t2), t),
    {
        let ts = tasks.update(p, t2);
        assert forall|t: int| 0 <= t < tasks.len() implies task_links_ok(ts, t) by {
            assert(task_links_ok(tasks, t));
            if let Some(c) = ts[t].catch {
                assert(ts[c as int].parent == tasks[c as int].parent);
            }
        }
    }

    /// An empty scheduler.
    pub fn new() -> (q: Self)
        ensures
            q.wf(),
            q.calls().len() == 0,
            q.waiting().len() == 0,
            q.running() is None,
            !q.exception_raised(),
            q.uncaught() is None,
    {
        Queue {
            tasks: Vec::new(),
            vec_deque: VecDeque::new(),
            exception_ready: false,
            current: None,
            last_resort_exception_container: None,
        }
    }

    /// The call being run, if any.
    pub fn current(&self) -> (c: Option<usize>)
        ensures
            c == self.running(),
    {
        self.current
    }

    /// What the scheduler knows of call `id`.
    pub fn task(&self, id: usize) -> (t: &Task<X>)
        requires
            id < self.calls().len(),
        ensures
            *t == self.calls()[id as int],
    {
        &self.tasks[id]
    }

    /// Takes the call at the front of the queue.
    pub fn pop(&mut self) -> (r: Option<usize>)
        requires
            old(self).wf(),
        ensures
            final(self).wf(),
            final(self).calls() == old(self).calls(),
            r == if old(self).waiting().len() > 0 {
                Some(old(self).waiting()[0])
            } else {
                None::<usize>
            },
            final(self).waiting() == if old(self).waiting().len() > 0 {
                old(self).waiting().drop_first()
            } else {
                old(self).waiting()
            },
            final(self).running() == old(self).running(),
            final(self).exception_raised() == old(self).exception_raised(),
            final(self).uncaught() == old(self).uncaught(),
    {
        let r = self.vec_deque.pop_front();
        proof {
            assert forall|k: int| 0 <= k < self.vec_deque@.len() implies #[trigger] self.vec_deque@[k]
                < self.tasks@.len() by {
                assert(self.vec_deque@[k] == old(self).vec_deque@[k + 1]);
            }
            if old(self).vec_deque@.len() > 0 {
                assert(self.vec_deque@ =~= old(self).vec_deque@.drop_first());
            }
        }
        r
    }

    /// Puts call `id` at the back of the queue.
    fn push_back(&mut self, id: usize)
        requires
            old(self).wf(),
            id < old(self).calls().len(),
        ensures
            final(self).wf(),
            final(self).calls() == old(self).calls(),
            final(self).waiting() == old(self).waiting().push(id),
            final(self).running() == old(self).running(),
            final(self).exception_raised() == old(self).exception_raised(),
            final(self).uncaught() == old(self).uncaught(),
    {
        self.vec_deque.push_back(id);
        proof {
            assert forall|k: int| 0 <= k < self.vec_deque@.len() implies #[trigger] self.vec_deque@[k]
                < self.tasks@.len() by {
                if k < old(self).vec_deque@.len() {
                    assert(self.vec_deque@[k] == old(self).vec_deque@[k]);
                }
            }
        }
    }

    /// Retires call `t`: see `task_destroy_outcome`.
    fn destroy(&mut self, t: usize, readd: bool) -> (r: Result<(), Fault>)
        requires
            old(self).wf(),
            t < old(self).calls().len(),
        ensures
            final(self).wf(),
            final(self).running() == old(self).running(),
            final(self).exception_raised() == old(self).exception_raised(),
            final(self).uncaught() == old(self).uncaught(),
            task_destroy_step(
                old(self).calls(),
                old(self).waiting(),
                t,
                readd,
                final(self).calls(),
                final(self).waiting(),
                r,
            ),
        decreases t,
    {
        proof {
            assert(task_links_ok(self.tasks@, t as int));
        }
        match self.tasks[t].parent {
            None => Ok(()),
            Some(p) => {
                if self.tasks[p].children == i32::MIN {
                    return Err(Fault::CountOverflow);
                }
                let ghost before = self.tasks@;
                self.tasks[p].children = self.tasks[p].children - 1;
                proof {
                    let pt = task_with_children(before[p as int], (before[p as int].children - 1) as i32);
                    assert(self.tasks@ =~= before.update(p as int, pt));
                    Self::lemma_task_links_kept(before, p as int, pt);
                }
                if self.tasks[p].children < 0 {
                    return Err(Fault::IllegalChildren);
                }
                if self.tasks[p].finished && self.tasks[p].children == 0 {
                    return self.destroy(p, readd);
                } else if self.tasks[p].children == 0 && readd {
                    self.push_back(p);
                }
                Ok(())
            },
        }
    }

    /// Makes a new call and puts it at the back of the queue.
    pub(crate) fn add_task(&mut self, parent: Option<usize>, catch: Option<usize>, catch_self: bool, is_head: bool) -> (id: usize)
        requires
            old(self).wf(),
            parent matches Some(p) ==> p < old(self).calls().len(),
            catch matches Some(c) ==> c < old(self).calls().len() && old(self).calls()[c as int].parent is Some,
            catch_self ==> parent is Some,
        ensures
            final(self).wf(),
            id == old(self).calls().len(),
            final(self).calls().len() == old(self).calls().len() + 1,
            final(self).calls().subrange(0, id as int) == old(self).calls(),
            is_new_task(
                final(self).calls()[id as int],
                is_head,
                parent,
                if catch_self {
                    Some(id)
                } else {
                    catch
                },
            ),
            final(self).waiting() == old(self).waiting().push(id),
            final(self).running() == old(self).running(),
            final(self).exception_raised() == old(self).exception_raised(),
            final(self).uncaught() == old(self).uncaught(),
    {
        let id = self.tasks.len();
        let task = Task {
            is_head,
            children: 0,
            parent,
            catch: if catch_self {
                Some(id)
            } else {
                catch
            },
            exception_store: None,
            is_throwing: false,
            finished: false,
            started: false,
            kill_flag: false,
            stopped: false,
        };
        self.tasks.push(task);
        proof {
            let ts = self.tasks@;
            assert forall|t: int| 0 <= t < ts.len() implies task_links_ok(ts, t) by {
                if t < old(self).tasks@.len() {
                    assert(task_links_ok(old(self).tasks@, t));
                    assert(ts[t] == old(self).tasks@[t]);
                    if let Some(c) = ts[t].catch {
                        assert(ts[c as int] == old(self).tasks@[c as int]);
                    }
                } else if let Some(c) = catch {
                    if !catch_self {
                        assert(ts[c as int] == old(self).tasks@[c as int]);
                    }
                }
            }
            assert(self.tasks@.subrange(0, id as int) =~= old(self).tasks@);
        }
        self.push_back(id);
        id
    }

    /// The scheduler's part of a run: queues the starting call (no parent, no
    /// catcher). The caller then takes calls with `pop`, decides on each with
    /// `begin_call`, runs it and reports with `end_call`, until the queue is
    /// empty or the run stops.
    pub fn run(&mut self) -> (id: usize)
        requires
            old(self).wf(),
        ensures
            final(self).wf(),
            id == old(self).calls().len(),
            final(self).calls().len() == old(self).calls().len() + 1,
            final(self).calls().subrange(0, id as int) == old(self).calls(),
            is_new_task(final(self).calls()[id as int], true, None, None),
            final(self).waiting() == old(self).waiting().push(id),
            final(self).running() == old(self).running(),
            final(self).exception_raised() == old(self).exception_raised(),
            final(self).uncaught() == old(self).uncaught(),
    {
        self.add_task(None, None, false, true)
    }

    /// Cancels the promise of call `id`.
    pub fn cancel(&mut self, id: usize)
        requires
            old(self).wf(),
            id < old(self).calls().len(),
        ensures
            final(self).wf(),
            final(self).calls() == old(self).calls().update(id as int, task_killed(old(self).calls()[id as int])),
            final(self).waiting() == old(self).waiting(),
            final(self).running() == old(self).running(),
            final(self).exception_raised() == old(self).exception_raised(),
            final(self).uncaught() == old(self).uncaught(),
    {
        let ghost before = self.tasks@;
        self.tasks[id].kill_flag = true;
        proof {
            let t2 = task_killed(before[id as int]);
            assert(self.tasks@ =~= before.update(id as int, t2));
            Self::lemma_task_links_kept(before, id as int, t2);
        }
    }

    /// Takes out the exception caught for call `id`, if any.
    pub fn take_exception(&mut self, id: usize) -> (e: Option<X>)
        requires
            old(self).wf(),
            id < old(self).calls().len(),
        ensures
            e == old(self).calls()[id as int].exception_store,
            final(self).wf(),
            final(self).calls() == old(self).calls().update(id as int, task_without_exception(old(self).calls()[id as int])),
            final(self).waiting() == old(self).waiting(),
            final(self).running() == old(self).running(),
            final(self).exception_raised() == old(self).exception_raised(),
            final(self).uncaught() == old(self).uncaught(),
    {
        let ghost before = self.tasks@;
        let e = self.tasks[id].exception_store.take();
        proof {
            let t2 = task_without_exception(before[id as int]);
            assert(self.tasks@ =~= before.update(id as int, t2));
            Self::lemma_task_links_kept(before, id as int, t2);
        }
        e
    }

    /// Marks every call in the branch rooted at `root` as passed by.
    fn stop_branch(&mut self, root: usize)
        requires
            old(self).wf(),
            root < old(self).calls().len(),
        ensures
            final(self).wf(),
            final(self).calls() == stop_branch_calls(old(self).calls(), root as int),
            final(self).waiting() == old(self).waiting(),
            final(self).running() == old(self).running(),
            final(self).exception_raised() == old(self).exception_raised(),
            final(self).uncaught() == old(self).uncaught(),
    {
        let ghost old_tasks = self.tasks@;
        let n = self.tasks.len();
        let mut marks: Vec<bool> = Vec::new();
        let mut u: usize = root;
        while u < n
            invariant
                root <= u <= n,
                n == old_tasks.len(),
                old_tasks == old(self).tasks@,
                self.tasks@.len() == n,
                marks@.len() == u - root,
                forall|k: int| 0 <= k < u - root ==> #[trigger] marks@[k] == task_in_branch(old_tasks, root as int, root + k),
                forall|v: int| 0 <= v < n ==> #[trigger] self.tasks@[v] == if root <= v < u && task_in_branch(old_tasks, root as int, v) {
                    task_stopped(old_tasks[v])
                } else {
                    old_tasks[v]
                },
                forall|t: int| 0 <= t < n ==> task_links_ok(old_tasks, t),
                self.vec_deque@ == old(self).vec_deque@,
                self.current == old(self).current,
                self.exception_ready == old(self).exception_ready,
                self.last_resort_exception_container == old(self).last_resort_exception_container,
                forall|k: int| 0 <= k < self.vec_deque@.len() ==> #[trigger] self.vec_deque@[k] < n,
                self.current matches Some(c) ==> c < n,
            decreases n - u,
        {
            proof {
                assert(task_links_ok(old_tasks, u as int));
                assert(self.tasks@[u as int] == old_tasks[u as int]);
            }
            let mut inside = u == root;
            if !inside {
                if let Some(p) = self.tasks[u].parent {
                    if p >= root {
                        inside = marks[p - root];
                    }
                }
            }
            proof {
                if u != root {
                    if let Some(p) = old_tasks[u as int].parent {
                        if p < root {
                            if task_in_branch(old_tasks, root as int, p as int) {
                                lemma_task_branch_after_root(old_tasks, root as int, p as int);
                            }
                        } else {
                            assert(marks@[p - root] == task_in_branch(old_tasks, root as int, root + (p - root)));
                        }
                    }
                }
                assert(inside == task_in_branch(old_tasks, root as int, u as int));
            }
            marks.push(inside);
            if inside {
                self.tasks[u].stopped = true;
            }
            u = u + 1;
        }
        proof {
            assert forall|v: int| 0 <= v < n implies #[trigger] self.tasks@[v] == stop_branch_calls(old_tasks, root as int)[v] by {
                if v < root && task_in_branch(old_tasks, root as int, v) {
                    lemma_task_branch_after_root(old_tasks, root as int, v);
                }
            }
            assert(self.tasks@ =~= stop_branch_calls(old_tasks, root as int));
            assert forall|t: int| 0 <= t < n implies task_links_ok(self.tasks@, t) by {
                assert(task_links_ok(old_tasks, t));
                if let Some(c) = self.tasks@[t].catch {
                    assert(self.tasks@[c as int].parent == old_tasks[c as int].parent);
                }
            }
        }
    }

    /// Decides what to do with call `id`, just taken from the queue: a call
    /// still waiting for children is a fault; a call passed by (an exception
    /// was raised under a catcher above it) is skipped; a cancelled call is a
    /// fault; one whose catcher has an exception raised under it is retired and
    /// skipped; a call raising an exception is a fault; any other call is
    /// started and becomes the running call.
    pub fn begin_call(&mut self, id: usize) -> (r: Result<QueueBegin, Fault>)
        requires
            old(self).wf(),
            id < old(self).calls().len(),
        ensures
            final(self).wf(),
            final(self).exception_raised() == old(self).exception_raised(),
            final(self).uncaught() == old(self).uncaught(),
            r is Ok ==> final(self).waiting() == old(self).waiting(),
            ({
                let t = old(self).calls()[id as int];
                let pending = t.children != 0;
                let caught = t.catch matches Some(c) && old(self).calls()[c as int].is_throwing;
                &&& pending ==> r == Err::<QueueBegin, Fault>(Fault::ChildrenPending)
                &&& !pending && t.stopped ==> r == Ok::<QueueBegin, Fault>(QueueBegin::Skip)
                    && final(self).calls() == old(self).calls() && final(self).running() == old(self).running()
                &&& !pending && !t.stopped && t.kill_flag ==> r == Err::<QueueBegin, Fault>(Fault::Cancelled)
                &&& !pending && !t.stopped && !t.kill_flag && caught ==> {
                    let c1 = old(self).calls().update(id as int, task_started(t));
                    let o = task_destroy_outcome(c1, id as int, false);
                    &&& final(self).running() == old(self).running()
                    &&& o.2 matches Some(f) ==> r == Err::<QueueBegin, Fault>(f)
                    &&& o.2 is None ==> r == Ok::<QueueBegin, Fault>(QueueBegin::Skip)
                        && final(self).calls() == o.0
                }
                &&& !pending && !t.stopped && !t.kill_flag && !caught && t.is_throwing ==> r == Err::<QueueBegin, Fault>(
                    Fault::ThrowingCall,
                )
                &&& !pending && !t.stopped && !t.kill_flag && !caught && !t.is_throwing ==> {
                    &&& r == Ok::<QueueBegin, Fault>(QueueBegin::Poll)
                    &&& final(self).calls() == old(self).calls().update(id as int, task_started(t))
                    &&& final(self).running() == Some(id)
                }
            }),
    {
        if self.tasks[id].children != 0 {
            return Err(Fault::ChildrenPending);
        }
        if self.tasks[id].stopped {
            return Ok(QueueBegin::Skip);
        }
        if self.tasks[id].kill_flag {
            return Err(Fault::Cancelled);
        }
        proof {
            assert(task_links_ok(self.tasks@, id as int));
        }
        let catch = self.tasks[id].catch;
        let mut caught = false;
        if let Some(c) = catch {
            caught = self.tasks[c].is_throwing;
        }
        if caught {
            let ghost before = self.tasks@;
            self.tasks[id].started = true;
            proof {
                let t2 = task_started(before[id as int]);
                assert(self.tasks@ =~= before.update(id as int, t2));
                Self::lemma_task_links_kept(before, id as int, t2);
                lemma_task_destroy_no_readd(self.tasks@, id as int);
            }
            self.destroy(id, false)?;
            return Ok(QueueBegin::Skip);
        }
        if self.tasks[id].is_throwing {
            return Err(Fault::ThrowingCall);
        }
        self.current = Some(id);
        let ghost before = self.tasks@;
        self.tasks[id].started = true;
        proof {
            let t2 = task_started(before[id as int]);
            assert(self.tasks@ =~= before.update(id as int, t2));
            Self::lemma_task_links_kept(before, id as int, t2);
        }
        Ok(QueueBegin::Poll)
    }

    /// `new` is the scheduler `old` once running call `id` has reported back
    /// (see `end_call`), with result `r`.
    pub open spec fn ended(old: Self, new: Self, id: usize, finished: bool, r: Result<QueueStep<X>, Fault>) -> bool {
        &&& new.wf()
        &&& new.running() == old.running()
        &&& !new.exception_raised()
        &&& ({
            let t1 = old.calls().update(id as int, task_finished(old.calls()[id as int], finished));
            let t = t1[id as int];
            &&& !old.exception_raised() ==> {
                &&& new.uncaught() == old.uncaught()
                &&& if !finished && t.children == 0 {
                    r == Ok::<QueueStep<X>, Fault>(QueueStep::Continue) && new.calls() == t1
                        && new.waiting() == old.waiting().push(id)
                } else if finished && t.children == 0 {
                    task_destroy_step(t1, old.waiting(), id, true, new.calls(), new.waiting(), unit_of(r))
                        && (r is Ok ==> r == Ok::<QueueStep<X>, Fault>(QueueStep::Continue))
                } else {
                    r == Ok::<QueueStep<X>, Fault>(QueueStep::Continue) && new.calls() == t1
                        && new.waiting() == old.waiting()
                }
            }
            &&& old.exception_raised() && t.catch is None ==> {
                &&& r == Ok::<QueueStep<X>, Fault>(QueueStep::Stop(old.uncaught()))
                &&& new.uncaught() is None
                &&& new.calls() == t1
                &&& new.waiting() == old.waiting()
            }
            &&& old.exception_raised() && t.catch is Some ==> {
                let c = t.catch.unwrap();
                let t2 = stop_branch_calls(t1, c as int);
                let o = task_destroy_outcome(t2, c as int, false);
                &&& new.uncaught() == old.uncaught()
                &&& o.2 matches Some(f) ==> r == Err::<QueueStep<X>, Fault>(f)
                &&& o.2 is None ==> {
                    let cp = o.0[c as int].parent.unwrap();
                    &&& r == Ok::<QueueStep<X>, Fault>(QueueStep::Continue)
                    &&& new.calls() == o.0
                    &&& new.waiting() == if o.0[cp as int].children == 0 {
                        old.waiting().push(cp)
                    } else {
                        old.waiting()
                    }
                }
            }
        })
    }

    /// Records what running call `id` gave: `finished` when its future
    /// completed. Without an exception, an unfinished call with no child
    /// waiting is queued again and a finished one is retired. With an exception
    /// no catcher covers, the run stops with it. With one a catcher covers,
    /// every call in the catcher's branch is passed by, the catcher (which
    /// holds the exception) is retired, and the catcher's parent is queued
    /// again when no child of it waits.
    pub fn end_call(&mut self, id: usize, finished: bool) -> (r: Result<QueueStep<X>, Fault>)
        requires
            old(self).wf(),
            id < old(self).calls().len(),
        ensures
            Self::ended(*old(self), *final(self), id, finished, r),
    {
        let ghost before = self.tasks@;
        self.tasks[id].finished = finished;
        proof {
            let t2 = task_finished(before[id as int], finished);
            assert(self.tasks@ =~= before.update(id as int, t2));
            Self::lemma_task_links_kept(before, id as int, t2);
            assert(task_links_ok(self.tasks@, id as int));
        }
        if self.exception_ready {
            self.exception_ready = false;
            match self.tasks[id].catch {
                None => {
                    let uncaught = self.last_resort_exception_container.take();
                    return Ok(QueueStep::Stop(uncaught));
                },
                Some(c) => {
                    self.stop_branch(c);
                    proof {
                        lemma_task_destroy_no_readd(self.tasks@, c as int);
                    }
                    self.destroy(c, false)?;
                    proof {
                        assert(c < self.tasks@.len());
                        assert(task_links_ok(self.tasks@, c as int));
                    }
                    let catch_parent = self.tasks[c].parent.unwrap();
                    if self.tasks[catch_parent].children == 0 {
                        self.push_back(catch_parent);
                    }
                    return Ok(QueueStep::Continue);
                },
            }
        }
        if !finished && self.tasks[id].children == 0 {
            self.push_back(id);
        } else if finished && self.tasks[id].children == 0 {
            self.destroy(id, true)?;
        }
        Ok(QueueStep::Continue)
    }
}

/// Adds a child call of the running call, at the back of the queue: the
/// running call waits for one more child, and the child is covered by the
/// running call's catcher.
pub fn add<X>(queue: &mut Queue<X>) -> (r: Result<usize, Fault>)
    requires
        old(queue).wf(),
        old(queue).running() is Some,
    ensures
        final(queue).wf(),
        final(queue).running() == old(queue).running(),
        final(queue).exception_raised() == old(queue).exception_raised(),
        final(queue).uncaught() == old(queue).uncaught(),
        ({
            let cur = old(queue).running().unwrap();
            let ct = old(queue).calls()[cur as int];
            let n = old(queue).calls().len();
            &&& ct.children == i32::MAX ==> r == Err::<usize, Fault>(Fault::CountOverflow)
                && *final(queue) == *old(queue)
            &&& ct.children < i32::MAX ==> {
                &&& r == Ok::<usize, Fault>(n as usize)
                &&& final(queue).calls().len() == n + 1
                &&& final(queue).calls().subrange(0, n as int) == old(queue).calls().update(
                    cur as int,
                    task_with_children(ct, (ct.children + 1) as i32),
                )
                &&& is_new_task(final(queue).calls()[n as int], false, Some(cur), ct.catch)
                &&& final(queue).waiting() == old(queue).waiting().push(n as usize)
            }
        }),
{
    let current = queue.current.unwrap();
    if queue.tasks[current].children == i32::MAX {
        return Err(Fault::CountOverflow);
    }
    proof {
        assert(task_links_ok(queue.tasks@, current as int));
        if let Some(c) = queue.tasks@[current as int].catch {
            assert(task_links_ok(queue.tasks@, c as int));
        }
    }
    let ghost before = queue.tasks@;
    queue.tasks[current].children = queue.tasks[current].children + 1;
    proof {
        let t2 = task_with_children(before[current as int], (before[current as int].children + 1) as i32);
        assert(queue.tasks@ =~= before.update(current as int, t2));
        Queue::<X>::lemma_task_links_kept(before, current as int, t2);
    }
    let catch = queue.tasks[current].catch;
    Ok(queue.add_task(Some(current), catch, false, false))
}

/// Adds a caught child call of the running call, at the back of the queue:
/// it is its own catcher, and the running call waits for one more child.
pub fn catch<X>(queue: &mut Queue<X>) -> (r: Result<usize, Fault>)
    requires
        old(queue).wf(),
        old(queue).running() is Some,
    ensures
        final(queue).wf(),
        final(queue).running() == old(queue).running(),
        final(queue).exception_raised() == old(queue).exception_raised(),
        final(queue).uncaught() == old(queue).uncaught(),
        ({
            let cur = old(queue).running().unwrap();
            let ct = old(queue).calls()[cur as int];
            let n = old(queue).calls().len();
            &&& ct.children == i32::MAX ==> r == Err::<usize, Fault>(Fault::CountOverflow)
                && *final(queue) == *old(queue)
            &&& ct.children < i32::MAX ==> {
                &&& r == Ok::<usize, Fault>(n as usize)
                &&& final(queue).calls().len() == n + 1
                &&& final(queue).calls().subrange(0, n as int) == old(queue).calls().update(
                    cur as int,
                    task_with_children(ct, (ct.children + 1) as i32),
                )
                &&& is_new_task(final(queue).calls()[n as int], false, Some(cur), Some(n as usize))
                &&& final(queue).waiting() == old(queue).waiting().push(n as usize)
            }
        }),
{
    let current = queue.current.unwrap();
    if queue.tasks[current].children == i32::MAX {
        return Err(Fault::CountOverflow);
    }
    let ghost before = queue.tasks@;
    queue.tasks[current].children = queue.tasks[current].children + 1;
    proof {
        let t2 = task_with_children(before[current as int], (before[current as int].children + 1) as i32);
        assert(queue.tasks@ =~= before.update(current as int, t2));
        Queue::<X>::lemma_task_links_kept(before, current as int, t2);
    }
    Ok(queue.add_task(Some(current), None, true, false))
}

/// `new` is the scheduler `old` once its running call raised exception
/// `data` (see `throw_internal`).
pub open spec fn thrown<X>(old: Queue<X>, new: Queue<X>, data: X) -> bool {
    &&& new.wf()
    &&& new.exception_raised()
    &&& new.running() == old.running()
    &&& new.waiting() == old.waiting()
    &&& ({
        let cur = old.running().unwrap();
        match old.calls()[cur as int].catch {
            None => new.calls() == old.calls() && new.uncaught()
                == Some(data),
            Some(c) => new.uncaught() == old.uncaught() && new.calls()
                == old.calls().update(c as int, task_thrown(old.calls()[c as int], data)),
        }
    })
}

/// The running call raises exception `data`. With no catcher covering it,
/// `data` becomes the uncaught exception; otherwise the catcher stores it
/// and is marked as raising. Either way the raise is recorded for
/// `end_call`.
pub fn throw_internal<X>(data: X, queue: &mut Queue<X>)
    requires
        old(queue).wf(),
        old(queue).running() is Some,
    ensures
        thrown(*old(queue), *final(queue), data),
{
    let current = queue.current.unwrap();
    proof {
        assert(task_links_ok(queue.tasks@, current as int));
    }
    match queue.tasks[current].catch {
        None => {
            queue.last_resort_exception_container = Some(data);
        },
        Some(c) => {
            let ghost before = queue.tasks@;
            queue.tasks[c].exception_store = Some(data);
            queue.tasks[c].is_throwing = true;
            proof {
                let t2 = task_thrown(before[c as int], data);
                assert(queue.tasks@ =~= before.update(c as int, t2));
                Queue::<X>::lemma_task_links_kept(before, c as int, t2);
            }
        },
    }
    queue.exception_ready = true;
}

} // verus!
