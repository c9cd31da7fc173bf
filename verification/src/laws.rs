//! Properties of the library that span several operations.
use crate::heap::{Heap, ranks_before, rest_after_front};
use crate::scheduler::{
    cancel_selected_calls, destroy_outcome, enqueued, in_branch, kill_branch_calls, links_ok,
    push_step, resume_step, select_cancelled, with_value, PriorityTask, PriorityQueue,
};
use crate::tree::{contents, inserted, ordered, Node};
use crate::graph::Graph;
use crate::priority::{Priority, SelectMatch, UnwrappedPriorityExceptionSelect};
use vstd::multiset::Multiset;
use vstd::prelude::*;

verus! {

broadcast use {vstd::multiset::group_multiset_axioms, vstd::multiset::group_multiset_properties};

/// First in, first out: in first-in first-out mode, two entries pushed onto an
/// empty queue come out in the order they went in.
pub proof fn law_fifo_order<V: Copy>(
    h0: Heap<V>,
    h1: Heap<V>,
    h2: Heap<V>,
    h3: Heap<V>,
    h4: Heap<V>,
    a: (i64, V),
    b: (i64, V),
    r1: Option<(i64, V)>,
    r2: Option<(i64, V)>,
)
    requires
        h0.serves_fifo(),
        h0.fifo().len() == 0,
        Heap::pushed_back(h0, h1, a),
        Heap::pushed_back(h1, h2, b),
        Heap::popped(h2, h3, r1),
        Heap::popped(h3, h4, r2),
    ensures
        r1 == Some(a),
        r2 == Some(b),
        h4.fifo().len() == 0,
{
    assert(h1.fifo() =~= seq![a]);
    assert(h2.fifo() =~= seq![a, b]);
    assert(h3.fifo() =~= seq![b]);
}

/// A smaller-first queue gives back the smaller of two keys first, a
/// larger-first queue the larger (when nothing is in front).
pub proof fn law_ranked_order<V: Copy>(
    h0: Heap<V>,
    h1: Heap<V>,
    h2: Heap<V>,
    h3: Heap<V>,
    a: (i64, V),
    b: (i64, V),
    r: Option<(i64, V)>,
)
    requires
        !h0.serves_fifo(),
        h0.now_slot().len() == 0,
        h0.ranked().len() == 0,
        Heap::pushed_back(h0, h1, a),
        Heap::pushed_back(h1, h2, b),
        Heap::popped(h2, h3, r),
    ensures
        r matches Some(e) && ranks_before(h0.serves_max(), e.0, a.0) && ranks_before(
            h0.serves_max(),
            e.0,
            b.0,
        ),
        !h0.serves_max() ==> r.unwrap().0 == if a.0 <= b.0 {
            a.0
        } else {
            b.0
        },
        h0.serves_max() ==> r.unwrap().0 == if a.0 >= b.0 {
            a.0
        } else {
            b.0
        },
{
    assert(h0.ranked() =~= Multiset::empty());
    assert(h2.ranked().contains(a));
    assert(h2.ranked().contains(b));
    assert(h2.ranked().len() == 2);
}

/// A call queued with priority `Now` is the next one taken from the queue.
pub proof fn law_now_runs_next(
    q: Heap<usize>,
    q2: Heap<usize>,
    q3: Heap<usize>,
    id: usize,
    r: Option<(i64, usize)>,
)
    requires
        q.serves_fifo() || q.now_slot().len() == 0,
        enqueued(q, q2, Priority::Now, id),
        Heap::popped(q2, q3, r),
    ensures
        r matches Some(e) && e.1 == id,
{
    if q.serves_fifo() {
        assert((seq![(0i64, id)] + q.fifo())[0] == (0i64, id));
    }
}

/// Push then pop: the size grows by one, and the next pop gives the front of
/// the first-in first-out queue (the entry itself if the queue was empty), or,
/// in the ranked modes with nothing in front, an entry of the old entries and
/// the new one whose key ranks before all of them, leaving the others.
pub proof fn law_push_then_pop<V: Copy>(h0: Heap<V>, h1: Heap<V>, h2: Heap<V>, v: (i64, V), r: Option<(i64, V)>)
    requires
        h0.wf(),
        !h0.serves_fifo() ==> h0.now_slot().len() == 0,
        Heap::pushed_back(h0, h1, v),
        Heap::popped(h1, h2, r),
    ensures
        h1.size() == h0.size() + 1,
        h0.serves_fifo() ==> {
            &&& r == Some(if h0.fifo().len() > 0 {
                h0.fifo()[0]
            } else {
                v
            })
            &&& h2.fifo() == h0.fifo().push(v).drop_first()
        },
        !h0.serves_fifo() ==> (r matches Some(e) && {
            let all = h0.ranked().insert(v);
            &&& all.contains(e)
            &&& forall|x: (i64, V)| #[trigger] all.contains(x) ==> ranks_before(h0.serves_max(), e.0, x.0)
            &&& h2.ranked() == all.remove(e)
            &&& h2.now_slot().len() == 0
        }),
{
    h0.lemma_wf_parts();
    h1.lemma_wf_parts();
    if h0.serves_fifo() {
        if h0.fifo().len() > 0 {
            assert(h1.fifo()[0] == h0.fifo()[0]);
        } else {
            assert(h1.fifo() =~= seq![v]);
        }
    } else {
        assert(h1.ranked().contains(v));
        assert(h1.ranked().len() > 0);
    }
}

/// Push in front then pop: the pop gives the entry pushed, and leaves the
/// queue as it was before the push, the arrangement of its slots included.
pub proof fn law_push_start_then_pop<V: Copy>(h0: Heap<V>, h1: Heap<V>, h2: Heap<V>, v: (i64, V), r: Option<(i64, V)>)
    requires
        h0.wf(),
        h0.serves_fifo() || h0.now_slot().len() == 0,
        Heap::pushed_front(h0, h1, v),
        Heap::popped(h1, h2, r),
    ensures
        r == Some(v),
        h2.serves_max() == h0.serves_max(),
        h2.serves_fifo() == h0.serves_fifo(),
        h2.now_slot() == h0.now_slot(),
        h2.slots() == h0.slots(),
        h2.ranked() == h0.ranked(),
        h2.fifo() == h0.fifo(),
        h2.size() == h0.size(),
{
    h0.lemma_wf_parts();
    if h0.serves_fifo() {
        assert((seq![v] + h0.fifo())[0] == v);
        assert(rest_after_front(seq![v] + h0.fifo()) =~= h0.fifo());
    } else {
        assert(h2.now_slot() =~= h0.now_slot());
    }
}

/// Every push adds one entry and every pop of a non-empty queue takes one.
pub proof fn law_size<V: Copy>(h0: Heap<V>, h1: Heap<V>, h2: Heap<V>, e: (i64, V), r: Option<(i64, V)>)
    requires
        h0.wf(),
        Heap::pushed_back(h0, h1, e) || (Heap::pushed_front(h0, h1, e) && (h0.serves_fifo()
            || h0.now_slot().len() == 0)),
        Heap::popped(h1, h2, r),
    ensures
        h1.size() == h0.size() + 1,
        r is Some,
        h2.size() == h0.size(),
{
    h0.lemma_wf_parts();
    h1.lemma_wf_parts();
    if h1.serves_fifo() {
        assert(h1.fifo().len() == h0.fifo().len() + 1);
        assert(h2.fifo().len() == h1.fifo().len() - 1);
    } else if h1.now_slot().len() == 0 {
        assert(h1.ranked().len() == h0.ranked().len() + 1);
        assert(h1.ranked().contains(e));
        assert(h1.ranked().len() > 0);
        let x = r.unwrap();
        assert(h1.ranked().contains(x));
        assert(h2.ranked().len() == h1.ranked().len() - 1);
    } else {
        assert(h2.now_slot().len() == 0);
    }
}

/// Joining: when the last child a call waits for is retired, and the call has
/// not finished and waits for no selected child, the call is queued again.
pub proof fn law_last_child_resumes_parent<X>(calls: Seq<PriorityTask<X>>, t: int)
    requires
        0 <= t < calls.len(),
        calls[t].parent matches Some(p) && p < t && !calls[t].is_select_head
            && calls[p as int].children_count == 1 && !calls[p as int].finished
            && calls[p as int].select_count == 0,
    ensures
        destroy_outcome(calls, t, true).1 == calls[t].parent,
        destroy_outcome(calls, t, true).2 is None,
        destroy_outcome(calls, t, true).0[calls[t].parent.unwrap() as int].children_count == 0,
{
}

/// Select: an exception in one selected call cancels every call in the
/// branches of the selected siblings.
pub proof fn law_selected_branches_cancelled<X>(calls: Seq<PriorityTask<X>>, cp: int, u: int)
    requires
        0 <= u < calls.len(),
        select_cancelled(calls, cp, u),
    ensures
        cancel_selected_calls(calls, cp)[u].killed,
        cancel_selected_calls(calls, cp)[u].started,
{
}

/// Reading a call's priority after setting it gives the value set.
pub proof fn law_read_after_set<X>(q1: PriorityQueue<X>, q2: PriorityQueue<X>, value: Priority<i64>)
    requires
        q1.running() matches Some(cur) && cur < q1.calls().len(),
        q2.calls() == q1.calls().update(
            q1.running().unwrap() as int,
            with_value(q1.calls()[q1.running().unwrap() as int], value),
        ),
    ensures
        q2.calls()[q1.running().unwrap() as int].value == value,
{
}

/// A call in the branch of `root` comes no earlier than `root`.
pub proof fn law_branch_after_root<X>(calls: Seq<PriorityTask<X>>, root: int, u: int)
    requires
        in_branch(calls, root, u),
    ensures
        u >= root,
    decreases u,
{
    if u != root {
        let p = calls[u].parent.unwrap();
        law_branch_after_root(calls, root, p as int);
    }
}

/// Catching: when an exception raised under caught call `c` (not a selected
/// one) is handled, every call in the branch of `c` is cancelled, `c` is
/// retired still holding the exception, and `c`'s parent, not finished, waits
/// for one child less: when it then waits for none it is queued again with the
/// priority it then has (the one the raise set, unless raised "whenever"), and
/// otherwise the call queue is untouched.
pub proof fn law_caught_exception_resumes_parent<X>(calls: Seq<PriorityTask<X>>, c: int)
    requires
        0 <= c < calls.len(),
        calls.len() <= usize::MAX,
        forall|t: int| 0 <= t < calls.len() ==> links_ok(calls, t),
        !calls[c].is_select,
        calls[c].parent matches Some(cp) && calls[cp as int].children_count >= 1
            && !calls[cp as int].finished,
    ensures
        ({
            let cp = calls[c].parent.unwrap();
            let n = calls[cp as int].children_count;
            let o = destroy_outcome(kill_branch_calls(calls, c), c, false);
            &&& o.2 is None
            &&& o.0.len() == calls.len()
            &&& o.0[c].retired
            &&& o.0[c].parent == calls[c].parent
            &&& o.0[c].exception_store == calls[c].exception_store
            &&& forall|u: int| 0 <= u < calls.len() && in_branch(calls, c, u) ==> #[trigger] o.0[u].killed
                && o.0[u].started
            &&& o.0[cp as int].children_count == n - 1
            &&& o.0[cp as int].value == calls[cp as int].value
            &&& forall|q: Heap<usize>, q2: Heap<usize>, calls2: Seq<PriorityTask<X>>, r: Result<(), crate::scheduler::Fault>|
                #[trigger] resume_step(o.0, q, cp, calls2, q2, r) ==> calls2 == o.0 && (n == 1 ==> push_step(
                    o.0,
                    q,
                    cp,
                    q2,
                    r,
                ) && (r is Ok ==> enqueued(q, q2, calls[cp as int].value, cp))) && (n > 1 ==> q2 == q
                    && r is Ok)
        }),
{
    let cp = calls[c].parent.unwrap();
    assert(links_ok(calls, c));
    let t2 = kill_branch_calls(calls, c);
    if in_branch(calls, c, cp as int) {
        law_branch_after_root(calls, c, cp as int);
    }
    assert(t2[cp as int] == calls[cp as int]);
    let t3 = t2.update(c, crate::scheduler::with_retired(t2[c]));
    assert(t3[c].parent == Some(cp));
    assert(!t3[c].is_select_head);
    let o = destroy_outcome(t2, c, false);
    assert(o.0 == t3.update(
        cp as int,
        crate::scheduler::with_children_count(t3[cp as int], (t3[cp as int].children_count - 1) as i32),
    ));
    assert forall|u: int| 0 <= u < calls.len() && in_branch(calls, c, u) implies #[trigger] o.0[u].killed
        && o.0[u].started by {
        law_branch_after_root(calls, c, u);
    }
}

/// The children a call waits for, retired one after another (each re-queuing
/// its parent when it is the last): the calls after, and the calls queued.
pub open spec fn retire_each<X>(calls: Seq<PriorityTask<X>>, kids: Seq<usize>) -> (
    Seq<PriorityTask<X>>,
    Seq<usize>,
)
    decreases kids.len(),
{
    if kids.len() == 0 {
        (calls, Seq::empty())
    } else {
        let o = destroy_outcome(calls, kids[0] as int, true);
        let rest = retire_each(o.0, kids.drop_first());
        (
            rest.0,
            match o.1 {
                Some(p) => seq![p] + rest.1,
                None => rest.1,
            },
        )
    }
}

/// Joining over a whole run: a call that has not finished, waits for `n`
/// plain children and no selected one, is queued again exactly once, after
/// the last of the `n` children is retired, and no sooner.
pub proof fn law_join_resumes_after_all_children<X>(calls: Seq<PriorityTask<X>>, p: usize, kids: Seq<usize>)
    requires
        p < calls.len(),
        kids.len() >= 1,
        !calls[p as int].finished,
        calls[p as int].select_count == 0,
        calls[p as int].children_count == kids.len(),
        forall|i: int|
            0 <= i < kids.len() ==> p < #[trigger] kids[i] < calls.len() && calls[kids[i] as int].parent
                == Some(p) && !calls[kids[i] as int].is_select_head,
    ensures
        retire_each(calls, kids).1 == seq![p],
        retire_each(calls, kids).0[p as int].children_count == 0,
    decreases kids.len(),
{
    let k = kids[0] as int;
    let t3 = calls.update(k, crate::scheduler::with_retired(calls[k]));
    let o = destroy_outcome(calls, k, true);
    let pt2 = crate::scheduler::with_children_count(t3[p as int], (t3[p as int].children_count - 1) as i32);
    assert(o.0 == t3.update(p as int, pt2));
    if kids.len() == 1 {
        assert(o.1 == Some(p));
        assert(kids.drop_first().len() == 0);
        assert(retire_each(o.0, kids.drop_first()).1 =~= Seq::<usize>::empty());
        assert(seq![p] + Seq::<usize>::empty() =~= seq![p]);
    } else {
        assert(o.1 is None);
        let rest = kids.drop_first();
        assert forall|i: int| 0 <= i < rest.len() implies p < #[trigger] rest[i] < o.0.len()
            && o.0[rest[i] as int].parent == Some(p) && !o.0[rest[i] as int].is_select_head by {
            assert(rest[i] == kids[i + 1]);
        }
        law_join_resumes_after_all_children(o.0, p, rest);
    }
}

/// A step on a call queue: a push, a push in front (with the front free), or
/// a pop with what it gave.
pub enum HeapOp<V> {
    Push((i64, V)),
    PushStart((i64, V)),
    Pop(Option<(i64, V)>),
}

/// `h2` is `h` after `op`.
pub open spec fn heap_op<V: Copy>(h: Heap<V>, h2: Heap<V>, op: HeapOp<V>) -> bool {
    match op {
        HeapOp::Push(e) => Heap::pushed_back(h, h2, e),
        HeapOp::PushStart(e) => (h.serves_fifo() || h.now_slot().len() == 0) && Heap::pushed_front(h, h2, e),
        HeapOp::Pop(r) => Heap::popped(h, h2, r),
    }
}

/// How many entries the steps add, less those taken.
pub open spec fn ops_delta<V>(ops: Seq<HeapOp<V>>) -> int
    decreases ops.len(),
{
    if ops.len() == 0 {
        0
    } else {
        ops_delta(ops.drop_last()) + match ops.last() {
            HeapOp::Push(_) => 1int,
            HeapOp::PushStart(_) => 1int,
            HeapOp::Pop(Some(_)) => -1int,
            HeapOp::Pop(None) => 0int,
        }
    }
}

/// One step changes the size by its own count, and a pop gives nothing
/// exactly when the queue is empty.
proof fn lemma_heap_op_size<V: Copy>(h: Heap<V>, h2: Heap<V>, op: HeapOp<V>)
    requires
        h.wf(),
        heap_op(h, h2, op),
    ensures
        h2.wf(),
        h2.size() == h.size() + match op {
            HeapOp::Push(_) => 1int,
            HeapOp::PushStart(_) => 1int,
            HeapOp::Pop(Some(_)) => -1int,
            HeapOp::Pop(None) => 0int,
        },
        op matches HeapOp::Pop(r) ==> (r is None <==> h.size() == 0),
{
    h.lemma_wf_parts();
    h2.lemma_wf_parts();
    match op {
        HeapOp::Push(e) => {
            if !h.serves_fifo() {
                assert(h2.ranked().len() == h.ranked().len() + 1);
            }
        },
        HeapOp::PushStart(e) => {},
        HeapOp::Pop(r) => {
            if !h.serves_fifo() && h.now_slot().len() == 0 {
                if let Some(x) = r {
                    assert(h.ranked().contains(x));
                    assert(h2.ranked().len() == h.ranked().len() - 1);
                }
            }
        },
    }
}

/// Length over any run of pushes, pushes in front and pops: the size is the
/// starting size plus the entries added less the entries taken, and every pop
/// gives nothing exactly when the queue was empty.
pub proof fn law_size_over_steps<V: Copy>(hs: Seq<Heap<V>>, ops: Seq<HeapOp<V>>)
    requires
        hs.len() == ops.len() + 1,
        hs[0].wf(),
        forall|i: int| 0 <= i < ops.len() ==> heap_op(hs[i], hs[i + 1], #[trigger] ops[i]),
    ensures
        hs.last().wf(),
        hs.last().size() == hs[0].size() + ops_delta(ops),
        forall|i: int|
            0 <= i < ops.len() ==> (#[trigger] ops[i] matches HeapOp::Pop(r) ==> (r is None
                <==> hs[i].size() == 0)),
    decreases ops.len(),
{
    if ops.len() > 0 {
        let n = ops.len() - 1;
        let hs1 = hs.drop_last();
        let ops1 = ops.drop_last();
        assert forall|i: int| 0 <= i < ops1.len() implies heap_op(hs1[i], hs1[i + 1], #[trigger] ops1[i]) by {
            assert(heap_op(hs[i], hs[i + 1], ops[i]));
        }
        law_size_over_steps(hs1, ops1);
        assert(heap_op(hs[n], hs[n + 1], ops[n]));
        lemma_heap_op_size(hs[n], hs[n + 1], ops[n]);
        assert forall|i: int| 0 <= i < ops.len() implies (#[trigger] ops[i] matches HeapOp::Pop(r) ==> (r is None
            <==> hs[i].size() == 0)) by {
            if i < n {
                assert(ops1[i] == ops[i]);
                assert(hs1[i] == hs[i]);
            }
        }
    }
}

/// The values of a tree, left subtree first, then the node, then the right
/// subtree.
pub open spec fn in_order(node: Option<Box<Node>>) -> Seq<i64>
    decreases node,
{
    match node {
        None => Seq::empty(),
        Some(n) => in_order(n.left) + seq![n.value] + in_order(n.right),
    }
}

/// The in-order walk holds the values of the tree.
pub proof fn law_in_order_holds_contents(node: Option<Box<Node>>, v: i64)
    ensures
        in_order(node).contains(v) <==> contents(node).contains(v),
    decreases node,
{
    if let Some(n) = node {
        law_in_order_holds_contents(n.left, v);
        law_in_order_holds_contents(n.right, v);
        let l = in_order(n.left);
        let r = in_order(n.right);
        let s = in_order(node);
        assert(s == l + seq![n.value] + r);
        if s.contains(v) {
            let i = choose|i: int| 0 <= i < s.len() && s[i] == v;
            if i < l.len() {
                assert(l[i] == v);
            } else if i > l.len() {
                assert(r[i - l.len() - 1] == v);
            }
        }
        if l.contains(v) {
            let i = choose|i: int| 0 <= i < l.len() && l[i] == v;
            assert(s[i] == v);
        }
        if r.contains(v) {
            let i = choose|i: int| 0 <= i < r.len() && r[i] == v;
            assert(s[l.len() + 1 + i] == v);
        }
        if v == n.value {
            assert(s[l.len() as int] == v);
        }
    }
}

/// An ordered tree walked in order gives its values sorted.
pub proof fn law_in_order_sorted(node: Option<Box<Node>>)
    requires
        ordered(node),
    ensures
        forall|i: int, j: int| 0 <= i < j < in_order(node).len() ==> in_order(node)[i] <= in_order(node)[j],
    decreases node,
{
    if let Some(n) = node {
        law_in_order_sorted(n.left);
        law_in_order_sorted(n.right);
        let l = in_order(n.left);
        let r = in_order(n.right);
        let s = in_order(node);
        assert(s == l + seq![n.value] + r);
        assert forall|i: int, j: int| 0 <= i < j < s.len() implies s[i] <= s[j] by {
            if i < l.len() {
                law_in_order_holds_contents(n.left, l[i]);
                assert(l.contains(l[i]));
                assert(s[i] < n.value);
            }
            if j > l.len() {
                let rj = j - l.len() - 1;
                law_in_order_holds_contents(n.right, r[rj]);
                assert(r.contains(r[rj]));
                assert(s[j] >= n.value);
            }
        }
    }
}

/// A tree built by adding values one by one stays sorted in order.
pub proof fn law_added_tree_sorted(node: Option<Box<Node>>, v: i64)
    requires
        ordered(node),
    ensures
        forall|i: int, j: int|
            0 <= i < j < in_order(inserted(node, v)).len() ==> in_order(inserted(node, v))[i]
                <= in_order(inserted(node, v))[j],
        in_order(inserted(node, v)).contains(v),
{
    crate::tree::lemma_inserted_ordered(node, v);
    crate::tree::lemma_inserted_contents(node, v);
    law_in_order_sorted(inserted(node, v));
    law_in_order_holds_contents(inserted(node, v), v);
}

/// Reading a selected call: an exception raised in its branch comes first;
/// without one, a finished call gives its value, and only a call that did not
/// finish reads as interrupted. Nothing else of the promise (whether it was
/// cancelled, for one) changes what is read.
pub proof fn law_select_outcome<T, X>(
    s: UnwrappedPriorityExceptionSelect<T, X>,
    s2: UnwrappedPriorityExceptionSelect<T, X>,
)
    requires
        s.readable(),
    ensures
        s.inner().exception matches Some(e) ==> s.outcome() == SelectMatch::<T, X>::Exception(e),
        s.inner().exception is None && s.inner().promise.is_finished ==> (s.inner().promise.data matches Some(d)
            && s.outcome() == SelectMatch::<T, X>::Returned(d)),
        s.inner().exception is None && !s.inner().promise.is_finished ==> s.outcome() is Interrupted,
        s2.inner().exception == s.inner().exception && s2.inner().promise.is_finished
            == s.inner().promise.is_finished && s2.inner().promise.data == s.inner().promise.data
            ==> s2.outcome() == s.outcome(),
{
}

/// The branches below `n` are the open neighbours below `n`, in order, each
/// at `cost` plus its edge's weight.
proof fn lemma_branches_below(g: Graph, a: int, visited: Seq<bool>, cost: i64, n: int)
    requires
        -0x4000_0000_0000_0000 <= cost <= 0x4000_0000_0000_0000,
        0 <= n <= g.size(),
        g.size() <= usize::MAX,
    ensures
        forall|i: int|
            0 <= i < n && i != a && !visited[i] && g.edge(a, i) is Some ==> g.branches_below(
                a,
                visited,
                cost,
                n,
            ).contains((i as usize, (cost + g.edge(a, i).unwrap()) as i64)),
        forall|k: int|
            0 <= k < g.branches_below(a, visited, cost, n).len() ==> {
                let (i, c) = #[trigger] g.branches_below(a, visited, cost, n)[k];
                &&& i < n
                &&& i != a
                &&& !visited[i as int]
                &&& g.edge(a, i as int) matches Some(w) && c == cost + w
            },
        forall|k: int, m: int|
            0 <= k < m < g.branches_below(a, visited, cost, n).len() ==> (#[trigger] g.branches_below(
                a,
                visited,
                cost,
                n,
            )[k]).0 < (#[trigger] g.branches_below(a, visited, cost, n)[m]).0,
    decreases n,
{
    if n > 0 {
        lemma_branches_below(g, a, visited, cost, n - 1);
        let earlier = g.branches_below(a, visited, cost, n - 1);
        let all = g.branches_below(a, visited, cost, n);
        assert forall|i: int|
            0 <= i < n && i != a && !visited[i] && g.edge(a, i) is Some implies all.contains(
            (i as usize, (cost + g.edge(a, i).unwrap()) as i64),
        ) by {
            if i < n - 1 {
                let k = choose|k: int|
                    0 <= k < earlier.len() && earlier[k] == (i as usize, (cost + g.edge(a, i).unwrap()) as i64);
                assert(all[k] == earlier[k]);
            } else {
                assert(all[earlier.len() as int] == (i as usize, (cost + g.edge(a, i).unwrap()) as i64));
            }
        }
    }
}

/// One step of the search at `a` towards `b` takes in every neighbour of `a`
/// that is not `a` and has not been visited: the target, when it is such a
/// neighbour, is reported reached; every other such neighbour (below the
/// target, when the target is reached) is a branch at `cost` plus its edge's
/// weight. The branches are such neighbours alone, in increasing order, and
/// the target is reported reached only when it is such a neighbour.
pub proof fn law_expand_takes_every_open_neighbour(
    g: Graph,
    a: usize,
    b: usize,
    visited: Seq<bool>,
    cost: i64,
    reaches_target: bool,
    branches: Seq<(usize, i64)>,
)
    requires
        a < g.size(),
        b < g.size(),
        g.size() <= usize::MAX,
        visited.len() == g.size(),
        -0x4000_0000_0000_0000 <= cost <= 0x4000_0000_0000_0000,
        reaches_target == g.open_neighbour(a as int, visited.update(a as int, true), b as int),
        branches == g.branches_below(
            a as int,
            visited.update(a as int, true),
            cost,
            if reaches_target {
                b as int
            } else {
                g.size() as int
            },
        ),
    ensures
        reaches_target <==> (b != a && !visited[b as int] && g.edge(a as int, b as int) is Some),
        forall|i: int|
            0 <= i < g.size() && i != a && !visited[i] && g.edge(a as int, i) is Some && !(reaches_target
                && b <= i) ==> branches.contains((i as usize, (cost + g.edge(a as int, i).unwrap()) as i64)),
        forall|k: int|
            0 <= k < branches.len() ==> {
                let (i, c) = #[trigger] branches[k];
                &&& i < g.size()
                &&& i != a
                &&& !visited[i as int]
                &&& (reaches_target ==> i < b)
                &&& g.edge(a as int, i as int) matches Some(w) && c == cost + w
            },
        forall|k: int, m: int| 0 <= k < m < branches.len() ==> (#[trigger] branches[k]).0 < (#[trigger] branches[m]).0,
{
    let v1 = visited.update(a as int, true);
    let n = if reaches_target {
        b as int
    } else {
        g.size() as int
    };
    lemma_branches_below(g, a as int, v1, cost, n);
    assert forall|i: int| 0 <= i < g.size() && i != a implies v1[i] == visited[i] by {}
}

} // verus!
