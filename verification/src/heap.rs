//! The call queue of the scheduler: a binary heap ordered by an integer key
//! (smallest first or largest first), with a one-entry "now" slot that is
//! always served first, or, in first-in first-out mode, a double-ended queue.
use std::collections::VecDeque;
use vstd::multiset::Multiset;
use vstd::prelude::*;
use vstd::seq_lib::group_to_multiset_ensures;

verus! {

broadcast use group_to_multiset_ensures;

/// `a` may stand above `b` in the heap: with `is_max` the larger key comes first,
/// otherwise the smaller one.
pub open spec fn ranks_before(is_max: bool, a: i64, b: i64) -> bool {
    if is_max {
        a >= b
    } else {
        a <= b
    }
}

/// What stays of a sequence once its front entry, if any, is taken.
pub open spec fn rest_after_front<A>(s: Seq<A>) -> Seq<A> {
    if s.len() > 0 {
        s.drop_first()
    } else {
        s
    }
}

/// Index of the parent of slot `i` (for `i > 0`).
pub open spec fn parent_of(i: int) -> int {
    (i - 1) / 2
}

/// Every slot but the root ranks after its parent.
pub open spec fn heap_ordered<V>(is_max: bool, s: Seq<(i64, V)>) -> bool {
    forall|j: int| 0 < j < s.len() ==> ranks_before(is_max, #[trigger] s[parent_of(j)].0, s[j].0)
}

/// Slots `i` and `j` of `s` exchanged.
pub open spec fn swapped<V>(s: Seq<(i64, V)>, i: int, j: int) -> Seq<(i64, V)> {
    s.update(i, s[j]).update(j, s[i])
}

/// The slots once the entry at slot `i` has moved up, past each parent that
/// its key outranks.
pub open spec fn sifted_up<V>(is_max: bool, s: Seq<(i64, V)>, i: int) -> Seq<(i64, V)>
    decreases i,
{
    if 0 < i < s.len() && !ranks_before(is_max, s[parent_of(i)].0, s[i].0) {
        sifted_up(is_max, swapped(s, i, parent_of(i)), parent_of(i))
    } else {
        s
    }
}

/// The slots once the entry at slot `i` has moved down, each time below its
/// higher-ranking child (the left one when neither outranks the other), as
/// long as that child's key outranks its own.
pub open spec fn sifted_down<V>(is_max: bool, s: Seq<(i64, V)>, i: int) -> Seq<(i64, V)>
    decreases s.len() - i,
{
    let l = 2 * i + 1;
    let r = 2 * i + 2;
    if i < 0 || l >= s.len() {
        s
    } else {
        let c = if r < s.len() && !ranks_before(is_max, s[l].0, s[r].0) {
            r
        } else {
            l
        };
        if !ranks_before(is_max, s[i].0, s[c].0) {
            sifted_down(is_max, swapped(s, i, c), c)
        } else {
            s
        }
    }
}

/// The slots once the root entry is taken: the last slot moves to the root
/// and sifts down.
pub open spec fn root_taken<V>(is_max: bool, s: Seq<(i64, V)>) -> Seq<(i64, V)> {
    if s.len() <= 1 {
        Seq::empty()
    } else {
        sifted_down(is_max, s.drop_last().update(0, s.last()), 0)
    }
}

/// Index of the parent of slot `i`.
pub fn parent(i: usize) -> (p: usize)
    requires
        i > 0,
    ensures
        p == parent_of(i as int),
        p < i,
{
    (i - 1) / 2
}

/// Index of the left child of slot `i`.
pub fn left(i: usize) -> (l: usize)
    requires
        i * 2 + 1 <= usize::MAX,
    ensures
        l == i * 2 + 1,
{
    i * 2 + 1
}

/// Index of the right child of slot `i`.
pub fn right(i: usize) -> (r: usize)
    requires
        i * 2 + 2 <= usize::MAX,
    ensures
        r == i * 2 + 2,
{
    i * 2 + 2
}

/// `a` strictly outranks `b`: it would have to move above `b`.
fn outranks(is_max: bool, a: i64, b: i64) -> (r: bool)
    ensures
        r == !ranks_before(is_max, b, a),
{
    if is_max {
        a > b
    } else {
        a < b
    }
}

/// The root of a heap-ordered sequence ranks before every entry.
pub proof fn lemma_root_ranks_first<V>(is_max: bool, s: Seq<(i64, V)>, j: int)
    requires
        heap_ordered(is_max, s),
        0 <= j < s.len(),
    ensures
        ranks_before(is_max, s[0].0, s[j].0),
    decreases j,
{
    if j > 0 {
        let p = parent_of(j);
        lemma_root_ranks_first(is_max, s, p);
        assert(ranks_before(is_max, s[p].0, s[j].0));
    }
}

/// A call queue. Entries are pairs of a key and a payload.
pub struct Heap<V> {
    data: Vec<(i64, V)>,
    start: Vec<(i64, V)>,
    is_max: bool,
    is_queue: bool,
    vec_deque: VecDeque<(i64, V)>,
}

impl<V: Copy> Heap<V> {
    /// Internal consistency: the mode flags agree with the storage in use,
    /// the "now" slot holds at most one entry and the ranked part is heap-ordered.
    pub closed spec fn wf(&self) -> bool {
        &&& !(self.is_max && self.is_queue)
        &&& self.is_queue ==> self.data@.len() == 0 && self.start@.len() == 0
        &&& !self.is_queue ==> self.vec_deque@.len() == 0
        &&& self.start@.len() <= 1
        &&& self.data@.len() + self.start@.len() <= usize::MAX
        &&& heap_ordered(self.is_max, self.data@)
    }

    /// The "now" slot holds at most one entry, and first-in first-out mode uses
    /// neither it nor the ranked part.
    pub proof fn lemma_wf_parts(&self)
        requires
            self.wf(),
        ensures
            self.now_slot().len() <= 1,
            self.serves_fifo() ==> self.now_slot().len() == 0 && self.ranked().len() == 0,
            !self.serves_fifo() ==> self.fifo().len() == 0,
            self.ranked().len() == self.slots().len(),
            forall|k: int| 0 <= k < self.slots().len() ==> self.ranked().contains(#[trigger] self.slots()[k]),
            forall|e: (i64, V)| #[trigger] self.ranked().contains(e) ==> self.slots().contains(e),
            heap_ordered(self.serves_max(), self.slots()),
    {
        self.data@.to_multiset_ensures();
        assert forall|k: int| 0 <= k < self.slots().len() implies self.ranked().contains(
            #[trigger] self.slots()[k],
        ) by {
            assert(self.data@.contains(self.data@[k]));
        }
    }

    /// Larger keys are served first.
    pub closed spec fn serves_max(&self) -> bool {
        self.is_max
    }

    /// Entries are served in the order they came in.
    pub closed spec fn serves_fifo(&self) -> bool {
        self.is_queue
    }

    /// The entry placed in front of all others (ranked modes only).
    pub closed spec fn now_slot(&self) -> Seq<(i64, V)> {
        self.start@
    }

    /// The slots of the ranked part, in heap order (the root first).
    pub closed spec fn slots(&self) -> Seq<(i64, V)> {
        self.data@
    }

    /// The entries served by key (ranked modes only).
    pub closed spec fn ranked(&self) -> Multiset<(i64, V)> {
        self.data@.to_multiset()
    }

    /// The entries in serving order (first-in first-out mode only).
    pub closed spec fn fifo(&self) -> Seq<(i64, V)> {
        self.vec_deque@
    }

    /// Every entry held: the ranked slots, then the "now" slot, then the
    /// first-in first-out queue.
    pub open spec fn held_entries(&self) -> Seq<(i64, V)> {
        self.slots() + self.now_slot() + self.fifo()
    }

    /// Number of entries held.
    pub open spec fn size(&self) -> nat {
        if self.serves_fifo() {
            self.fifo().len()
        } else {
            self.ranked().len() + self.now_slot().len()
        }
    }

    /// An empty call queue. Largest-first and first-in first-out cannot be
    /// asked for together.
    pub fn new(is_max: bool, is_queue: bool) -> (h: Self)
        requires
            !(is_max && is_queue),
        ensures
            h.wf(),
            h.serves_max() == is_max,
            h.serves_fifo() == is_queue,
            h.now_slot() == Seq::<(i64, V)>::empty(),
            h.slots() == Seq::<(i64, V)>::empty(),
            h.ranked() == Multiset::<(i64, V)>::empty(),
            h.fifo() == Seq::<(i64, V)>::empty(),
    {
        Heap { data: Vec::new(), is_max, start: Vec::new(), is_queue, vec_deque: VecDeque::new() }
    }

    /// Number of entries held.
    pub fn len(&self) -> (n: usize)
        requires
            self.wf(),
        ensures
            n == self.size(),
    {
        proof {
            self.data@.to_multiset_ensures();
        }
        if self.is_queue {
            self.vec_deque.len()
        } else {
            self.data.len() + self.start.len()
        }
    }

    /// A copy of every entry held, in the order of `held_entries`.
    pub fn entries(&self) -> (v: Vec<(i64, V)>)
        ensures
            v@ == self.held_entries(),
    {
        let mut v: Vec<(i64, V)> = Vec::new();
        let mut i: usize = 0;
        while i < self.data.len()
            invariant
                i <= self.data@.len(),
                v@ == self.data@.subrange(0, i as int),
            decreases self.data@.len() - i,
        {
            v.push(self.data[i]);
            i = i + 1;
            assert(v@ =~= self.data@.subrange(0, i as int));
        }
        assert(v@ =~= self.data@);
        let mut i: usize = 0;
        while i < self.start.len()
            invariant
                i <= self.start@.len(),
                v@ == self.data@ + self.start@.subrange(0, i as int),
            decreases self.start@.len() - i,
        {
            v.push(self.start[i]);
            i = i + 1;
            assert(v@ =~= self.data@ + self.start@.subrange(0, i as int));
        }
        assert(v@ =~= self.data@ + self.start@);
        let mut i: usize = 0;
        while i < self.vec_deque.len()
            invariant
                i <= self.vec_deque@.len(),
                v@ == self.data@ + self.start@ + self.vec_deque@.subrange(0, i as int),
            decreases self.vec_deque@.len() - i,
        {
            v.push(self.vec_deque[i]);
            i = i + 1;
            assert(v@ =~= self.data@ + self.start@ + self.vec_deque@.subrange(0, i as int));
        }
        assert(v@ =~= self.data@ + self.start@ + self.vec_deque@);
        v
    }

    /// `new` is `old` with `value` added at the back (first-in first-out) or into
    /// the ranked part.
    pub open spec fn pushed_back(old: Self, new: Self, value: (i64, V)) -> bool {
        &&& new.wf()
        &&& new.serves_max() == old.serves_max()
        &&& new.serves_fifo() == old.serves_fifo()
        &&& new.now_slot() == old.now_slot()
        &&& if old.serves_fifo() {
            new.fifo() == old.fifo().push(value) && new.slots() == old.slots()
                && new.ranked() == old.ranked()
        } else {
            &&& new.slots() == sifted_up(old.serves_max(), old.slots().push(value), old.slots().len() as int)
            &&& new.ranked() == old.ranked().insert(value)
            &&& new.fifo() == old.fifo()
        }
    }

    /// `new` is `old` with `value` put in front of all other entries.
    pub open spec fn pushed_front(old: Self, new: Self, value: (i64, V)) -> bool {
        &&& new.wf()
        &&& new.serves_max() == old.serves_max()
        &&& new.serves_fifo() == old.serves_fifo()
        &&& new.slots() == old.slots()
        &&& new.ranked() == old.ranked()
        &&& if old.serves_fifo() {
            new.fifo() == seq![value] + old.fifo() && new.now_slot() == old.now_slot()
        } else {
            new.now_slot() == seq![value] && new.fifo() == old.fifo()
        }
    }

    /// `new` is `old` once `r`, the entry served next, is taken: the front in
    /// first-in first-out mode; otherwise the "now" entry if there is one, else
    /// the root slot of the ranked part, whose key ranks before every other key
    /// there.
    pub open spec fn popped(old: Self, new: Self, r: Option<(i64, V)>) -> bool {
        &&& new.wf()
        &&& new.serves_max() == old.serves_max()
        &&& new.serves_fifo() == old.serves_fifo()
        &&& old.serves_fifo() ==> {
            &&& r == if old.fifo().len() > 0 {
                Some(old.fifo()[0])
            } else {
                None::<(i64, V)>
            }
            &&& new.fifo() == rest_after_front(old.fifo())
            &&& new.slots() == old.slots()
            &&& new.ranked() == old.ranked()
            &&& new.now_slot() == old.now_slot()
        }
        &&& !old.serves_fifo() && old.now_slot().len() > 0 ==> {
            &&& r == Some(old.now_slot()[0])
            &&& new.now_slot() == Seq::<(i64, V)>::empty()
            &&& new.slots() == old.slots()
            &&& new.ranked() == old.ranked()
            &&& new.fifo() == old.fifo()
        }
        &&& !old.serves_fifo() && old.now_slot().len() == 0 ==> {
            &&& new.now_slot() == old.now_slot()
            &&& new.fifo() == old.fifo()
            &&& (old.ranked().len() == 0 <==> r is None)
            &&& r is None ==> new.slots() == old.slots() && new.ranked() == old.ranked()
            &&& r matches Some(e) ==> {
                &&& e == old.slots()[0]
                &&& new.slots() == root_taken(old.serves_max(), old.slots())
                &&& old.ranked().contains(e)
                &&& forall|x: (i64, V)| #[trigger]
                    old.ranked().contains(x) ==> ranks_before(old.serves_max(), e.0, x.0)
                &&& new.ranked() == old.ranked().remove(e)
            }
        }
    }

    /// Swaps two slots of the ranked part; the multiset of entries is unchanged.
    fn swap_slots(&mut self, i: usize, j: usize)
        requires
            i < old(self).data@.len(),
            j < old(self).data@.len(),
        ensures
            final(self).data@ == old(self).data@.update(i as int, old(self).data@[j as int]).update(
                j as int,
                old(self).data@[i as int],
            ),
            final(self).data@.to_multiset() == old(self).data@.to_multiset(),
            final(self).start@ == old(self).start@,
            final(self).vec_deque@ == old(self).vec_deque@,
            final(self).is_max == old(self).is_max,
            final(self).is_queue == old(self).is_queue,
    {
        let a = self.data[i];
        let b = self.data[j];
        self.data.set(i, b);
        self.data.set(j, a);
        proof {
            let s0 = old(self).data@;
            let s1 = s0.update(i as int, b);
            assert(s1.to_multiset() == s0.to_multiset().insert(b).remove(a));
            assert(self.data@.to_multiset() == s1.to_multiset().insert(a).remove(s1[j as int]));
            if i == j {
                assert(self.data@ =~= s0);
            } else {
                assert(s1[j as int] == b);
                assert(s0.to_multiset().insert(b).remove(a).insert(a).remove(b) =~= s0.to_multiset());
            }
        }
    }

    /// Adds an entry. First-in first-out: at the back. Otherwise into the ranked
    /// part, sifted up until its parent ranks before it.
    pub fn push(&mut self, value: (i64, V))
        requires
            old(self).wf(),
            old(self).size() < usize::MAX,
        ensures
            Self::pushed_back(*old(self), *final(self), value),
    {
        proof {
            old(self).data@.to_multiset_ensures();
        }
        if self.is_queue {
            self.vec_deque.push_back(value);
            return;
        }
        self.data.push(value);
        let is_max = self.is_max;
        let mut i = self.data.len() - 1;
        // the slot `i` may outrank its parent; every other slot is in place, and
        // the parent of `i` ranks before the children of `i`
        while i != 0 && outranks(is_max, self.data[i].0, self.data[parent(i)].0)
            invariant
                self.is_max == is_max,
                !self.is_queue,
                self.vec_deque@ == old(self).vec_deque@,
                self.vec_deque@.len() == 0,
                self.start@ == old(self).start@,
                self.start@.len() <= 1,
                self.data@.len() == old(self).data@.len() + 1,
                self.data@.len() + self.start@.len() <= usize::MAX,
                self.data@.to_multiset() == old(self).data@.to_multiset().insert(value),
                i < self.data@.len(),
                sifted_up(is_max, self.data@, i as int) == sifted_up(
                    is_max,
                    old(self).data@.push(value),
                    old(self).data@.len() as int,
                ),
                forall|j: int|
                    0 < j < self.data@.len() && j != i ==> ranks_before(
                        is_max,
                        #[trigger] self.data@[parent_of(j)].0,
                        self.data@[j].0,
                    ),
                forall|j: int|
                    0 < j < self.data@.len() && parent_of(j) == i && i > 0 ==> ranks_before(
                        is_max,
                        self.data@[parent_of(i as int)].0,
                        #[trigger] self.data@[j].0,
                    ),
            decreases i,
        {
            let p = parent(i);
            self.swap_slots(i, p);
            i = p;
        }
        assert(self.data@.to_multiset() =~= old(self).data@.to_multiset().insert(value));
    }

    /// Takes the entry served next. First-in first-out: the front. Otherwise the
    /// "now" entry if there is one, else an entry of the ranked part whose key
    /// ranks before every other key there.
    pub fn pop(&mut self) -> (r: Option<(i64, V)>)
        requires
            old(self).wf(),
        ensures
            Self::popped(*old(self), *final(self), r),
    {
        proof {
            old(self).data@.to_multiset_ensures();
        }
        if self.is_queue {
            let r = self.vec_deque.pop_front();
            proof {
                if old(self).vec_deque@.len() > 0 {
                    assert(self.vec_deque@ =~= old(self).vec_deque@.drop_first());
                }
            }
            return r;
        }
        if let Some(start) = self.start.pop() {
            assert(self.start@ =~= Seq::<(i64, V)>::empty());
            return Some(start);
        }
        if self.data.len() == 0 {
            return None;
        }
        if self.data.len() == 1 {
            let last = self.data.pop();
            proof {
                assert(old(self).data@ =~= seq![last.unwrap()]);
                assert(self.data@ =~= Seq::<(i64, V)>::empty());
                assert(self.data@ == root_taken(self.is_max, old(self).data@));
                assert(old(self).data@.to_multiset() =~= Multiset::singleton(last.unwrap()));
                assert(self.data@.to_multiset() =~= old(self).data@.to_multiset().remove(
                    last.unwrap(),
                ));
            }
            return last;
        }
        let ghost s0 = self.data@;
        proof {
            assert forall|x: (i64, V)| #[trigger] s0.to_multiset().contains(x) implies ranks_before(
                self.is_max,
                s0[0].0,
                x.0,
            ) by {
                let k = choose|k: int| 0 <= k < s0.len() && s0[k] == x;
                lemma_root_ranks_first(self.is_max, s0, k);
            }
        }
        let popped = self.data.pop().unwrap();
        let value = self.data[0];
        self.data.set(0, popped);
        proof {
            let s1 = s0.subrange(0, s0.len() - 1);
            assert(s0 =~= s1.push(popped));
            assert(s0.to_multiset() == s1.to_multiset().insert(popped));
            assert(self.data@ == s1.update(0, popped));
            assert(self.data@.to_multiset() == s1.to_multiset().insert(popped).remove(value));
            assert(self.data@.to_multiset() =~= s0.to_multiset().remove(value));
            assert(self.data@ == s0.drop_last().update(0, s0.last()));
        }
        let is_max = self.is_max;
        let n = self.data.len();
        let mut i: usize = 0;
        // the slot `i` may rank after its children; every other slot is in place,
        // and the parent of `i` ranks before the children of `i`
        loop
            invariant
                self.is_max == is_max,
                !self.is_queue,
                self.vec_deque@ == old(self).vec_deque@,
                self.start@ == old(self).start@,
                self.vec_deque@.len() == 0,
                self.start@.len() == 0,
                self.data@.len() == n,
                n + 1 <= usize::MAX,
                self.data@.to_multiset() == s0.to_multiset().remove(value),
                sifted_down(is_max, self.data@, i as int) == root_taken(is_max, s0),
                i < n,
                forall|j: int|
                    0 < j < n && parent_of(j) != i ==> ranks_before(
                        is_max,
                        #[trigger] self.data@[parent_of(j)].0,
                        self.data@[j].0,
                    ),
                forall|j: int|
                    0 < j < n && parent_of(j) == i && i > 0 ==> ranks_before(
                        is_max,
                        self.data@[parent_of(i as int)].0,
                        #[trigger] self.data@[j].0,
                    ),
            ensures
                self.is_max == is_max,
                !self.is_queue,
                self.vec_deque@ == old(self).vec_deque@,
                self.start@ == old(self).start@,
                self.vec_deque@.len() == 0,
                self.start@.len() == 0,
                self.data@.len() == n,
                self.data@.to_multiset() == s0.to_multiset().remove(value),
                self.data@ == root_taken(is_max, s0),
                heap_ordered(is_max, self.data@),
            decreases n - i,
        {
            if i >= n / 2 {
                break;
            }
            let l = left(i);
            let r = right(i);
            if outranks(is_max, self.data[l].0, self.data[i].0) && r >= n {
                self.swap_slots(i, l);
                proof {
                    let sw = self.data@;
                    assert(sw.len() <= 2 * l + 1);
                    assert(sifted_down(is_max, sw, l as int) == sw);
                }
                break;
            }
            if r < n {
                if outranks(is_max, self.data[r].0, self.data[l].0) {
                    if outranks(is_max, self.data[r].0, self.data[i].0) {
                        self.swap_slots(i, r);
                        i = r;
                        continue;
                    } else if outranks(is_max, self.data[l].0, self.data[i].0) {
                        self.swap_slots(i, l);
                        i = l;
                        continue;
                    }
                } else {
                    if outranks(is_max, self.data[l].0, self.data[i].0) {
                        self.swap_slots(i, l);
                        i = l;
                        continue;
                    }
                }
            }
            break;
        }
        Some(value)
    }

    /// Puts an entry in front of all others. Ranked modes hold at most one such
    /// entry: the "now" slot must be empty.
    pub fn push_start(&mut self, value: (i64, V))
        requires
            old(self).wf(),
            old(self).size() < usize::MAX,
            !old(self).serves_fifo() ==> old(self).now_slot().len() == 0,
        ensures
            Self::pushed_front(*old(self), *final(self), value),
    {
        proof {
            old(self).data@.to_multiset_ensures();
        }
        if self.is_queue {
            self.vec_deque.push_front(value);
            return;
        }
        self.start.push(value);
        assert(self.start@ =~= seq![value]);
    }
}

} // verus!
