//! An undirected weighted graph in an adjacency matrix, and the decisions of a
//! breadth-first shortest-path search over it.
use crate::priority::SelectMatch;
use vstd::prelude::*;

verus! {

/// A distance in the graph.
pub struct Distance {
    pub value: i32,
}

impl Distance {
    /// A distance of `value`.
    pub fn new(value: i32) -> (d: Self)
        ensures
            d.value == value,
    {
        Distance { value }
    }
}

/// An undirected graph on nodes `0..num`; `matrix[a][b]` holds the weight of
/// the edge between `a` and `b`, if there is one.
pub struct Graph {
    matrix: Vec<Vec<Option<i32>>>,
    num: usize,
}

/// What one step of the search does at a node: the neighbours to branch into,
/// each with the cost of reaching it, and whether the target is a neighbour
/// (then the branches are those met before it).
pub struct Expansion {
    pub branches: Vec<(usize, i64)>,
    pub reaches_target: bool,
}

impl Graph {
    /// Number of nodes.
    pub closed spec fn size(&self) -> nat {
        self.num as nat
    }

    /// The weight of the edge between `a` and `b`, if there is one.
    pub closed spec fn edge(&self, a: int, b: int) -> Option<i32> {
        self.matrix@[a]@[b]
    }

    /// The matrix is square, of side `num`.
    pub closed spec fn wf(&self) -> bool {
        &&& self.matrix@.len() == self.num
        &&& forall|i: int| 0 <= i < self.num ==> #[trigger] self.matrix@[i]@.len() == self.num
    }

    /// A graph on `num` nodes without edges.
    pub fn new(num: usize) -> (g: Self)
        ensures
            g.wf(),
            g.size() == num,
            forall|a: int, b: int| 0 <= a < num && 0 <= b < num ==> g.edge(a, b) is None,
    {
        let mut matrix: Vec<Vec<Option<i32>>> = Vec::new();
        let mut i: usize = 0;
        while i < num
            invariant
                i <= num,
                matrix@.len() == i,
                forall|k: int| 0 <= k < i ==> #[trigger] matrix@[k]@.len() == num,
                forall|k: int, j: int| 0 <= k < i && 0 <= j < num ==> matrix@[k]@[j] is None,
            decreases num - i,
        {
            let mut row: Vec<Option<i32>> = Vec::new();
            let mut j: usize = 0;
            while j < num
                invariant
                    j <= num,
                    row@.len() == j,
                    forall|k: int| 0 <= k < j ==> row@[k] is None,
                decreases num - j,
            {
                row.push(None);
                j = j + 1;
            }
            matrix.push(row);
            i = i + 1;
        }
        Graph { matrix, num }
    }

    /// Adds the edge between `a` and `b` with `weight`, in both directions,
    /// replacing one that was there.
    pub fn add_edge(&mut self, a: usize, b: usize, weight: i32)
        requires
            old(self).wf(),
            a < old(self).size(),
            b < old(self).size(),
        ensures
            final(self).wf(),
            final(self).size() == old(self).size(),
            final(self).edge(a as int, b as int) == Some(weight),
            final(self).edge(b as int, a as int) == Some(weight),
            forall|x: int, y: int|
                0 <= x < old(self).size() && 0 <= y < old(self).size() && !((x == a && y == b) || (
                x == b && y == a)) ==> final(self).edge(x, y) == old(self).edge(x, y),
    {
        self.matrix[a][b] = Some(weight);
        self.matrix[b][a] = Some(weight);
        proof {
            assert forall|i: int| 0 <= i < self.num implies #[trigger] self.matrix@[i]@.len()
                == self.num by {
                assert(old(self).matrix@[i]@.len() == self.num);
            }
        }
    }

    /// Node `i` is a neighbour of `a` that the search has not visited.
    pub open spec fn open_neighbour(&self, a: int, visited: Seq<bool>, i: int) -> bool {
        i != a && !visited[i] && self.edge(a, i) is Some
    }

    /// The open neighbours of `a` below `n`, in order, each with `cost` plus the
    /// weight of its edge.
    pub open spec fn branches_below(&self, a: int, visited: Seq<bool>, cost: i64, n: int) -> Seq<
        (usize, i64),
    >
        decreases n,
    {
        if n <= 0 {
            Seq::empty()
        } else {
            let earlier = self.branches_below(a, visited, cost, n - 1);
            if self.open_neighbour(a, visited, n - 1) {
                earlier.push(((n - 1) as usize, (cost + self.edge(a, n - 1).unwrap()) as i64))
            } else {
                earlier
            }
        }
    }

    /// One step of the search at node `a` towards `b`, reached at `cost`: marks
    /// `a` visited, then walks the nodes in order. An open neighbour is a
    /// branch at `cost` plus its edge's weight; the walk stops at `b` when `b`
    /// is an open neighbour.
    pub fn expand(&self, a: usize, b: usize, visited: &mut Vec<bool>, cost: i64) -> (e: Expansion)
        requires
            self.wf(),
            a < self.size(),
            b < self.size(),
            old(visited)@.len() == self.size(),
            -0x4000_0000_0000_0000 <= cost <= 0x4000_0000_0000_0000,
        ensures
            final(visited)@ == old(visited)@.update(a as int, true),
            e.reaches_target == self.open_neighbour(a as int, final(visited)@, b as int),
            e.branches@ == self.branches_below(
                a as int,
                final(visited)@,
                cost,
                if e.reaches_target {
                    b as int
                } else {
                    self.size() as int
                },
            ),
    {
        visited.set(a, true);
        let mut branches: Vec<(usize, i64)> = Vec::new();
        let mut i: usize = 0;
        while i < self.num
            invariant
                self.wf(),
                a < self.num,
                b < self.num,
                visited@.len() == self.num,
                visited@ == old(visited)@.update(a as int, true),
                -0x4000_0000_0000_0000 <= cost <= 0x4000_0000_0000_0000,
                i <= self.num,
                i <= b || !self.open_neighbour(a as int, visited@, b as int),
                branches@ == self.branches_below(a as int, visited@, cost, i as int),
            decreases self.num - i,
        {
            if i == a || visited[i] || self.matrix[a][i].is_none() {
                i = i + 1;
                continue;
            }
            let value = self.matrix[a][i].unwrap();
            if i == b {
                return Expansion { branches, reaches_target: true };
            }
            let new_distance = cost + value as i64;
            branches.push((i, new_distance));
            i = i + 1;
        }
        Expansion { branches, reaches_target: false }
    }

    /// After the join at node `a`: a branch that reported a trace (the path
    /// from the target back to the branch) gives that trace with `a` added, to
    /// be reported further up; a branch that returned or was cancelled gives
    /// nothing.
    pub fn extend_trace(outcome: SelectMatch<(), Vec<usize>>, a: usize) -> (r: Option<Vec<usize>>)
        ensures
            match outcome {
                SelectMatch::Exception(t) => r matches Some(p) && p@ == t@.push(a),
                _ => r is None,
            },
    {
        match outcome {
            SelectMatch::Exception(mut path) => {
                path.push(a);
                Some(path)
            },
            _ => None,
        }
    }

    /// The path a search reports, node by node from the start: the trace it
    /// collects runs from the target back to the start.
    pub fn path_from_trace(trace: Vec<usize>) -> (path: Vec<usize>)
        ensures
            path@ == trace@.reverse(),
    {
        let mut path: Vec<usize> = Vec::new();
        let n = trace.len();
        let mut k: usize = 0;
        while k < n
            invariant
                k <= n,
                n == trace@.len(),
                path@ == trace@.reverse().subrange(0, k as int),
            decreases n - k,
        {
            path.push(trace[n - 1 - k]);
            k = k + 1;
            assert(path@ =~= trace@.reverse().subrange(0, k as int));
        }
        assert(path@ =~= trace@.reverse());
        path
    }
}

} // verus!
