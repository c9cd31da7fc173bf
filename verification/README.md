# queue_recursion

Breadth-first ("queue-based") recursion: async calls are run from a call queue
instead of the stack, in first-in first-out order or by priority, and queue
exceptions travel from a call to the catcher that covers it.

The crate splits in two.

* `src/` is the verified library: everything the executor decides.
  * `heap` — the call queue: a binary heap over integer keys (smallest or
    largest first) with a "now" slot served before anything else, or a
    first-in first-out deque.
  * `priority` — priorities (`Value` or `Now`), queue styles, and what a caller
    reads back from a caught or selected call; `priority_order` — how two
    priorities compare.
  * `scheduler` — the priority scheduler's bookkeeping: the calls, their
    parent/catcher links and counts of waiting children, and the decisions of
    the run loop (`pop`, `begin_call`, `end_call`), of adding, catching and
    selecting calls, of raising exceptions and of cancelling selected branches.
  * `queue` — the same for the first-in first-out scheduler, with its promise
    types and the state machine of a suspension point.
  * `tree` — a binary search tree; `graph` — an adjacency-matrix graph and the
    decisions of one step of the shortest-path search.
  * `laws` — properties that span several operations; `rounds` — properties
    of whole rounds of the run loop (a raise and its handling, a join, a
    suspension point).
* `app/` is the executor around it: it owns the futures, polls each call the
  scheduler hands out and reports back, and holds the demonstration program
  (shortest path, prioritised Fibonacci, breadth-first tree print).
