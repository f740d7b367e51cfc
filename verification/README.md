# cache_aware_router

A routing policy for inference workers, verified with Verus.

While the load is balanced, a request goes to the worker that has the longest prefix of it cached, if
that prefix is a large enough share of the request and the worker is healthy and has room for it. If
the share is too small, the request goes to the worker with the smallest tree. If the share is large
enough but the worker cannot take the request, it goes to the least busy worker. So do small requests,
and all requests while the load is not balanced. What the workers have cached is estimated from the
requests that they were given, in a prefix tree for each model.

- `src/tree.rs` is the prefix tree, `src/model.rs` the mathematics that its contracts speak of.
- `src/worker.rs` and `src/choice.rs` choose the least busy worker and the one with the smallest tree.
- `src/routing.rs` says what a routing decision is, `src/policy.rs` makes it.
- `src/tree_laws.rs`, `src/choice.rs` and `src/routing_laws.rs` state what follows.
- `src/eviction_timer.rs` says when the background eviction runs.
- `src/counts.rs`, `src/tree_map.rs` and `src/random.rs` hold the calls into `dashmap` and `rand`.
- `app/` shares a policy between threads, computes the floating-point numbers that a decision needs,
  and runs the eviction thread.

A decision that rests on the share of a request that is cached takes two calls. The first one hands
out the lengths, the caller divides them, and the second one takes the quotient. Floating-point
numbers enter the library as their bits, and the library only compares them.
