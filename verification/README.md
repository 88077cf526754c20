# pumpkin-search

Search strategies and scheduling for a constraint solver, verified with Verus.

- `src/branching/` decides what to branch on: by the activity of variables
  (`variable_activity_branching`), by the activity of variables and their predicates, guided by
  the best solution known so far (`variable_vsid`), or by the values that learned nogoods speak of
  (`custom_search`). Each strategy states in its specification functions what it decides and how
  it reacts to notifications, in terms of the strategy that it falls back on.
- `src/propagator_queue.rs` and `src/propagator_utility.rs` decide which propagator runs next, and
  with which priority; `src/queue_history.rs` states what holds after any sequence of calls.
- `src/assignments.rs`, `src/predicates.rs` and `src/variables.rs` are the domains that decisions
  are made on; `src/containers/` holds the heap and the vector that are addressed by keys.
- Scores are computed with any type that implements `Number` (`src/number.rs`). `Fixed` is one
  whose arithmetic is verified.
- `app/` supplies floating-point scores, settings and logging.
