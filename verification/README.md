# agamotto

A day planner's scheduling core, verified with Verus.

- `src/` is the verified library: task and schedule types, Serenity planning
  (greedy by the caller's density ranking, then shortest first), Crunch
  planning (0/1 knapsack over integer scores, then earliest deadline first),
  momentum reordering, micro-recovery breaks, decision debt, identity
  conflicts, what-if changes, timestamp parsing, identifiers, and the
  helpers the screens use. Each public function states its result in its
  contract; the proof functions state the laws that connect them.
- `app/` holds what stays outside verification: the serialisable models,
  the floating-point scores and metrics, and persistence in Convex.
- `tests/` runs the library on concrete inputs.
