# raphael

A crafting rotation solver for Final Fantasy XIV, written in Verus: the game
rules, the solvers and their data structures carry `requires` / `ensures`
contracts that Verus proves.

## Layout

- `src/game/`: the simulation. Actions with their costs and effects, the state
  of a craft and what one action or a run of actions does to it. Laws: a valid
  state stays valid, a run splits into its parts, a finished craft stays
  finished.
- `src/solvers/finish_solver.rs`: the least time in which the progress actions
  finish a craft, over a memoized table per reduced state, and a sequence of
  actions that finishes it in exactly that time. A sequence comes back whenever
  some progress is missing and the search actions can make it: every finishing
  time stays below the search's limit of 100,000 seconds
  (`lemma_finish_time_within_limit`). When Basic Synthesis is allowed
  and no more than the recipe's progress is missing, no sequence of allowed
  progress and durability actions finishes sooner (`lemma_finish_time_is_least`).
- `src/solvers/macro_solver/`: the search for the rotation of best quality, with
  its bucketed queue and the trace of every explored node; every rotation it
  returns completes the craft, reaches at least the quality of every explored
  state that can be finished in time, and the explored states are closed under
  the search steps up to the Pareto fronts. Of the rotations it builds, it keeps
  one of the highest quality (capped at the recipe's), with the fewest steps
  among those, then the least time, the first built on a full tie
  (`search_pick`). Quality above the recipe's is not kept in a state, so it
  plays no part; nor does any rotation the search does not build. The search is the
  single pass over all search steps, without pruning by the quality upper bound:
  the bound solvers stand on their own and the search does not call them.
- `src/solvers/upper_bound_solver/`: the relaxed searches that bound the quality
  and progress still reachable, and the Pareto-front builder they fill. Laws: the
  bounds never fall with more CP or with less missing, the CP lower bound is
  the least CP whose progress bound reaches the missing progress, and the
  Pareto bound is at least the quality of every run of the relaxed search's own
  steps that makes the missing progress (`lemma_bound_covers_relaxed_runs`).
  That the bounds cover every sequence of game actions is not proved here.
- `src/solvers/util/`: the Pareto front of explored states used to drop states
  that another beats.
- `src/config.rs`, `src/context.rs`, `src/elements/`: the plain settings the
  interface hands to the solvers.
- `app/`: what the verifier does not see: the rayon thread pool and the serde
  copies of the configuration types.
- `tests/`: scenarios on concrete recipes.

Outside crates: `rustc-hash` provides the hash maps of the memos (declared in
`src/solvers/memo.rs`), `rayon` and `serde` are used by `app/`.
