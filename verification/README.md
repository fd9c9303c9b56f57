# switchyard

A deterministic, fixed-capacity structured-concurrency runtime for game logic, written in
Verus: the library states its behaviour in `requires` / `ensures` contracts and Verus proves
them.

## Layout

- `src/ids.rs` — the id newtypes.
- `src/program.rs` — ops, borrowed programs and catalogs, the fixed-capacity
  `ProgramBuilder` and the growable `OwnedProgram`.
- `src/snapshot.rs` — the runtime's plain-data state, its well-formedness and the
  termination measure of a tick.
- `src/runtime.rs` — the scheduler: spawning, signals, waking, executing ops, cancelling,
  and the tick. The per-op semantics is the spec function `executed`; a tick changes the
  state only by task steps (`task_step_at`) and runs until no wait is over. The `Host`
  trait carries a record of what the host was asked (`requests`: actions, calls, and the
  questions whether a mind is active or a predicate holds) and what it answered
  (`answers`), and the `TraceSink` trait a record of the events it received; a tick's
  contract ties its schedule to all three. The events of each op (`op_events`), of a
  wake-up (`wake_run`) and of a cancellation (`cancel_task_run`: descendants first, in
  slot order) are spec functions.
- `src/cancellation.rs` — what a cancellation takes down: the tasks it aims at and every
  running task below a cancelled one, and nothing else; the outcome is unique.
- `src/schedule.rs` — the order of a tick (`tick_run`): rounds over the tasks by increasing
  id, each task woken when its wait is over and run until it blocks, until a round changes
  nothing; the host's answers are the only input, and the effects (requests made of the
  host and trace events, in order) are part of the schedule.
- `src/determinism.rs` — every step, visit, round and tick has one outcome given the state
  and the host's answers, including its requests to the host and its trace
  (`lemma_tick_deterministic`).
- `src/scope.rs` — structured concurrency: a running task whose parent is present has a
  running parent (`parents_run`), and every tick, spawn and queued signal keeps it so.
- `src/history.rs` — laws over any history of calls on a runtime: the clock counts the
  ticks, and structured concurrency holds in every state reached.
- `src/trace.rs`, `src/debug.rs` — trace events, and a log that renders them as text (a
  log holds the events handed to it since it was created or last cleared).
- `src/authoring.rs` — catalog documents and their validation and compilation.
- `src/inspect.rs` — normalization, validation and summaries of stored snapshots and
  catalogs, as the command-line tool reports them.
- `src/bundle.rs` — asset bundles: snapshots listed by id (character order, stable) and
  the total of their task counts.
- `src/showcase.rs` — a guided showcase over three built-in scripts.
- `tests/` — scenario tests.
- `app/` — the command-line tool (files and JSON) and the browser face of the showcase.
