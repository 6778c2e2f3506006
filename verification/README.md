# sched_callback

A scheduler that runs callbacks at chosen points in time, one task at a time,
earliest first.

- `src/` is the verified library. `task` decides when a task fires next
  (`Task::ready`) and what a poll at a given time does (`Task::poll_step`);
  `queue` is the task queue (`SchedQueue`): it assigns ids, keeps the pending
  tasks ordered by firing time, preempts the task being waited on when an
  earlier one is added, and skips cancelled tasks, going on to the next
  pending one; `message` holds the
  notifications it emits. Every step takes the current time and returns the
  effects to perform, and its contract states the resulting queue and effects
  exactly. Times are `i128` nanoseconds since the Unix epoch (negative before
  it) and delays `u128` nanoseconds, which hold every `SystemTime` and
  `Duration` exactly. The queue is kept well formed
  by a type invariant: pending tasks ordered by firing time, the task waited on
  the earliest of all, and the queue idle only when nothing is pending.
- `app/` runs these state machines on tokio: it reads the clock, keeps the
  callbacks, sends the messages on an `mpsc` channel, and spawns, sleeps and
  aborts the waiting jobs. Its `SchedQueue::new`, `add` and `cancel` are the
  asynchronous interface, with `SystemTime` and `Duration` values.
- `tests/` drives the queue on a virtual clock.
