//! A scheduler that runs callbacks at chosen points in time, one task at a time.
//!
//! This crate holds the scheduler's decisions as verified state machines:
//! - [`task`]: how a task computes its next firing time (`Task::ready`) and what
//!   polling it decides at a given moment (`Task::poll_step`);
//! - [`queue`]: the task queue (`SchedQueue`), which assigns ids, keeps pending
//!   tasks ordered by firing time, preempts the running task when an earlier one
//!   arrives, and drops cancelled tasks;
//! - [`message`]: the notifications the scheduler emits.
//!
//! Times are `i128` nanoseconds since the Unix epoch (negative before it) and
//! delays are `u128` nanoseconds.
//! Reading the clock, sleeping, spawning and sending are left to the runtime
//! that drives these state machines: each step takes the current time as an
//! argument and returns the effects to perform, in order.
pub mod message;
pub mod queue;
pub mod task;
