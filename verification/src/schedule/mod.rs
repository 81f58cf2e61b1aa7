//! Tasks with parents: exit codes, waiting for a child, waiting for input, killing.
//!
//! All queues stand in one table. A task that waits is woken by an event, the end of another task
//! or the arrival of input, where a sleeping task is woken by the clock.
pub mod exit;
pub mod kill;
pub mod laws;
pub mod sleep;
pub mod task;
pub mod wait;
