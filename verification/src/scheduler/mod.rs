//! The preemptive round-robin scheduler.
//!
//! A clock interrupt saves the running task's registers in a frame and asks the scheduler for the
//! next frame. The running task goes where its pending disposition says: to the back of the ready
//! queue, to the sleepers, or to the zombies. When no task is ready the processor waits for the next
//! tick; when no task is left at all the system shuts down.
pub mod laws;
pub mod schedule;
pub mod sleep;
pub mod spawn;
pub mod task;
