//! Core of a teaching operating-system kernel: synchronization primitives
//! (spin and blocking mutexes, counting semaphores, condition variables),
//! a deadlock-avoidance resource ledger running the Banker's algorithm on
//! the acquisition path, and a proportional-share (stride) scheduler.
//!
//! The kernel state is modelled explicitly: every syscall is a function from
//! the kernel state, the calling task and its plain arguments to the new
//! state and the syscall's return value.  The dispatch loop, timers and user
//! memory are outside collaborators; they drive these functions and perform
//! the context switches that the contracts describe.

pub mod kernel;
pub mod ledger;
pub mod syscall;
pub mod sync;
pub mod task;
