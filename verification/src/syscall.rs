//! The syscall layer: each syscall is a function from the kernel state,
//! the calling task and its arguments to the new state and the returned
//! value.  Return convention: `0` success, `-1` bad handle or bad
//! argument, `-0xdead` refused because granting would risk deadlock.

pub mod process;
pub mod sync;
