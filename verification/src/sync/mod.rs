//! Synchronization between tasks of one thread: an async mutex and a condition variable.
//!
//! These primitives must only be used between tasks that run on the same thread.
pub mod mutex;
pub mod condvar;

pub use mutex::{Mutex, MutexRef, MutexGuard, LockFuture};
pub use condvar::{Condvar, CondvarWaiter, CondvarNotifier, WaitError, WaitUntil};
