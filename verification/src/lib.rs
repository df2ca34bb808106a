//! Executor-agnostic async building blocks for single-threaded embedded use.
//!
//! Every shared piece of state lives in one owning value (a channel, a mutex, a
//! condition variable, a timer) and the handles are plain tokens that are handed the
//! state they act on. Intrusive lists keep their links in an arena (`Links`) and refer
//! to them by index.
pub mod intrusive;
pub mod task;
pub mod channel;
pub mod sync;
pub mod timer;
pub mod prelude;
pub mod interrupt;
pub mod job;
