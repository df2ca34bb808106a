# embedded_async

Executor-agnostic async building blocks for single-threaded embedded use, with their
behaviour stated in contracts and proved by Verus.

- `src/intrusive`: intrusive lists whose links live in an arena (`Links`) and are
  referred to by index (doubly and singly linked), and a reference counter kept next to
  the value it guards. The arenas are `Vec`s, so unlike a fully intrusive design the
  library does allocate: an arena grows when a link is needed and none is free. A future
  that is given back hands its link back to the arena, which hands it out again, so an
  arena grows only to the most futures alive at once.
- `src/channel`: a bounded channel over a `heapless::Deque`, and a broadcast channel.
- `src/sync`: an async mutex and a condition variable.
- `src/timer`: a timer service over a user-supplied hardware backend.
- `src/interrupt`: a waker that an interrupt handler wakes and the application sets.
- `src/prelude`: what the `race`, `join`, `timeout` and `delay` combinators decide.
- `src/task`, `src/job`: the yield future and a bounded job pool.

Every shared state lives in one owning value (a `Channel`, a `Mutex`, a `Timer`, ...).
Handles and futures are tokens that are handed that value when they act; giving one back
is an explicit `release`. A future's `poll` takes the waker of the polling task and
answers with `task::Poll`. Each owning value keeps a ghost log of the wakes it makes
(`WakeLog`), so that the contracts state which futures are woken, and in what order.

`app/` wraps the shared states in `Rc<RefCell<..>>` and the library's futures in
`core::future::Future` for use with an executor.
