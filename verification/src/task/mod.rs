//! Task wakers and the yield future.
//!
//! Futures in this crate are polled through plain methods that take the waker of the
//! polling task and answer with `Poll`; an executor adapter calls them from
//! `core::future::Future::poll`.
use vstd::prelude::*;

verus! {

#[verifier::external_type_specification]
#[verifier::external_body]
pub struct ExWaker(core::task::Waker);

/// The receipt of one call of `wake_by_ref` or `wake`: it names the waker the call was
/// made on. Only those two functions make one, and recording it in a `WakeLog` uses it
/// up, so each entry of a log stands for a call that was made.
pub struct Woken {
    waker: Ghost<core::task::Waker>,
}

impl Woken {
    /// The waker that was woken.
    pub closed spec fn waker(&self) -> core::task::Waker {
        self.waker@
    }
}

/// The wakes a value made through `wake_by_ref` and `wake`, each recorded by the caller
/// right after the call with the call's receipt and under an id (for a waiting future,
/// the link it waits with), oldest first.
pub struct WakeLog {
    ids: Ghost<Seq<usize>>,
    wakers: Ghost<Seq<core::task::Waker>>,
}

impl WakeLog {
    /// The ids of the wakes made, oldest first.
    pub closed spec fn ids(&self) -> Seq<usize> {
        self.ids@
    }

    /// The wakers woken, oldest first, one for each id.
    pub closed spec fn wakers(&self) -> Seq<core::task::Waker> {
        self.wakers@
    }

    /// A log of no wake.
    pub fn new() -> (r: Self)
        ensures
            r.ids() == Seq::<usize>::empty(),
            r.wakers() == Seq::<core::task::Waker>::empty(),
    {
        WakeLog { ids: Ghost(Seq::empty()), wakers: Ghost(Seq::empty()) }
    }

    /// Records the wake that `woken` is the receipt of, under `id`.
    pub(crate) fn record(&mut self, woken: Woken, Ghost(id): Ghost<usize>)
        ensures
            final(self).ids() == old(self).ids().push(id),
            final(self).wakers() == old(self).wakers().push(woken.waker()),
    {
        self.ids = Ghost(self.ids@.push(id));
        self.wakers = Ghost(self.wakers@.push(woken.waker@));
    }
}

/// Wakes the task behind `waker` without consuming it (`core::task::Waker::wake_by_ref`).
/// Nothing is claimed of the effect, which hands the task to its executor.
/// The receipt names `waker`.
#[verifier::external_body]
pub(crate) fn wake_by_ref(waker: &core::task::Waker) -> (r: Woken)
    ensures
        r.waker() == *waker,
{
    waker.wake_by_ref();
    Woken { waker: Ghost(*waker) }
}

/// Wakes the task behind `waker`, consuming it (`core::task::Waker::wake`). Nothing is
/// claimed of the effect.
/// The receipt names `waker`.
#[verifier::external_body]
pub(crate) fn wake(waker: core::task::Waker) -> (r: Woken)
    ensures
        r.waker() == waker,
{
    let r = Woken { waker: Ghost(waker) };
    waker.wake();
    r
}

/// A second handle on the task behind `waker` (`<core::task::Waker as Clone>::clone`).
/// The result is a clone of `waker`, which is what `clone` returns by definition; nothing
/// more can be said of it, since a waker carries no value Verus can see.
#[verifier::external_body]
pub(crate) fn clone_waker(waker: &core::task::Waker) -> (r: core::task::Waker)
    ensures
        cloned(*waker, r),
{
    waker.clone()
}

/// The answer of a poll: the future finished with a value, or it is still pending.
#[derive(PartialEq, Eq, Debug)]
pub enum Poll<T> {
    Ready(T),
    Pending,
}

/// The future returned by `yield_now`.
pub struct YieldNow {
    yielded: bool,
    wakes: WakeLog,
}

impl YieldNow {
    /// Whether the future has yielded once.
    pub closed spec fn has_yielded(&self) -> bool {
        self.yielded
    }

    /// The wakes of the polling task the future made.
    pub closed spec fn wakes(&self) -> Seq<usize> {
        self.wakes.ids()
    }

    /// The wakers the future woke, oldest first.
    pub closed spec fn woken(&self) -> Seq<core::task::Waker> {
        self.wakes.wakers()
    }

    /// The first poll wakes the task again and is pending; every later poll is ready.
    pub fn poll(&mut self, waker: &core::task::Waker) -> (r: Poll<()>)
        ensures
            old(self).has_yielded() ==> r == Poll::Ready(()) && final(self).wakes() == old(self).wakes(),
            !old(self).has_yielded() ==> r == Poll::<()>::Pending && final(self).wakes() == old(self).wakes().push(0),
            old(self).has_yielded() ==> final(self).woken() == old(self).woken(),
            !old(self).has_yielded() ==> final(self).woken() == old(self).woken().push(*waker),
            final(self).has_yielded(),
    {
        if self.yielded {
            Poll::Ready(())
        } else {
            self.yielded = true;
            let woken = wake_by_ref(waker);
            self.wakes.record(woken, Ghost(0));
            Poll::Pending
        }
    }
}

/// Yields the current task once: schedules it to be resumed and lets the other ready
/// tasks run first.
pub fn yield_now() -> (r: YieldNow)
    ensures
        !r.has_yielded(),
        r.wakes() == Seq::<usize>::empty(),
{
    YieldNow { yielded: false, wakes: WakeLog::new() }
}

} // verus!
