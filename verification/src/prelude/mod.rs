//! Combinators over two futures: `Race` finishes with the first of them, `Join` with both,
//! `TimeoutFuture` with a future or a timeout, and `DelayFuture` starts a future after a
//! delay.
//!
//! The futures themselves are polled by the executor adapter; these types hold what the
//! combinators decide: which future is polled next, and what the combined poll answers.
use vstd::prelude::*;
use crate::task::Poll;
use crate::timer::{self, Timer, TimerBackend};

verus! {

/// The value of a ready poll, or `None` for a pending one.
pub fn poll_to_option<T>(res: Poll<T>) -> (r: Option<T>)
    ensures
        r == (match res {
            Poll::Ready(x) => Some(x),
            Poll::Pending => None,
        }),
{
    match res {
        Poll::Ready(x) => Some(x),
        _ => None,
    }
}

/// Two futures raced against each other: the combined future finishes as soon as one of
/// them does. In each poll the first future is polled, and the second only when the first
/// is still pending.
pub struct Race<A, B> {
    res: (Option<A>, Option<B>),
}

impl<A, B> Race<A, B> {
    /// The result of the first future, once it finished.
    pub closed spec fn first(&self) -> Option<A> {
        self.res.0
    }

    /// The result of the second future, once it finished.
    pub closed spec fn second(&self) -> Option<B> {
        self.res.1
    }

    /// A race that no future has finished yet.
    pub fn new() -> (r: Self)
        ensures
            r.first() is None,
            r.second() is None,
    {
        Race { res: (None, None) }
    }

    /// Whether the futures are polled in this poll: neither has finished.
    pub fn needs_poll(&self) -> (r: bool)
        ensures
            r == (self.first() is None && self.second() is None),
    {
        self.res.0.is_none() && self.res.1.is_none()
    }

    /// Records the poll of the first future. Returns whether the second future is to be
    /// polled as well: the first is still pending.
    pub fn first_polled(&mut self, p: Poll<A>) -> (poll_second: bool)
        requires
            old(self).first() is None,
        ensures
            final(self).first() == poll_to_option_spec(p),
            final(self).second() == old(self).second(),
            poll_second == (p is Pending),
    {
        self.res.0 = poll_to_option(p);
        self.res.0.is_none()
    }

    /// Records the poll of the second future.
    pub fn second_polled(&mut self, p: Poll<B>)
        requires
            old(self).second() is None,
        ensures
            final(self).first() == old(self).first(),
            final(self).second() == poll_to_option_spec(p),
    {
        self.res.1 = poll_to_option(p);
    }

    /// The answer of the combined poll: pending while neither future finished, else the
    /// results, which the race gives away.
    pub fn output(&mut self) -> (r: Poll<(Option<A>, Option<B>)>)
        ensures
            old(self).first() is None && old(self).second() is None ==> r is Pending && *final(self) == *old(self),
            !(old(self).first() is None && old(self).second() is None) ==> {
                &&& r == Poll::Ready((old(self).first(), old(self).second()))
                &&& final(self).first() is None
                &&& final(self).second() is None
            },
    {
        if self.res.0.is_none() && self.res.1.is_none() {
            Poll::Pending
        } else {
            let a = self.res.0.take();
            let b = self.res.1.take();
            Poll::Ready((a, b))
        }
    }
}

/// The value of a ready poll, or `None` for a pending one.
pub open spec fn poll_to_option_spec<T>(p: Poll<T>) -> Option<T> {
    match p {
        Poll::Ready(x) => Some(x),
        Poll::Pending => None,
    }
}

/// Two futures run side by side: the combined future finishes once both have. Each poll
/// polls the futures that have not finished.
pub struct Join<A, B> {
    res: (Option<A>, Option<B>),
}

impl<A, B> Join<A, B> {
    /// The result of the first future, once it finished.
    pub closed spec fn first(&self) -> Option<A> {
        self.res.0
    }

    /// The result of the second future, once it finished.
    pub closed spec fn second(&self) -> Option<B> {
        self.res.1
    }

    /// A join that no future has finished yet.
    pub fn new() -> (r: Self)
        ensures
            r.first() is None,
            r.second() is None,
    {
        Join { res: (None, None) }
    }

    /// Whether the first future is polled: it has not finished.
    pub fn first_pending(&self) -> (r: bool)
        ensures
            r == (self.first() is None),
    {
        self.res.0.is_none()
    }

    /// Whether the second future is polled: it has not finished.
    pub fn second_pending(&self) -> (r: bool)
        ensures
            r == (self.second() is None),
    {
        self.res.1.is_none()
    }

    /// Records the poll of the first future.
    pub fn first_polled(&mut self, p: Poll<A>)
        requires
            old(self).first() is None,
        ensures
            final(self).first() == poll_to_option_spec(p),
            final(self).second() == old(self).second(),
    {
        self.res.0 = poll_to_option(p);
    }

    /// Records the poll of the second future.
    pub fn second_polled(&mut self, p: Poll<B>)
        requires
            old(self).second() is None,
        ensures
            final(self).first() == old(self).first(),
            final(self).second() == poll_to_option_spec(p),
    {
        self.res.1 = poll_to_option(p);
    }

    /// The answer of the combined poll: both results once both futures finished, which the
    /// join gives away; else pending.
    pub fn output(&mut self) -> (r: Poll<(A, B)>)
        ensures
            old(self).first() is Some && old(self).second() is Some ==> {
                &&& r == Poll::Ready((old(self).first().unwrap(), old(self).second().unwrap()))
                &&& final(self).first() is None
                &&& final(self).second() is None
            },
            !(old(self).first() is Some && old(self).second() is Some) ==> r is Pending && *final(self) == *old(self),
    {
        if self.res.0.is_some() && self.res.1.is_some() {
            match (self.res.0.take(), self.res.1.take()) {
                (Some(a), Some(b)) => Poll::Ready((a, b)),
                _ => {
                    proof {
                        assert(false);
                    }
                    Poll::Pending
                },
            }
        } else {
            Poll::Pending
        }
    }
}

/// The future ran out of time.
#[derive(Debug, PartialEq, Eq)]
pub struct TimeoutError;

/// A future raced against a delay of a timer.
pub struct TimeoutFuture<A> {
    race: Race<A, ()>,
}

/// The answer of a timed-out race: the future's value when it finished, else a timeout.
pub open spec fn timeout_of<A>(p: Poll<(Option<A>, Option<()>)>) -> Poll<Result<A, TimeoutError>> {
    match p {
        Poll::Pending => Poll::Pending,
        Poll::Ready((Some(x), _)) => Poll::Ready(Ok(x)),
        Poll::Ready((None, _)) => Poll::Ready(Err(TimeoutError)),
    }
}

impl<A> TimeoutFuture<A> {
    /// The race of the future (first) against the delay (second).
    pub closed spec fn race(&self) -> Race<A, ()> {
        self.race
    }

    /// A timeout over a race that no future has finished yet.
    pub fn new() -> (r: Self)
        ensures
            r.race().first() is None,
            r.race().second() is None,
    {
        TimeoutFuture { race: Race::new() }
    }

    /// Whether the future and the delay are polled in this poll: neither has finished.
    pub fn needs_poll(&self) -> (r: bool)
        ensures
            r == (self.race().first() is None && self.race().second() is None),
    {
        self.race.needs_poll()
    }

    /// Records the poll of the future. Returns whether the delay is to be polled as well:
    /// the future is still pending.
    pub fn future_polled(&mut self, p: Poll<A>) -> (poll_delay: bool)
        requires
            old(self).race().first() is None,
        ensures
            final(self).race().first() == poll_to_option_spec(p),
            final(self).race().second() == old(self).race().second(),
            poll_delay == (p is Pending),
    {
        self.race.first_polled(p)
    }

    /// Records the poll of the delay.
    pub fn delay_polled(&mut self, p: Poll<()>)
        requires
            old(self).race().second() is None,
        ensures
            final(self).race().first() == old(self).race().first(),
            final(self).race().second() == poll_to_option_spec(p),
    {
        self.race.second_polled(p)
    }

    /// The answer of the combined poll: pending while neither finished; the future's
    /// value when it finished; a timeout when only the delay did.
    pub fn output(&mut self) -> (r: Poll<Result<A, TimeoutError>>)
        ensures
            old(self).race().first() is None && old(self).race().second() is None ==> r is Pending,
            !(old(self).race().first() is None && old(self).race().second() is None) ==> r == timeout_of(
                Poll::Ready((old(self).race().first(), old(self).race().second())),
            ),
    {
        match self.race.output() {
            Poll::Pending => Poll::Pending,
            Poll::Ready((Some(x), _)) => Poll::Ready(Ok(x)),
            _ => Poll::Ready(Err(TimeoutError)),
        }
    }
}

/// A future that starts only once a delay of a timer has passed.
pub struct DelayFuture<B: TimerBackend> {
    delay: Option<timer::DelayFuture<B>>,
}

impl<B: TimerBackend> DelayFuture<B> {
    /// The delay still to wait, if any.
    pub closed spec fn delay(&self) -> Option<timer::DelayFuture<B>> {
        self.delay
    }

    /// Waits `delay` before the future starts.
    pub fn new(delay: timer::DelayFuture<B>) -> (r: Self)
        ensures
            r.delay() == Some(delay),
    {
        DelayFuture { delay: Some(delay) }
    }

    /// Polls the delay, if any is left. Returns whether the future is to be polled now:
    /// no delay is left, or the delay just finished, in which case it is given back to
    /// the timer.
    pub fn poll_delay(&mut self, timer: &mut Timer<B>, waker: &core::task::Waker) -> (poll_future: bool)
        requires
            old(self).delay() is Some ==> old(self).delay().unwrap().can_poll(*old(timer)) && old(timer).handles() > 0,
        ensures
            old(self).delay() is None ==> poll_future && final(self).delay() is None && *final(timer) == *old(timer),
            old(self).delay() is Some ==> {
                let l = old(self).delay().unwrap().link_view();
                &&& final(timer).wf()
                &&& final(timer).is_split()
                &&& final(timer).sleeping() == old(timer).sleeping()
                &&& poll_future == (!old(timer).has_waker(l) && old(timer).time_of(l) == 0)
                &&& poll_future ==> final(self).delay() is None && final(timer).handles() == old(timer).handles() - 1
                    && final(timer).new_timers() == old(timer).new_timers()
                &&& !poll_future ==> final(self).delay() is Some && final(self).delay().unwrap().link_view() == l
                    && final(self).delay().unwrap().can_poll(*final(timer)) && final(timer).handles()
                    == old(timer).handles()
                &&& !poll_future ==> final(timer).has_waker(l)
                &&& !poll_future && old(timer).has_waker(l) ==> *final(timer) == *old(timer)
                &&& !poll_future && !old(timer).has_waker(l) ==> final(timer).new_timers() == old(
                    timer,
                ).new_timers().push(l)
            },
    {
        match self.delay.take() {
            Some(mut d) => {
                let ghost l = d.link_view();
                let ghost t0 = *timer;
                match d.poll(timer, waker) {
                    Poll::Pending => {
                        self.delay = Some(d);
                        false
                    },
                    Poll::Ready(()) => {
                        proof {
                            assert(*timer == t0);
                            timer.lemma_idle_not_listed(l);
                        }
                        d.release(timer);
                        true
                    },
                }
            },
            None => true,
        }
    }
}

} // verus!
