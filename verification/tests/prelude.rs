use embedded_async::prelude::{poll_to_option, DelayFuture, Join, Race, TimeoutError, TimeoutFuture};
use embedded_async::task::Poll;
use embedded_async::timer::{Timer, TimerBackend};
use std::sync::atomic::AtomicBool;
use std::sync::Arc;
use std::task::{Wake, Waker};

struct Flag(AtomicBool);

impl Wake for Flag {
    fn wake(self: Arc<Self>) {
        self.0.store(true, std::sync::atomic::Ordering::SeqCst);
    }
}

fn flag_waker() -> (Arc<Flag>, Waker) {
    let flag = Arc::new(Flag(AtomicBool::new(false)));
    let waker = Waker::from(flag.clone());
    (flag, waker)
}

fn woken(flag: &Arc<Flag>) -> bool {
    flag.0.load(std::sync::atomic::Ordering::SeqCst)
}

fn clear(flag: &Arc<Flag>) {
    flag.0.store(false, std::sync::atomic::Ordering::SeqCst);
}
struct NoBackend;

impl TimerBackend for NoBackend {
    type Duration = u32;

    fn wake_in(&mut self, _waker: Waker, _dur: u32) {}

    fn pause(&mut self) -> u32 {
        0
    }
}

#[test]
fn poll_to_option_maps_ready_and_pending() {
    assert_eq!(poll_to_option(Poll::Ready(3)), Some(3));
    assert_eq!(poll_to_option::<i32>(Poll::Pending), None);
}

#[test]
fn race_finishes_with_the_first_ready_future() {
    let mut race: Race<i32, &str> = Race::new();
    assert!(race.needs_poll());
    assert!(race.first_polled(Poll::Pending));
    race.second_polled(Poll::Pending);
    assert_eq!(race.output(), Poll::Pending);

    assert!(race.needs_poll());
    assert!(!race.first_polled(Poll::Ready(7)));
    assert_eq!(race.output(), Poll::Ready((Some(7), None)));

    assert!(race.first_polled(Poll::Pending));
    race.second_polled(Poll::Ready("late"));
    assert_eq!(race.output(), Poll::Ready((None, Some("late"))));
}

#[test]
fn join_waits_for_both() {
    let mut join: Join<i32, i32> = Join::new();
    join.first_polled(Poll::Ready(1));
    join.second_polled(Poll::Pending);
    assert_eq!(join.output(), Poll::Pending);
    assert!(!join.first_pending());
    assert!(join.second_pending());
    join.second_polled(Poll::Ready(2));
    assert_eq!(join.output(), Poll::Ready((1, 2)));
}

#[test]
fn timeout_gives_value_or_error() {
    let mut t: TimeoutFuture<i32> = TimeoutFuture::new();
    assert!(t.needs_poll());
    assert!(t.future_polled(Poll::Pending));
    t.delay_polled(Poll::Pending);
    assert_eq!(t.output(), Poll::Pending);
    assert!(t.future_polled(Poll::Pending));
    t.delay_polled(Poll::Ready(()));
    assert_eq!(t.output(), Poll::Ready(Err(TimeoutError)));

    let mut t: TimeoutFuture<i32> = TimeoutFuture::new();
    assert!(!t.future_polled(Poll::Ready(4)));
    assert_eq!(t.output(), Poll::Ready(Ok(4)));
}

#[test]
fn delay_future_polls_the_future_after_the_delay() {
    let mut timer = Timer::new(NoBackend);
    let (_task, handle) = timer.split().unwrap();
    let (_f, w) = flag_waker();
    let d = handle.delay(&mut timer, 10u32);
    let mut df = DelayFuture::new(d);
    assert!(!df.poll_delay(&mut timer, &w));
    assert_eq!(timer.process(10), Some(10));
    assert!(!df.poll_delay(&mut timer, &w));
    assert_eq!(timer.process(10), None);
    assert!(df.poll_delay(&mut timer, &w));
    assert!(df.poll_delay(&mut timer, &w));
}
