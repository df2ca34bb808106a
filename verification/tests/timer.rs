use embedded_async::task::Poll;
use embedded_async::timer::{Duration, Timer, TimerBackend};
use std::cell::Cell;
use std::rc::Rc;
use std::sync::atomic::AtomicBool;
use std::sync::Arc;
use std::task::{Wake, Waker};

struct Flag(AtomicBool);

impl Wake for Flag {
    fn wake(self: Arc<Self>) {
        self.0.store(true, std::sync::atomic::Ordering::SeqCst);
    }
}

fn flag_waker() -> (Arc<Flag>, Waker) {
    let flag = Arc::new(Flag(AtomicBool::new(false)));
    let waker = Waker::from(flag.clone());
    (flag, waker)
}

fn woken(flag: &Arc<Flag>) -> bool {
    flag.0.load(std::sync::atomic::Ordering::SeqCst)
}

fn clear(flag: &Arc<Flag>) {
    flag.0.store(false, std::sync::atomic::Ordering::SeqCst);
}
/// A backend that reports the time it is told to, and records the last wait it was asked for.
struct TestBackend {
    elapsed: Rc<Cell<u32>>,
    started: Rc<Cell<Option<u32>>>,
}

impl TimerBackend for TestBackend {
    type Duration = u32;

    fn wake_in(&mut self, _waker: Waker, dur: u32) {
        self.started.set(Some(dur));
    }

    fn pause(&mut self) -> u32 {
        let e = self.elapsed.get();
        self.elapsed.set(0);
        e
    }
}

fn backend() -> (TestBackend, Rc<Cell<u32>>, Rc<Cell<Option<u32>>>) {
    let elapsed = Rc::new(Cell::new(0));
    let started = Rc::new(Cell::new(None));
    (TestBackend { elapsed: elapsed.clone(), started: started.clone() }, elapsed, started)
}

#[test]
fn duration_arithmetic() {
    assert_eq!(<u32 as Duration>::zero(), 0);
    assert!(Duration::is_zero(&0u64));
    assert_eq!(Duration::saturating_sub(&5u32, &7u32), 0);
    assert_eq!(Duration::saturating_sub(&9u64, &7u64), 2);
    assert_eq!(Duration::min(&9u32, &7u32), 7);
}

#[test]
fn timer_splits_only_once() {
    let (b, _, _) = backend();
    let mut timer = Timer::new(b);
    assert!(timer.split().is_some());
    assert!(timer.split().is_none());
}

#[test]
fn delay_runs_out_after_its_time() {
    let (b, elapsed, started) = backend();
    let mut timer = Timer::new(b);
    let (task, handle) = timer.split().unwrap();
    let (task_flag, task_waker) = flag_waker();
    let (delay_flag, delay_waker) = flag_waker();

    let mut delay = handle.delay(&mut timer, 100u32);
    assert!(matches!(delay.poll(&mut timer, &delay_waker), Poll::Pending));
    assert!(matches!(task.poll(&mut timer, &task_waker), Poll::Pending));
    assert_eq!(started.get(), Some(100));
    assert!(!delay_flag.0.load(std::sync::atomic::Ordering::SeqCst));

    elapsed.set(40);
    started.set(None);
    assert!(matches!(task.poll(&mut timer, &task_waker), Poll::Pending));
    assert_eq!(started.get(), Some(60));
    assert!(matches!(delay.poll(&mut timer, &delay_waker), Poll::Pending));

    elapsed.set(60);
    started.set(None);
    assert!(matches!(task.poll(&mut timer, &task_waker), Poll::Pending));
    assert!(woken(&delay_flag));
    assert_eq!(started.get(), None);
    assert!(matches!(delay.poll(&mut timer, &delay_waker), Poll::Ready(())));
    let _ = task_flag;
}

#[test]
fn shortest_delay_sets_the_wait() {
    let (b, elapsed, started) = backend();
    let mut timer = Timer::new(b);
    let (task, handle) = timer.split().unwrap();
    let (_tf, task_waker) = flag_waker();
    let (f1, w1) = flag_waker();
    let (f2, w2) = flag_waker();

    let mut long = handle.delay(&mut timer, 50u32);
    let mut short = handle.delay(&mut timer, 20u32);
    assert!(matches!(long.poll(&mut timer, &w1), Poll::Pending));
    assert!(matches!(short.poll(&mut timer, &w2), Poll::Pending));
    assert!(matches!(task.poll(&mut timer, &task_waker), Poll::Pending));
    assert_eq!(started.get(), Some(20));

    elapsed.set(20);
    assert!(matches!(task.poll(&mut timer, &task_waker), Poll::Pending));
    assert!(woken(&f2));
    assert!(!woken(&f1));
    assert_eq!(started.get(), Some(30));
}

#[test]
fn zero_delay_is_ready_at_once() {
    let (b, _, _) = backend();
    let mut timer = Timer::new(b);
    let (_task, handle) = timer.split().unwrap();
    let (_f, w) = flag_waker();
    let mut d = handle.delay(&mut timer, 0u32);
    assert!(matches!(d.poll(&mut timer, &w), Poll::Ready(())));
}

#[test]
fn starting_a_delay_wakes_the_task() {
    let (b, _, _) = backend();
    let mut timer = Timer::new(b);
    let (task, handle) = timer.split().unwrap();
    let (tf, tw) = flag_waker();
    let (_f, w) = flag_waker();
    assert!(matches!(task.poll(&mut timer, &tw), Poll::Pending));
    let mut d = handle.delay(&mut timer, 5u32);
    assert!(matches!(d.poll(&mut timer, &w), Poll::Pending));
    assert!(woken(&tf));
}

#[test]
fn task_finishes_when_handles_are_gone() {
    let (b, _, _) = backend();
    let mut timer = Timer::new(b);
    let (task, handle) = timer.split().unwrap();
    let (tf, tw) = flag_waker();
    assert!(matches!(task.poll(&mut timer, &tw), Poll::Pending));
    handle.release(&mut timer);
    assert!(woken(&tf));
    assert!(matches!(task.poll(&mut timer, &tw), Poll::Ready(())));
    task.release(&mut timer);
    assert!(timer.consume().is_some());
}

#[test]
fn process_counts_time_off() {
    let (b, _, _) = backend();
    let mut timer = Timer::new(b);
    let (_task, handle) = timer.split().unwrap();
    let (_f, w) = flag_waker();
    let mut d = handle.delay(&mut timer, 30u32);
    assert!(matches!(d.poll(&mut timer, &w), Poll::Pending));
    assert_eq!(timer.process(0), Some(30));
    assert_eq!(timer.process(10), Some(20));
    assert_eq!(timer.process(25), None);
    assert!(matches!(d.poll(&mut timer, &w), Poll::Ready(())));
}

#[test]
fn released_delay_leaves_the_timer() {
    let (b, _, _) = backend();
    let mut timer = Timer::new(b);
    let (_task, handle) = timer.split().unwrap();
    let (_f, w) = flag_waker();
    let mut d = handle.delay(&mut timer, 30u32);
    assert!(matches!(d.poll(&mut timer, &w), Poll::Pending));
    d.release(&mut timer);
    assert_eq!(timer.process(1), None);
}
