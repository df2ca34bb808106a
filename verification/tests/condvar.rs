use embedded_async::sync::{Condvar, Mutex, WaitUntil};
use embedded_async::task::Poll;
use std::sync::atomic::AtomicBool;
use std::sync::Arc;
use std::task::{Wake, Waker};

struct Flag(AtomicBool);

impl Wake for Flag {
    fn wake(self: Arc<Self>) {
        self.0.store(true, std::sync::atomic::Ordering::SeqCst);
    }
}

fn flag_waker() -> (Arc<Flag>, Waker) {
    let flag = Arc::new(Flag(AtomicBool::new(false)));
    let waker = Waker::from(flag.clone());
    (flag, waker)
}

fn woken(flag: &Arc<Flag>) -> bool {
    flag.0.load(std::sync::atomic::Ordering::SeqCst)
}

fn clear(flag: &Arc<Flag>) {
    flag.0.store(false, std::sync::atomic::Ordering::SeqCst);
}
#[test]
fn notify_one_wakes_the_oldest_waiter() {
    let mut cv = Condvar::new();
    let (notifier, waiter) = cv.split().unwrap();
    let (f1, w1) = flag_waker();
    let (f2, w2) = flag_waker();
    let mut a = waiter.wait_future(&mut cv);
    let mut b = waiter.wait_future(&mut cv);
    assert!(matches!(a.poll(&mut cv, &w1), Poll::Pending));
    assert!(matches!(b.poll(&mut cv, &w2), Poll::Pending));
    notifier.notify_one(&mut cv);
    assert!(woken(&f1));
    assert!(!woken(&f2));
    assert!(matches!(a.poll(&mut cv, &w1), Poll::Ready(Ok(()))));
    assert!(matches!(b.poll(&mut cv, &w2), Poll::Pending));
}

#[test]
fn notify_all_wakes_every_waiter() {
    let mut cv = Condvar::new();
    let (notifier, waiter) = cv.split().unwrap();
    let (f1, w1) = flag_waker();
    let (f2, w2) = flag_waker();
    let mut a = waiter.wait_future(&mut cv);
    let mut b = waiter.wait_future(&mut cv);
    assert!(matches!(a.poll(&mut cv, &w1), Poll::Pending));
    assert!(matches!(b.poll(&mut cv, &w2), Poll::Pending));
    notifier.notify_all(&mut cv);
    assert!(woken(&f1));
    assert!(woken(&f2));
    assert!(matches!(a.poll(&mut cv, &w1), Poll::Ready(Ok(()))));
    assert!(matches!(b.poll(&mut cv, &w2), Poll::Ready(Ok(()))));
}

#[test]
fn dropping_last_notifier_ends_the_wait_with_an_error() {
    let mut cv = Condvar::new();
    let (notifier, waiter) = cv.split().unwrap();
    let (f1, w1) = flag_waker();
    let mut a = waiter.wait_future(&mut cv);
    assert!(matches!(a.poll(&mut cv, &w1), Poll::Pending));
    notifier.release(&mut cv);
    assert!(woken(&f1));
    assert!(matches!(a.poll(&mut cv, &w1), Poll::Ready(Ok(()))));
    let mut b = waiter.wait_future(&mut cv);
    assert!(matches!(b.poll(&mut cv, &w1), Poll::Ready(Err(_))));
}

#[test]
fn wait_relocks_the_mutex_after_notification() {
    let mut cv = Condvar::new();
    let (notifier, waiter) = cv.split().unwrap();
    let mut mutex = Mutex::new(0);
    let mref = mutex.take_ref();
    let guard = mref.try_lock(&mut mutex).unwrap();
    let (flag, w) = flag_waker();
    let mut wait = waiter.wait(&mut cv, &mut mutex, guard);
    assert!(!mutex.locked());
    assert!(matches!(wait.poll(&mut cv, &mut mutex, &w), Poll::Pending));
    notifier.notify_one(&mut cv);
    assert!(woken(&flag));
    let g = match wait.poll(&mut cv, &mut mutex, &w) {
        Poll::Ready(Ok(g)) => g,
        _ => panic!("the wait should be over"),
    };
    assert!(mutex.locked());
    g.unlock(&mut mutex);
}

#[test]
fn wait_until_step_hands_back_the_guard_when_satisfied() {
    let mut cv = Condvar::new();
    let (_notifier, waiter) = cv.split().unwrap();
    let mut mutex = Mutex::new(5);
    let mref = mutex.take_ref();
    let guard = mref.try_lock(&mut mutex).unwrap();
    let satisfied = *guard.deref(&mutex) == 5;
    match waiter.wait_until_step(&mut cv, &mut mutex, guard, satisfied) {
        WaitUntil::Satisfied(g) => g.unlock(&mut mutex),
        WaitUntil::Waiting(_) => panic!("the condition holds"),
    }
    let guard = mref.try_lock(&mut mutex).unwrap();
    match waiter.wait_until_step(&mut cv, &mut mutex, guard, false) {
        WaitUntil::Satisfied(_) => panic!("the condition does not hold"),
        WaitUntil::Waiting(_) => assert!(!mutex.locked()),
    }
}
