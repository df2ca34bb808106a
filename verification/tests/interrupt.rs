use embedded_async::interrupt::{AppCtx, IrqCtx, Waker as IrqWaker, HAS_WAKER_FLAG, LOCKED_FLAG, WAKE_REQUESTED};
use std::sync::atomic::AtomicBool;
use std::sync::Arc;
use std::task::{Wake, Waker};

struct Flag(AtomicBool);

impl Wake for Flag {
    fn wake(self: Arc<Self>) {
        self.0.store(true, std::sync::atomic::Ordering::SeqCst);
    }
}

fn flag_waker() -> (Arc<Flag>, Waker) {
    let flag = Arc::new(Flag(AtomicBool::new(false)));
    let waker = Waker::from(flag.clone());
    (flag, waker)
}

fn woken(flag: &Arc<Flag>) -> bool {
    flag.0.load(std::sync::atomic::Ordering::SeqCst)
}

fn clear(flag: &Arc<Flag>) {
    flag.0.store(false, std::sync::atomic::Ordering::SeqCst);
}

#[test]
fn set_waker() {
    let mut waker = IrqWaker::new();
    assert_eq!(waker.flags(), 0);
    let (flag, w) = flag_waker();
    waker.set_waker(w, AppCtx);
    assert_eq!(waker.flags(), HAS_WAKER_FLAG);
    waker.wake(IrqCtx);
    assert_eq!(waker.flags(), 0);
    assert!(woken(&flag));
}

#[test]
fn wake_while_setting() {
    let mut waker = IrqWaker::new();
    assert_eq!(waker.flags(), 0);
    waker.lock(&AppCtx);
    assert_eq!(waker.flags(), LOCKED_FLAG);
    waker.wake(IrqCtx);
    let (flag, w) = flag_waker();
    assert!(!woken(&flag));
    assert_eq!(waker.flags() & WAKE_REQUESTED, WAKE_REQUESTED);
    waker.set_waker(w, AppCtx);
    assert!(woken(&flag));
}

#[test]
fn wake_without_waker_does_nothing() {
    let mut waker = IrqWaker::new();
    waker.wake(IrqCtx);
    assert_eq!(waker.flags(), 0);
}

#[test]
fn requested_wake_is_cleared_after_set() {
    let mut waker = IrqWaker::new();
    waker.lock(&AppCtx);
    waker.wake(IrqCtx);
    let (flag, w) = flag_waker();
    assert!(waker.store_and_unlock(w, AppCtx));
    assert!(woken(&flag));
    assert_eq!(waker.flags(), HAS_WAKER_FLAG);
    clear(&flag);
    waker.wake(IrqCtx);
    assert!(woken(&flag));
    assert_eq!(waker.flags(), 0);
}

#[test]
fn second_set_waker_replaces_the_first() {
    let mut waker = IrqWaker::new();
    let (first, w1) = flag_waker();
    let (second, w2) = flag_waker();
    waker.set_waker(w1, AppCtx);
    waker.set_waker(w2, AppCtx);
    waker.wake(IrqCtx);
    assert!(!woken(&first));
    assert!(woken(&second));
    clear(&second);
}
