use embedded_async::task::{yield_now, Poll};
use std::sync::atomic::AtomicBool;
use std::sync::Arc;
use std::task::{Wake, Waker};

struct Flag(AtomicBool);

impl Wake for Flag {
    fn wake(self: Arc<Self>) {
        self.0.store(true, std::sync::atomic::Ordering::SeqCst);
    }
}

fn flag_waker() -> (Arc<Flag>, Waker) {
    let flag = Arc::new(Flag(AtomicBool::new(false)));
    let waker = Waker::from(flag.clone());
    (flag, waker)
}

fn woken(flag: &Arc<Flag>) -> bool {
    flag.0.load(std::sync::atomic::Ordering::SeqCst)
}

fn clear(flag: &Arc<Flag>) {
    flag.0.store(false, std::sync::atomic::Ordering::SeqCst);
}
#[test]
fn yield_now_is_pending_once_and_wakes() {
    let (flag, w) = flag_waker();
    let mut y = yield_now();
    assert_eq!(y.poll(&w), Poll::Pending);
    assert!(woken(&flag));
    assert_eq!(y.poll(&w), Poll::Ready(()));
    assert_eq!(y.poll(&w), Poll::Ready(()));
}
