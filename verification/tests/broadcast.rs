use embedded_async::channel::broadcast::{Broadcast, ReceiveError, SendError};
use embedded_async::task::Poll;
use std::sync::atomic::AtomicBool;
use std::sync::Arc;
use std::task::{Wake, Waker};

struct Flag(AtomicBool);

impl Wake for Flag {
    fn wake(self: Arc<Self>) {
        self.0.store(true, std::sync::atomic::Ordering::SeqCst);
    }
}

fn flag_waker() -> (Arc<Flag>, Waker) {
    let flag = Arc::new(Flag(AtomicBool::new(false)));
    let waker = Waker::from(flag.clone());
    (flag, waker)
}

fn woken(flag: &Arc<Flag>) -> bool {
    flag.0.load(std::sync::atomic::Ordering::SeqCst)
}

fn clear(flag: &Arc<Flag>) {
    flag.0.store(false, std::sync::atomic::Ordering::SeqCst);
}
#[test]
fn publish_reaches_every_waiting_subscriber() {
    let mut b: Broadcast<i32> = Broadcast::new();
    let (tx, sub) = b.split().unwrap();
    let (f1, w1) = flag_waker();
    let (f2, w2) = flag_waker();
    let mut s1 = sub.subscribe(&mut b);
    let mut s2 = sub.subscribe(&mut b);
    assert_eq!(s1.poll(&mut b, &w1), Poll::Pending);
    assert_eq!(s2.poll(&mut b, &w2), Poll::Pending);
    assert_eq!(tx.publish(&mut b, 7), Ok(()));
    assert!(woken(&f1));
    assert!(woken(&f2));
    assert_eq!(s1.poll(&mut b, &w1), Poll::Ready(Ok(7)));
    assert_eq!(s2.poll(&mut b, &w2), Poll::Ready(Ok(7)));
}

#[test]
fn publish_without_subscribers_fails() {
    let mut b: Broadcast<i32> = Broadcast::new();
    let (tx, sub) = b.split().unwrap();
    sub.release(&mut b);
    assert_eq!(tx.publish(&mut b, 1), Err(SendError));
}

#[test]
fn last_sender_gone_ends_subscriptions() {
    let mut b: Broadcast<i32> = Broadcast::new();
    let (tx, sub) = b.split().unwrap();
    let (f1, w1) = flag_waker();
    let mut s1 = sub.subscribe(&mut b);
    assert_eq!(s1.poll(&mut b, &w1), Poll::Pending);
    tx.release(&mut b);
    assert!(woken(&f1));
    assert_eq!(s1.poll(&mut b, &w1), Poll::Ready(Err(ReceiveError)));
    let mut s2 = sub.subscribe(&mut b);
    assert_eq!(s2.poll(&mut b, &w1), Poll::Ready(Err(ReceiveError)));
}

#[test]
fn value_published_before_subscribing_is_missed() {
    let mut b: Broadcast<i32> = Broadcast::new();
    let (tx, sub) = b.split().unwrap();
    let (_f, w) = flag_waker();
    assert_eq!(tx.publish(&mut b, 1), Ok(()));
    let mut s = sub.subscribe(&mut b);
    assert_eq!(s.poll(&mut b, &w), Poll::Pending);
    assert_eq!(tx.publish(&mut b, 2), Ok(()));
    assert_eq!(s.poll(&mut b, &w), Poll::Ready(Ok(2)));
}
