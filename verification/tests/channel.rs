use embedded_async::channel::{Channel, SendError, TryRecvError, TrySendError, RecvError};
use embedded_async::task::Poll;
use std::sync::atomic::AtomicBool;
use std::sync::Arc;
use std::task::{Wake, Waker};

struct Flag(AtomicBool);

impl Wake for Flag {
    fn wake(self: Arc<Self>) {
        self.0.store(true, std::sync::atomic::Ordering::SeqCst);
    }
}

fn flag_waker() -> (Arc<Flag>, Waker) {
    let flag = Arc::new(Flag(AtomicBool::new(false)));
    let waker = Waker::from(flag.clone());
    (flag, waker)
}

fn woken(flag: &Arc<Flag>) -> bool {
    flag.0.load(std::sync::atomic::Ordering::SeqCst)
}

#[test]
fn split_sets_ints_refs() {
    let mut chan: Channel<i32, 8> = Channel::new();
    let (sender, receiver) = chan.split().unwrap();
    assert_eq!(chan.receiver_ref_count(), 1);
    assert_eq!(chan.sender_ref_count(), 1);

    sender.release(&mut chan);
    assert_eq!(chan.receiver_ref_count(), 1);
    assert_eq!(chan.sender_ref_count(), 0);

    receiver.release(&mut chan);
    assert_eq!(chan.receiver_ref_count(), 0);
    assert_eq!(chan.sender_ref_count(), 0);
}

#[test]
fn send_receive_one() {
    let mut chan: Channel<i32, 8> = Channel::new();
    let (sender, rx) = chan.split().unwrap();
    assert_eq!(sender.len(&chan), 0);
    assert_eq!(rx.len(&chan), 0);
    assert_eq!(rx.try_recv(&mut chan).unwrap_err(), TryRecvError::Empty);
    assert!(sender.try_send(&mut chan, 10).is_ok());
    assert_eq!(sender.len(&chan), 1);
    assert_eq!(rx.len(&chan), 1);
    assert_eq!(rx.try_recv(&mut chan).unwrap(), 10);
    assert_eq!(sender.len(&chan), 0);
    assert_eq!(rx.len(&chan), 0);
}

#[test]
fn receive_closed() {
    let mut chan: Channel<i32, 8> = Channel::new();
    let (sender, rx) = chan.split().unwrap();
    assert_eq!(sender.len(&chan), 0);
    assert_eq!(rx.len(&chan), 0);
    assert_eq!(rx.try_recv(&mut chan).unwrap_err(), TryRecvError::Empty);
    assert!(sender.try_send(&mut chan, 10).is_ok());
    assert_eq!(sender.len(&chan), 1);
    assert_eq!(rx.len(&chan), 1);
    sender.release(&mut chan);

    assert_eq!(rx.try_recv(&mut chan).unwrap(), 10);
    assert_eq!(rx.len(&chan), 0);
    assert_eq!(rx.try_recv(&mut chan).unwrap_err(), TryRecvError::Closed);
}

#[test]
fn send_closed() {
    let mut chan: Channel<i32, 8> = Channel::new();
    let (sender, rx) = chan.split().unwrap();
    assert_eq!(sender.len(&chan), 0);
    assert_eq!(rx.len(&chan), 0);
    assert_eq!(rx.try_recv(&mut chan).unwrap_err(), TryRecvError::Empty);
    assert!(sender.try_send(&mut chan, 10).is_ok());
    assert_eq!(sender.len(&chan), 1);
    assert_eq!(rx.len(&chan), 1);
    rx.release(&mut chan);

    assert_eq!(sender.try_send(&mut chan, 20).unwrap_err(), TrySendError::Closed(20));
    assert_eq!(sender.len(&chan), 1);
}

#[test]
fn channel_is_first_in_first_out() {
    let mut chan: Channel<i32, 4> = Channel::new();
    let (tx, rx) = chan.split().unwrap();
    for v in [1, 2, 3] {
        assert!(tx.try_send(&mut chan, v).is_ok());
    }
    assert_eq!(rx.try_recv(&mut chan), Ok(1));
    assert_eq!(rx.try_recv(&mut chan), Ok(2));
    assert_eq!(rx.try_recv(&mut chan), Ok(3));
    assert_eq!(rx.try_recv(&mut chan), Err(TryRecvError::Empty));
}

#[test]
fn full_channel_refuses_and_gives_value_back() {
    let mut chan: Channel<i32, 2> = Channel::new();
    let (tx, rx) = chan.split().unwrap();
    assert!(tx.try_send(&mut chan, 1).is_ok());
    assert!(tx.try_send(&mut chan, 2).is_ok());
    assert_eq!(tx.try_send(&mut chan, 3), Err(TrySendError::Full(3)));
    assert_eq!(rx.len(&chan), 2);
}

#[test]
fn channel_splits_only_once() {
    let mut chan: Channel<i32, 4> = Channel::new();
    assert!(chan.split().is_some());
    assert!(chan.split().is_none());
}

#[test]
fn receive_future_waits_then_gets_value() {
    let mut chan: Channel<i32, 4> = Channel::new();
    let (tx, rx) = chan.split().unwrap();
    let (flag, waker) = flag_waker();
    let mut fut = rx.recv(&mut chan);
    assert!(matches!(fut.poll(&mut chan, &waker), Poll::Pending));
    assert!(!woken(&flag));
    assert!(tx.try_send(&mut chan, 5).is_ok());
    assert!(woken(&flag));
    assert!(matches!(fut.poll(&mut chan, &waker), Poll::Ready(Ok(5))));
    fut.release(&mut chan);
}

#[test]
fn receive_future_errors_once_senders_are_gone() {
    let mut chan: Channel<i32, 4> = Channel::new();
    let (tx, rx) = chan.split().unwrap();
    let (flag, waker) = flag_waker();
    let mut fut = rx.recv(&mut chan);
    assert!(matches!(fut.poll(&mut chan, &waker), Poll::Pending));
    tx.release(&mut chan);
    assert!(woken(&flag));
    assert!(matches!(fut.poll(&mut chan, &waker), Poll::Ready(Err(RecvError))));
}

#[test]
fn send_future_waits_for_room() {
    let mut chan: Channel<i32, 1> = Channel::new();
    let (tx, rx) = chan.split().unwrap();
    assert!(tx.try_send(&mut chan, 1).is_ok());
    let (flag, waker) = flag_waker();
    let mut fut = tx.send(&mut chan, 2);
    assert!(matches!(fut.poll(&mut chan, &waker), Poll::Pending));
    assert_eq!(rx.try_recv(&mut chan), Ok(1));
    assert!(woken(&flag));
    assert!(matches!(fut.poll(&mut chan, &waker), Poll::Ready(Ok(()))));
    assert_eq!(rx.try_recv(&mut chan), Ok(2));
}

#[test]
fn send_future_gets_value_back_when_closed() {
    let mut chan: Channel<i32, 4> = Channel::new();
    let (tx, rx) = chan.split().unwrap();
    rx.release(&mut chan);
    let (_flag, waker) = flag_waker();
    let mut fut = tx.send(&mut chan, 9);
    assert!(matches!(fut.poll(&mut chan, &waker), Poll::Ready(Err(SendError(9)))));
}

#[test]
fn released_receive_future_is_not_woken() {
    let mut chan: Channel<i32, 4> = Channel::new();
    let (tx, rx) = chan.split().unwrap();
    let (flag, waker) = flag_waker();
    let mut fut = rx.recv(&mut chan);
    assert!(matches!(fut.poll(&mut chan, &waker), Poll::Pending));
    fut.release(&mut chan);
    assert!(tx.try_send(&mut chan, 1).is_ok());
    assert!(!woken(&flag));
}
