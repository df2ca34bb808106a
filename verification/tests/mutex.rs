use embedded_async::sync::Mutex;
use embedded_async::task::Poll;
use std::sync::atomic::AtomicBool;
use std::sync::Arc;
use std::task::{Wake, Waker};

struct Flag(AtomicBool);

impl Wake for Flag {
    fn wake(self: Arc<Self>) {
        self.0.store(true, std::sync::atomic::Ordering::SeqCst);
    }
}

fn flag_waker() -> (Arc<Flag>, Waker) {
    let flag = Arc::new(Flag(AtomicBool::new(false)));
    let waker = Waker::from(flag.clone());
    (flag, waker)
}

fn woken(flag: &Arc<Flag>) -> bool {
    flag.0.load(std::sync::atomic::Ordering::SeqCst)
}

fn clear(flag: &Arc<Flag>) {
    flag.0.store(false, std::sync::atomic::Ordering::SeqCst);
}

#[test]
fn new_mutex_unlocked() {
    let mut mutex = Mutex::new(10);
    assert_eq!(mutex.locked(), false);
    let r = mutex.take_ref();
    let guard = r.try_lock(&mut mutex).unwrap();
    assert_eq!(*guard.deref(&mutex), 10);
}

#[test]
fn unlock_works() {
    let mut mutex = Mutex::new(10);
    let mref = mutex.take_ref();
    {
        assert!(!mutex.locked());
        let lock = mref.try_lock(&mut mutex).unwrap();
        assert!(mutex.locked());
        lock.unlock(&mut mutex);
        assert!(!mutex.locked());
    }
}

#[test]
fn lock_blocks() {
    let mut mutex = Mutex::new(10);
    let mref = mutex.take_ref();
    let (flag, waker) = flag_waker();

    let mut lock_poller = mref.lock(&mut mutex);
    let lock = lock_poller.poll(&mut mutex, &waker);
    // Get a lock
    assert!(matches!(lock, Poll::Ready(_)));
    let lock = match lock {
        Poll::Ready(g) => g,
        Poll::Pending => unreachable!(),
    };
    assert_eq!(*lock.deref(&mutex), 10);

    // Make sure no lock future waits for the lock
    assert!(!mutex.has_waiting());
    let mut lock_poller = mref.lock(&mut mutex);
    let lock2 = lock_poller.poll(&mut mutex, &waker);
    let mref2 = mref.clone(&mut mutex);
    assert!(matches!(lock2, Poll::Pending));
    assert!(mutex.has_waiting());

    lock.unlock(&mut mutex);
    assert!(!mutex.has_waiting());
    assert!(woken(&flag));
    {
        let lock2 = lock_poller.poll(&mut mutex, &waker);
        assert!(matches!(lock2, Poll::Ready(_)));
        let lock2 = match lock2 {
            Poll::Ready(g) => g,
            Poll::Pending => unreachable!(),
        };
        lock2.replace(&mut mutex, 40);
        lock2.unlock(&mut mutex);
    }
    let lock = mref2.try_lock(&mut mutex);
    assert!(lock.is_some());
    assert_eq!(*lock.unwrap().deref(&mutex), 40);
}

#[test]
fn try_lock_on_locked_mutex_fails() {
    let mut mutex = Mutex::new(1);
    let mref = mutex.take_ref();
    let g = mref.try_lock(&mut mutex).unwrap();
    assert!(mref.try_lock(&mut mutex).is_none());
    g.unlock(&mut mutex);
    assert!(mref.try_lock(&mut mutex).is_some());
}

#[test]
fn released_lock_future_leaves_the_queue() {
    let mut mutex = Mutex::new(1);
    let mref = mutex.take_ref();
    let (_flag, waker) = flag_waker();
    let g = mref.try_lock(&mut mutex).unwrap();
    let mut fut = mref.lock(&mut mutex);
    assert!(matches!(fut.poll(&mut mutex, &waker), Poll::Pending));
    assert!(mutex.has_waiting());
    fut.release(&mut mutex);
    assert!(!mutex.has_waiting());
    g.unlock(&mut mutex);
}

#[test]
fn guard_source_locks_the_same_mutex() {
    let mut mutex = Mutex::new(3);
    let mref = mutex.take_ref();
    let g = mref.try_lock(&mut mutex).unwrap();
    let again = g.source(&mut mutex);
    assert!(again.try_lock(&mut mutex).is_none());
    g.unlock(&mut mutex);
    assert!(again.try_lock(&mut mutex).is_some());
}
