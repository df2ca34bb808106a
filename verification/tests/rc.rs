use embedded_async::intrusive::rc::{RcAnchor, RcRef};

#[test]
fn ref_count_updates() {
    let mut rc = RcAnchor::new(10);
    assert_eq!(rc.ref_count(), 0);
    let rc_ref = rc.take();
    assert_eq!(rc.ref_count(), 1);
    let rc_ref2 = RcRef::clone(&rc_ref, &mut rc);
    assert_eq!(rc.ref_count(), 2);
    {
        let rc_ref3 = RcRef::clone(&rc_ref, &mut rc);
        assert_eq!(rc.ref_count(), 3);
        rc_ref3.release(&mut rc);
    }
    assert_eq!(rc.ref_count(), 2);
    assert_eq!(*rc_ref.deref(&rc), 10);
    rc_ref2.release(&mut rc);
    rc_ref.release(&mut rc);
    assert!(rc.is_released());
}

#[test]
fn take_then_release_restores_count() {
    let mut rc = RcAnchor::new("value");
    let r = rc.get_ref();
    assert!(!rc.is_released());
    assert_eq!(r.ref_count(&rc), 1);
    r.release(&mut rc);
    assert_eq!(rc.ref_count(), 0);
    assert_eq!(*rc.deref(), "value");
}
