//! A waker shared between an interrupt handler and the application.
//!
//! The application stores the waker of its task; the interrupt wakes it. Three flags
//! coordinate the two sides: whether a waker is stored, whether the application is in the
//! middle of storing one (locked), and whether the interrupt asked for a wake while it
//! was locked. Storing is split into `lock` and `store_and_unlock` so that an interrupt
//! can be modelled between the two steps; `set_waker` does both.
use vstd::prelude::*;
use crate::task::{WakeLog, wake, clone_waker};

verus! {

/// A waker is stored.
pub const HAS_WAKER_FLAG: u8 = 1u8;

/// The application is storing a waker.
pub const LOCKED_FLAG: u8 = 2u8;

/// A wake came while the application was storing a waker.
pub const WAKE_REQUESTED: u8 = 4u8;

/// Marker for functions called from an interrupt.
pub struct IrqCtx;

/// Marker for functions called from the application.
pub struct AppCtx;

/// A waker that an interrupt can wake and the application can set.
pub struct Waker {
    waker: Option<core::task::Waker>,
    flags: u8,
    wakes: WakeLog,
}

/// Whether `bit` is set in `flags`.
pub open spec fn has_bit(flags: u8, bit: u8) -> bool {
    flags & bit == bit
}

impl Waker {
    /// The waker's invariant: the waker flag tells whether a waker is stored.
    pub closed spec fn wf(&self) -> bool {
        has_bit(self.flags, HAS_WAKER_FLAG) == (self.waker is Some)
    }

    /// The flags.
    pub closed spec fn flags_view(&self) -> u8 {
        self.flags
    }

    /// The waker stored, if any.
    pub closed spec fn stored(&self) -> Option<core::task::Waker> {
        self.waker
    }

    /// The wakers woken, oldest first.
    pub closed spec fn woken(&self) -> Seq<core::task::Waker> {
        self.wakes.wakers()
    }

    /// How many times a stored waker has been woken.
    pub closed spec fn wake_count(&self) -> nat {
        self.wakes.ids().len()
    }

    /// A waker is stored.
    pub open spec fn has_waker(&self) -> bool {
        has_bit(self.flags_view(), HAS_WAKER_FLAG)
    }

    /// The application is storing a waker.
    pub open spec fn is_locked(&self) -> bool {
        has_bit(self.flags_view(), LOCKED_FLAG)
    }

    /// A wake is waiting for the application to finish storing.
    pub open spec fn wake_requested(&self) -> bool {
        has_bit(self.flags_view(), WAKE_REQUESTED)
    }

    /// No waker stored, no flag set.
    pub fn new() -> (r: Self)
        ensures
            r.wf(),
            r.flags_view() == 0,
            r.stored() is None,
            r.wake_count() == 0,
    {
        proof {
            assert(0u8 & 1u8 == 0u8) by (bit_vector);
        }
        Waker { waker: None, flags: 0, wakes: WakeLog::new() }
    }

    /// The flags.
    pub fn flags(&self) -> (r: u8)
        ensures
            r == self.flags_view(),
    {
        self.flags
    }

    /// Wakes the stored waker, from an interrupt. While the application is storing a
    /// waker the wake is only requested, and `store_and_unlock` performs it. Otherwise a
    /// stored waker is woken and removed; with none stored nothing happens.
    pub fn wake(&mut self, _ctx: IrqCtx)
        requires
            old(self).wf(),
        ensures
            final(self).wf(),
            old(self).is_locked() ==> final(self).flags_view() == old(self).flags_view() | WAKE_REQUESTED
                && final(self).wake_requested(),
            !old(self).is_locked() && old(self).has_waker() ==> final(self).flags_view() == old(self).flags_view()
                & !HAS_WAKER_FLAG,
            !old(self).is_locked() && !old(self).has_waker() ==> final(self).flags_view() == old(self).flags_view(),
            final(self).wake_count() == (if !old(self).is_locked() && old(self).has_waker() {
                old(self).wake_count() + 1
            } else {
                old(self).wake_count()
            }),
            final(self).stored() == (if !old(self).is_locked() && old(self).has_waker() {
                None
            } else {
                old(self).stored()
            }),
            final(self).woken() == (if !old(self).is_locked() && old(self).has_waker() {
                old(self).woken().push(old(self).stored().unwrap())
            } else {
                old(self).woken()
            }),
    {
        let flag = self.flags;
        if flag & LOCKED_FLAG == LOCKED_FLAG {
            let new_flags = flag | WAKE_REQUESTED;
            proof {
                assert((flag | 4u8) & 1u8 == flag & 1u8) by (bit_vector);
                assert((flag | 4u8) & 4u8 == 4u8) by (bit_vector);
            }
            self.flags = new_flags;
        } else if flag & HAS_WAKER_FLAG == HAS_WAKER_FLAG {
            match self.waker.take() {
                Some(w) => {
                    let woken = wake(w);
                    self.wakes.record(woken, Ghost(0));
                },
                None => {
                    proof {
                        assert(false);
                    }
                },
            }
            proof {
                assert((flag & !1u8) & 1u8 != 1u8) by (bit_vector);
            }
            self.flags = flag & !HAS_WAKER_FLAG;
        }
    }

    /// Marks the start of storing a waker, from the application.
    pub fn lock(&mut self, _ctx: &AppCtx)
        requires
            old(self).wf(),
        ensures
            final(self).wf(),
            final(self).flags_view() == old(self).flags_view() | LOCKED_FLAG,
            final(self).wake_count() == old(self).wake_count(),
            final(self).stored() == old(self).stored(),
            final(self).woken() == old(self).woken(),
    {
        let flag = self.flags;
        proof {
            assert((flag | 2u8) & 1u8 == flag & 1u8) by (bit_vector);
        }
        self.flags = flag | LOCKED_FLAG;
    }

    /// Stores a clone of `waker`, in place of the waker stored before, and unlocks. When a
    /// wake was requested while locked, `waker` is woken and the request is cleared.
    /// Returns whether it was woken.
    pub fn store_and_unlock(&mut self, waker: core::task::Waker, _ctx: AppCtx) -> (woken: bool)
        requires
            old(self).wf(),
        ensures
            final(self).wf(),
            final(self).flags_view() == (old(self).flags_view() | HAS_WAKER_FLAG) & !LOCKED_FLAG & !WAKE_REQUESTED,
            woken == old(self).wake_requested(),
            final(self).stored() matches Some(w) && cloned(waker, w),
            final(self).woken() == (if old(self).wake_requested() {
                old(self).woken().push(waker)
            } else {
                old(self).woken()
            }),
            final(self).wake_count() == (if old(self).wake_requested() {
                old(self).wake_count() + 1
            } else {
                old(self).wake_count()
            }),
    {
        self.waker = Some(clone_waker(&waker));
        let f0 = self.flags;
        let flag = f0 | HAS_WAKER_FLAG;
        let unlocked = flag & !LOCKED_FLAG;
        let requested = unlocked & WAKE_REQUESTED == WAKE_REQUESTED;
        if requested {
            let woken = wake(waker);
            self.wakes.record(woken, Ghost(0));
        }
        proof {
            assert(flag & 1u8 == 1u8) by (bit_vector)
                requires
                    flag == f0 | 1u8,
            ;
            assert(((flag & !2u8) & !4u8) & 1u8 == 1u8) by (bit_vector)
                requires
                    flag & 1u8 == 1u8,
            ;
            assert((unlocked & 4u8 != 4u8) ==> unlocked == unlocked & !4u8) by (bit_vector);
            assert((unlocked & 4u8 == 4u8) == (f0 & 4u8 == 4u8)) by (bit_vector)
                requires
                    flag == f0 | 1u8,
                    unlocked == flag & !2u8,
            ;
        }
        self.flags = unlocked & !WAKE_REQUESTED;
        requested
    }

    /// Stores a clone of `waker`, from the application (`lock`, then `store_and_unlock`).
    /// The waker stored before, if any, is dropped.
    pub fn set_waker(&mut self, waker: core::task::Waker, ctx: AppCtx)
        requires
            old(self).wf(),
        ensures
            final(self).wf(),
            final(self).stored() matches Some(w) && cloned(waker, w),
            final(self).woken() == (if old(self).wake_requested() {
                old(self).woken().push(waker)
            } else {
                old(self).woken()
            }),
            final(self).flags_view() == (old(self).flags_view() | HAS_WAKER_FLAG) & !LOCKED_FLAG & !WAKE_REQUESTED,
            final(self).wake_count() == (if old(self).wake_requested() {
                old(self).wake_count() + 1
            } else {
                old(self).wake_count()
            }),
    {
        let f0 = self.flags;
        self.lock(&ctx);
        let _ = self.store_and_unlock(waker, ctx);
        proof {
            assert((((f0 | 2u8) | 1u8) & !2u8) & !4u8 == ((f0 | 1u8) & !2u8) & !4u8) by (bit_vector);
            assert(((f0 | 2u8) & 4u8 == 4u8) == (f0 & 4u8 == 4u8)) by (bit_vector);
        }
    }
}

/// A wake that comes while the application stores a waker is not lost: it is left as a
/// request, and finishing the store performs it and clears the request.
pub proof fn law_wake_while_locked_is_kept(flags: u8)
    ensures
        has_bit(flags | LOCKED_FLAG, LOCKED_FLAG),
        has_bit((flags | LOCKED_FLAG) | WAKE_REQUESTED, WAKE_REQUESTED),
        !has_bit((((flags | LOCKED_FLAG) | WAKE_REQUESTED) | HAS_WAKER_FLAG) & !LOCKED_FLAG & !WAKE_REQUESTED, WAKE_REQUESTED),
        !has_bit((((flags | LOCKED_FLAG) | WAKE_REQUESTED) | HAS_WAKER_FLAG) & !LOCKED_FLAG & !WAKE_REQUESTED, LOCKED_FLAG),
        has_bit((((flags | LOCKED_FLAG) | WAKE_REQUESTED) | HAS_WAKER_FLAG) & !LOCKED_FLAG & !WAKE_REQUESTED, HAS_WAKER_FLAG),
{
    assert((flags | 2u8) & 2u8 == 2u8) by (bit_vector);
    assert(((flags | 2u8) | 4u8) & 4u8 == 4u8) by (bit_vector);
    assert((((((flags | 2u8) | 4u8) | 1u8) & !2u8) & !4u8) & 4u8 != 4u8) by (bit_vector);
    assert((((((flags | 2u8) | 4u8) | 1u8) & !2u8) & !4u8) & 2u8 != 2u8) by (bit_vector);
    assert((((((flags | 2u8) | 4u8) | 1u8) & !2u8) & !4u8) & 1u8 == 1u8) by (bit_vector);
}

} // verus!
