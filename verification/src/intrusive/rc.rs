//! A reference counter kept next to the value it guards.
//!
//! `RcAnchor` holds the value and the number of `RcRef` tokens given out for it. A
//! token is given back with `RcRef::release`.
use vstd::prelude::*;

verus! {

/// A value together with the number of references handed out for it.
pub struct RcAnchor<T> {
    ref_count: u32,
    data: T,
}

impl<T> RcAnchor<T> {
    /// Number of references handed out and not given back.
    pub closed spec fn count(&self) -> u32 {
        self.ref_count
    }

    /// The guarded value.
    pub closed spec fn value(&self) -> T {
        self.data
    }

    fn increment_refcount(&mut self)
        requires
            old(self).count() < u32::MAX,
        ensures
            final(self).count() == old(self).count() + 1,
            final(self).value() == old(self).value(),
    {
        self.ref_count = self.ref_count + 1;
    }

    fn decrement_refcount(&mut self)
        requires
            old(self).count() > 0,
        ensures
            final(self).count() == old(self).count() - 1,
            final(self).value() == old(self).value(),
    {
        self.ref_count = self.ref_count - 1;
    }

    fn data(&self) -> (r: &T)
        ensures
            *r == self.value(),
    {
        &self.data
    }

    /// An anchor for `value` with no reference handed out.
    pub fn new(value: T) -> (r: Self)
        ensures
            r.count() == 0,
            r.value() == value,
    {
        RcAnchor { ref_count: 0, data: value }
    }

    /// Hands out a reference.
    pub fn take(&mut self) -> (r: RcRef<T>)
        requires
            old(self).count() < u32::MAX,
        ensures
            final(self).count() == old(self).count() + 1,
            final(self).value() == old(self).value(),
    {
        self.increment_refcount();
        RcRef { marker: core::marker::PhantomData }
    }

    /// Hands out a reference.
    pub fn get_ref(&mut self) -> (r: RcRef<T>)
        requires
            old(self).count() < u32::MAX,
        ensures
            final(self).count() == old(self).count() + 1,
            final(self).value() == old(self).value(),
    {
        self.increment_refcount();
        RcRef { marker: core::marker::PhantomData }
    }

    /// Number of references handed out and not given back.
    pub fn ref_count(&self) -> (r: u32)
        ensures
            r == self.count(),
    {
        self.ref_count
    }

    /// The guarded value.
    pub fn deref(&self) -> (r: &T)
        ensures
            *r == self.value(),
    {
        self.data()
    }

    /// Whether the anchor may be dropped: no reference is left.
    pub fn is_released(&self) -> (r: bool)
        ensures
            r == (self.count() == 0),
    {
        self.ref_count == 0
    }
}

/// A reference handed out by an `RcAnchor`.
pub struct RcRef<T> {
    marker: core::marker::PhantomData<T>,
}

impl<T> RcRef<T> {
    /// Hands out one more reference to the anchor that `from` refers to.
    pub fn clone(from: &RcRef<T>, anchor: &mut RcAnchor<T>) -> (r: Self)
        requires
            old(anchor).count() < u32::MAX,
        ensures
            final(anchor).count() == old(anchor).count() + 1,
            final(anchor).value() == old(anchor).value(),
    {
        anchor.increment_refcount();
        RcRef { marker: core::marker::PhantomData }
    }

    /// Number of references to the anchor.
    pub fn ref_count(&self, anchor: &RcAnchor<T>) -> (r: u32)
        ensures
            r == anchor.count(),
    {
        anchor.ref_count()
    }

    /// A reference that no anchor has counted. It serves where no reference can be
    /// given out.
    pub(crate) fn dangling() -> (r: Self) {
        RcRef { marker: core::marker::PhantomData }
    }

    /// Gives the reference back to its anchor.
    pub fn release(self, anchor: &mut RcAnchor<T>)
        requires
            old(anchor).count() > 0,
        ensures
            final(anchor).count() == old(anchor).count() - 1,
            final(anchor).value() == old(anchor).value(),
    {
        anchor.decrement_refcount();
    }

    /// The guarded value.
    pub fn deref<'a>(&self, anchor: &'a RcAnchor<T>) -> (r: &'a T)
        ensures
            *r == anchor.value(),
    {
        anchor.data()
    }
}

} // verus!
