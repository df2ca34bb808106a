//! The channel's buffer: a `heapless::Deque` used first in, first out, with its contents
//! tracked as a ghost sequence.
use vstd::prelude::*;

verus! {

#[verifier::external_type_specification]
#[verifier::external_body]
#[verifier::reject_recursive_types(T)]
pub struct ExDeque<T, const N: usize>(heapless::Deque<T, N>);

/// A first-in first-out buffer of at most `N` values.
#[verifier::reject_recursive_types(T)]
pub struct Buffer<T, const N: usize> {
    inner: heapless::Deque<T, N>,
    items: Ghost<Seq<T>>,
}

impl<T, const N: usize> Buffer<T, N> {
    /// The values in the buffer, oldest first.
    pub closed spec fn view(&self) -> Seq<T> {
        self.items@
    }

    /// The buffer holds at most `N` values.
    pub closed spec fn wf(&self) -> bool {
        self.items@.len() <= N
    }

    /// The buffer holds at most `N` values.
    pub proof fn lemma_bounded(&self)
        requires
            self.wf(),
        ensures
            self.view().len() <= N,
    {
    }

    /// An empty buffer (`heapless::Deque::new`). `N` must not be 0; heapless refuses a
    /// zero `N` when it builds.
    #[verifier::external_body]
    pub fn new() -> (r: Self)
        requires
            N > 0,
        ensures
            r.wf(),
            r.view() == Seq::<T>::empty(),
    {
        Buffer { inner: heapless::Deque::new(), items: Ghost(Seq::empty()) }
    }

    /// Adds `val` at the back (`heapless::Deque::push_back`): it succeeds when fewer than
    /// `N` values are held, and otherwise hands `val` back unchanged.
    #[verifier::external_body]
    pub fn enqueue(&mut self, val: T) -> (r: Result<(), T>)
        requires
            old(self).wf(),
        ensures
            final(self).wf(),
            match r {
                Ok(_) => old(self).view().len() < N && final(self).view() == old(self).view().push(val),
                Err(v) => old(self).view().len() >= N && v == val && final(self).view() == old(self).view(),
            },
    {
        self.inner.push_back(val)
    }

    /// Removes the front value (`heapless::Deque::pop_front`), if any.
    #[verifier::external_body]
    pub fn dequeue(&mut self) -> (r: Option<T>)
        requires
            old(self).wf(),
        ensures
            final(self).wf(),
            old(self).view().len() == 0 ==> r is None && final(self).view() == old(self).view(),
            old(self).view().len() > 0 ==> r == Some(old(self).view()[0]) && final(self).view() == old(self).view().drop_first(),
    {
        self.inner.pop_front()
    }

    /// Number of values held (`heapless::Deque::len`).
    #[verifier::external_body]
    pub fn len(&self) -> (r: usize)
        requires
            self.wf(),
        ensures
            r == self.view().len(),
    {
        self.inner.len()
    }

    /// Whether no value is held (`heapless::Deque::is_empty`).
    #[verifier::external_body]
    pub fn is_empty(&self) -> (r: bool)
        requires
            self.wf(),
        ensures
            r == (self.view().len() == 0),
    {
        self.inner.is_empty()
    }
}

} // verus!
