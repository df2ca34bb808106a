//! An async mutex.
//!
//! `Mutex` holds the value, the lock flag, the count of handles (`MutexRef`, `MutexGuard`
//! and `LockFuture`) and the list of lock futures that wait for the lock. Handles are
//! tokens that are handed the mutex they act on.
use vstd::prelude::*;
use crate::intrusive::double_list::{
    Links, Link, List, lists_ok, lemma_member_waits, lemma_pop_keeps, lemma_view_in, unlink_waiting, without,
};
use crate::intrusive::rc::{RcAnchor, RcRef};
use crate::task::{Poll, WakeLog, wake_by_ref, clone_waker};

verus! {

/// A lock future waiting for the lock.
pub struct MutexWaiter {
    waker: Option<core::task::Waker>,
}

impl MutexWaiter {
    /// The waiter holds the waker of its task.
    pub closed spec fn has_waker(&self) -> bool {
        self.waker is Some
    }

    /// A waiter with no waker yet.
    pub fn default() -> (r: Self)
        ensures
            !r.has_waker(),
    {
        MutexWaiter { waker: None }
    }
}

/// A waiter that holds a waker.
pub open spec fn armed(o: Option<MutexWaiter>) -> bool {
    o matches Some(w) && w.has_waker()
}

/// The data-holder half of the async mutex. It must outlive every handle to it.
pub struct Mutex<T> {
    locked: bool,
    value: T,
    rc: Option<RcAnchor<()>>,
    links: Links<MutexWaiter>,
    waiting_wakers: List<MutexWaiter>,
    notified: List<MutexWaiter>,
    wakes: WakeLog,
}

impl<T> Mutex<T> {
    /// The mutex's invariant: every waiting lock future left a waker.
    pub closed spec fn wf(&self) -> bool {
        &&& lists_ok(self.links, self.waiting_wakers, self.notified)
        &&& forall|k: int| 0 <= k < self.waiting().len() ==> armed(#[trigger] self.links.owner_at(self.waiting()[k]))
    }

    /// The wakes made of lock futures, each recorded by the link it waits with, oldest
    /// first.
    pub closed spec fn wakes(&self) -> Seq<usize> {
        self.wakes.ids()
    }

    /// The waker that the lock future of link `l` left, while it waits.
    pub closed spec fn waiter_waker(&self, l: usize) -> core::task::Waker {
        self.links.owner_at(l).unwrap().waker.unwrap()
    }

    /// The wakers that the lock futures of links `ls` left, in order.
    pub open spec fn wakers_of(&self, ls: Seq<usize>) -> Seq<core::task::Waker> {
        ls.map_values(|l: usize| self.waiter_waker(l))
    }

    /// The wakers of lock futures woken, oldest first (one for each of `wakes`).
    pub closed spec fn woken(&self) -> Seq<core::task::Waker> {
        self.wakes.wakers()
    }

    /// `self` is `old` unlocked: every lock future that waited had the waker it left woken,
    /// in the order they came, and none waits any more.
    pub open spec fn unlocked_from(&self, old: Self) -> bool {
        &&& !self.is_locked()
        &&& self.waiting() == Seq::<usize>::empty()
        &&& self.wakes() == old.wakes() + old.waiting()
        &&& self.woken() == old.woken() + old.wakers_of(old.waiting())
    }

    /// The lock is held.
    pub closed spec fn is_locked(&self) -> bool {
        self.locked
    }

    /// The protected value.
    pub closed spec fn value(&self) -> T {
        self.value
    }

    /// Number of handles alive.
    pub closed spec fn refs(&self) -> u32 {
        match self.rc {
            Some(a) => a.count(),
            None => 0,
        }
    }

    /// Number of handles alive.
    pub fn ref_count(&self) -> (r: u32)
        ensures
            r == self.refs(),
    {
        match &self.rc {
            Some(a) => a.ref_count(),
            None => 0,
        }
    }

    /// The links of the lock futures that wait for the lock, first come first.
    pub closed spec fn waiting(&self) -> Seq<usize> {
        self.waiting_wakers.view_in(self.links)
    }

    /// `l` can serve as the link of a lock future.
    pub closed spec fn is_waiter_link(&self, l: usize) -> bool {
        l < self.links.len() && !self.links.is_sentinel(l)
    }

    /// The links that lock futures of `old` hold stay usable.
    pub open spec fn keeps_links(&self, old: Self) -> bool {
        forall|l: usize| #[trigger] old.is_waiter_link(l) ==> self.is_waiter_link(l)
    }

    fn maybe_init_inner(&mut self)
        ensures
            final(self).rc is Some,
            final(self).refs() == old(self).refs(),
            final(self).locked == old(self).locked,
            final(self).value == old(self).value,
            final(self).links == old(self).links,
            final(self).waiting_wakers == old(self).waiting_wakers,
            final(self).notified == old(self).notified,
            final(self).wakes == old(self).wakes,
    {
        if self.rc.is_none() {
            self.rc = Some(RcAnchor::new(()));
        }
    }

    /// Hands out one more handle.
    fn new_handle(&mut self) -> (r: RcRef<()>)
        requires
            old(self).refs() < u32::MAX,
        ensures
            final(self).refs() == old(self).refs() + 1,
            final(self).locked == old(self).locked,
            final(self).value == old(self).value,
            final(self).links == old(self).links,
            final(self).waiting_wakers == old(self).waiting_wakers,
            final(self).notified == old(self).notified,
            final(self).wakes == old(self).wakes,
    {
        self.maybe_init_inner();
        let anchor = self.rc.take();
        match anchor {
            Some(mut a) => {
                let r = a.get_ref();
                self.rc = Some(a);
                r
            },
            None => {
                proof {
                    assert(false);
                }
                RcRef::dangling()
            },
        }
    }

    /// Takes a handle back.
    fn drop_handle(&mut self, handle: RcRef<()>)
        requires
            old(self).refs() > 0,
        ensures
            final(self).refs() == old(self).refs() - 1,
            final(self).locked == old(self).locked,
            final(self).value == old(self).value,
            final(self).links == old(self).links,
            final(self).waiting_wakers == old(self).waiting_wakers,
            final(self).notified == old(self).notified,
            final(self).wakes == old(self).wakes,
    {
        let anchor = self.rc.take();
        match anchor {
            Some(mut a) => {
                handle.release(&mut a);
                self.rc = Some(a);
            },
            None => {
                proof {
                    assert(false);
                }
            },
        }
    }

    /// Unlocks, and wakes every lock future that waits for the lock.
    fn release_lock(&mut self)
        requires
            old(self).wf(),
        ensures
            final(self).wf(),
            !final(self).is_locked(),
            final(self).value() == old(self).value(),
            final(self).refs() == old(self).refs(),
            final(self).waiting() == Seq::<usize>::empty(),
            final(self).wakes() == old(self).wakes() + old(self).waiting(),
            final(self).keeps_links(*old(self)),
            final(self).woken() == old(self).woken() + old(self).wakers_of(old(self).waiting()),
    {
        self.locked = false;
        let ghost links0 = self.links;
        proof {
            lemma_view_in(links0, self.waiting_wakers);
        }
        self.waiting_wakers.move_to_front_of(&mut self.links, &mut self.notified);
        proof {
            assert forall|l: usize| old(self).is_waiter_link(l) implies #[trigger] self.is_waiter_link(l) by {
                assert(self.links.owner_at(l) == links0.owner_at(l));
            }
            let w0 = old(self).waiting();
            assert(self.notified.view_in(self.links) =~= w0);
            assert forall|k: int| 0 <= k < self.notified.view_in(self.links).len() implies armed(
                #[trigger] self.links.owner_at(self.notified.view_in(self.links)[k]),
            ) by {
                assert(self.links.owner_at(w0[k]) == links0.owner_at(w0[k]));
            }
            assert(self.wakes() + self.notified.view_in(self.links) =~= old(self).wakes() + w0);
            assert forall|k: int| 0 <= k < w0.len() implies #[trigger] self.links.owner_at(w0[k]) == links0.owner_at(
                w0[k],
            ) by {}
            assert(self.woken() + old(self).wakers_of(self.notified.view_in(self.links)) =~= old(self).woken()
                + old(self).wakers_of(w0));
        }
        loop
            invariant
                self.links.wf(),
                self.waiting_wakers.wf_in(self.links),
                self.notified.wf_in(self.links),
                self.waiting_wakers.head_view() is Some,
                self.notified.head_view() is Some,
                self.waiting_wakers.head_view() != self.notified.head_view(),
                forall|g: usize| #[trigger] self.links.has_list(g) ==> Some(g) == self.waiting_wakers.head_view()
                    || Some(g) == self.notified.head_view(),
                self.waiting() == Seq::<usize>::empty(),
                !self.locked,
                self.value == old(self).value,
                self.rc == old(self).rc,
                forall|l: usize| #[trigger] old(self).is_waiter_link(l) ==> self.is_waiter_link(l),
                self.wakes() + self.notified.view_in(self.links) == old(self).wakes() + old(self).waiting(),
                forall|k: int| 0 <= k < self.notified.view_in(self.links).len() ==> armed(
                    #[trigger] self.links.owner_at(self.notified.view_in(self.links)[k]),
                ),
                forall|k: int| 0 <= k < self.notified.view_in(self.links).len() ==> #[trigger] self.links.owner_at(
                    self.notified.view_in(self.links)[k],
                ) == old(self).links.owner_at(self.notified.view_in(self.links)[k]),
                self.woken() + old(self).wakers_of(self.notified.view_in(self.links)) == old(self).woken()
                    + old(self).wakers_of(old(self).waiting()),
            ensures
                self.notified.view_in(self.links).len() == 0,
            decreases self.notified.view_in(self.links).len(),
        {
            let ghost links1 = self.links;
            let ghost n1 = self.notified.view_in(self.links);
            let ghost wakes1 = self.wakes();
            let ghost woken1 = self.woken();
            proof {
                links1.lemma_members(self.notified.head_view().unwrap());
            }
            let popped = self.notified.pop_front(&mut self.links);
            proof {
                lemma_pop_keeps(links1, self.links, self.notified.head_view().unwrap(), popped);
            }
            match popped {
                Some(x) => {
                    proof {
                        assert(x == n1[0]);
                        assert(armed(links1.owner_at(n1[0])));
                        let n2 = self.notified.view_in(self.links);
                        assert forall|k: int| 0 <= k < n2.len() implies armed(
                            #[trigger] self.links.owner_at(n2[k]),
                        ) by {
                            assert(n2[k] == n1[k + 1]);
                            assert(n1[k + 1] != n1[0]);
                            assert(self.links.owner_at(n1[k + 1]) == links1.owner_at(n1[k + 1]));
                        }
                        assert forall|k: int| 0 <= k < n2.len() implies #[trigger] self.links.owner_at(n2[k])
                            == old(self).links.owner_at(n2[k]) by {
                            assert(n2[k] == n1[k + 1]);
                            assert(n1[k + 1] != n1[0]);
                            assert(self.links.owner_at(n1[k + 1]) == links1.owner_at(n1[k + 1]));
                        }
                        assert(self.links.owner_at(x) == old(self).links.owner_at(x));
                    }
                    match self.links.owner(x) {
                        Some(w) => {
                            match &w.waker {
                                Some(k) => {
                                    let woken = wake_by_ref(k);
                                    self.wakes.record(woken, Ghost(x));
                                },
                                None => {
                                    proof {
                                        assert(false);
                                    }
                                },
                            }
                        },
                        None => {
                            proof {
                                assert(false);
                            }
                        },
                    }
                    proof {
                        let n2 = self.notified.view_in(self.links);
                        assert(n1 =~= seq![x] + n2);
                        assert(self.wakes() + n2 =~= wakes1 + n1);
                        assert(old(self).wakers_of(n1) =~= seq![old(self).waiter_waker(x)] + old(self).wakers_of(n2));
                        assert(self.woken() =~= woken1.push(old(self).waiter_waker(x)));
                        assert(self.woken() + old(self).wakers_of(n2) =~= woken1 + old(self).wakers_of(n1));
                    }
                },
                None => {
                    break ;
                },
            }
        }
        proof {
            assert(self.notified.view_in(self.links) =~= Seq::<usize>::empty());
            assert(old(self).wakers_of(self.notified.view_in(self.links)) =~= Seq::<core::task::Waker>::empty());
            assert(self.woken() =~= self.woken() + Seq::<core::task::Waker>::empty());
        }
    }

    /// Makes the lock future of link `link` wait for the lock, woken through `waker`. A
    /// future already waiting keeps its place and takes the new waker.
    fn add_waiter(&mut self, link: usize, waker: &core::task::Waker)
        requires
            old(self).wf(),
            old(self).is_waiter_link(link),
        ensures
            final(self).wf(),
            final(self).keeps_links(*old(self)),
            final(self).locked == old(self).locked,
            final(self).value == old(self).value,
            final(self).rc == old(self).rc,
            final(self).waiting() == (if old(self).waiting().contains(link) {
                old(self).waiting()
            } else {
                old(self).waiting().push(link)
            }),
            final(self).wakes == old(self).wakes,
            cloned(*waker, final(self).waiter_waker(link)),
    {
        let waiter = MutexWaiter { waker: Some(clone_waker(waker)) };
        let ghost links0 = self.links;
        proof {
            lemma_member_waits(self.links, self.waiting_wakers, self.notified, link);
        }
        if self.links.is_linked(link) {
            self.links.replace_owner(link, Some(waiter));
            proof {
                assert forall|i: usize| old(self).is_waiter_link(i) implies #[trigger] self.is_waiter_link(i) by {
                    if i != link {
                        assert(self.links.owner_at(i) == links0.owner_at(i));
                    }
                }
                assert(self.waiting_wakers.view_in(self.links) == self.waiting_wakers.view_in(links0));
                assert(self.notified.view_in(self.links) == self.notified.view_in(links0));
                lemma_view_in(links0, self.waiting_wakers);
                assert forall|k: int| 0 <= k < self.waiting().len() implies armed(
                    #[trigger] self.links.owner_at(self.waiting()[k]),
                ) by {
                    if self.waiting()[k] != link {
                        assert(self.links.owner_at(self.waiting()[k]) == links0.owner_at(self.waiting()[k]));
                    }
                }
            }
        } else {
            proof {
                links0.lemma_standing(link);
            }
            let ghost w0 = old(self).waiting();
            proof {
                lemma_view_in(links0, old(self).waiting_wakers);
            }
            self.waiting_wakers.push_link_back(&mut self.links, waiter, link);
            proof {
                self.links.lemma_standing(link);
                assert forall|k: int| 0 <= k < self.waiting().len() implies armed(
                    #[trigger] self.links.owner_at(self.waiting()[k]),
                ) by {
                    if k < w0.len() {
                        assert(self.waiting()[k] == w0[k]);
                        assert(w0[k] != link);
                        assert(self.links.owner_at(w0[k]) == links0.owner_at(w0[k]));
                    }
                }
                assert forall|i: usize| old(self).is_waiter_link(i) implies #[trigger] self.is_waiter_link(i) by {
                    if i != link {
                        assert(self.links.owner_at(i) == links0.owner_at(i));
                    }
                }
            }
        }
    }

    /// Takes the lock future of link `l` out of the waiting list.
    fn unlink_waiter(&mut self, l: usize)
        requires
            old(self).wf(),
            old(self).is_waiter_link(l),
        ensures
            final(self).wf(),
            final(self).keeps_links(*old(self)),
            final(self).locked == old(self).locked,
            final(self).value == old(self).value,
            final(self).rc == old(self).rc,
            final(self).waiting() == without(old(self).waiting(), l),
            final(self).wakes == old(self).wakes,
    {
        let ghost w0 = self.waiting();
        let ghost links0 = self.links;
        proof {
            lemma_view_in(links0, self.waiting_wakers);
        }
        unlink_waiting(&mut self.links, &self.waiting_wakers, &self.notified, l);
        proof {
            if w0.contains(l) {
                w0.remove_ensures(w0.index_of(l));
            }
            assert forall|k: int| 0 <= k < self.waiting().len() implies armed(
                #[trigger] self.links.owner_at(self.waiting()[k]),
            ) by {
                let j = if w0.contains(l) && k >= w0.index_of(l) { k + 1 } else { k };
                assert(self.waiting()[k] == w0[j]);
                assert(self.links.owner_at(w0[j]) == links0.owner_at(w0[j]));
            }
        }
    }

    /// Gives the link `l` of a lock future that is gone back for reuse, once it is in no
    /// list.
    fn recycle_waiter_link(&mut self, l: usize)
        requires
            old(self).wf(),
            old(self).is_waiter_link(l),
        ensures
            final(self).wf(),
            final(self).keeps_links(*old(self)),
            final(self).locked == old(self).locked,
            final(self).value == old(self).value,
            final(self).rc == old(self).rc,
            final(self).waiting() == old(self).waiting(),
            final(self).wakes == old(self).wakes,
    {
        let ghost links0 = self.links;
        proof {
            lemma_view_in(links0, self.waiting_wakers);
        }
        self.links.recycle(l);
        proof {
            assert forall|k: int| 0 <= k < self.waiting().len() implies armed(
                #[trigger] self.links.owner_at(self.waiting()[k]),
            ) by {
                let x = self.waiting()[k];
                links0.lemma_standing(x);
                if links0.is_detached(l) {
                    assert(x != l);
                }
                assert(self.links.owner_at(x) == links0.owner_at(x));
            }
        }
    }

    /// A new link for a lock future.
    fn new_waiter_link(&mut self) -> (l: usize)
        requires
            old(self).wf(),
        ensures
            final(self).wf(),
            final(self).is_waiter_link(l),
            !final(self).waiting().contains(l),
            final(self).keeps_links(*old(self)),
            final(self).locked == old(self).locked,
            final(self).value == old(self).value,
            final(self).rc == old(self).rc,
            final(self).waiting() == old(self).waiting(),
            final(self).wakes == old(self).wakes,
    {
        let ghost links0 = self.links;
        proof {
            lemma_view_in(links0, self.waiting_wakers);
        }
        let l = self.links.add(Link::new());
        proof {
            self.links.lemma_standing(l);
            lemma_member_waits(self.links, self.waiting_wakers, self.notified, l);
            assert forall|k: int| 0 <= k < self.waiting().len() implies armed(
                #[trigger] self.links.owner_at(self.waiting()[k]),
            ) by {
                links0.lemma_standing(self.waiting()[k]);
                assert(self.waiting()[k] != l);
                assert(self.links.owner_at(self.waiting()[k]) == links0.owner_at(self.waiting()[k]));
            }
            assert forall|i: usize| old(self).is_waiter_link(i) implies #[trigger] self.is_waiter_link(i) by {
                if i != l {
                    assert(self.links.owner_at(i) == links0.owner_at(i));
                }
            }
        }
        l
    }

    /// A new, unlocked mutex holding `value`.
    pub fn new(value: T) -> (r: Self)
        ensures
            r.wf(),
            !r.is_locked(),
            r.value() == value,
            r.refs() == 0,
            r.waiting() == Seq::<usize>::empty(),
    {
        Mutex {
            locked: false,
            value,
            rc: None,
            links: Links::new(),
            waiting_wakers: List::new(),
            notified: List::new(),
            wakes: WakeLog::new(),
        }
    }

    /// Whether the lock is held.
    pub fn locked(&self) -> (r: bool)
        ensures
            r == self.is_locked(),
    {
        self.locked
    }

    /// Whether a lock future waits for the lock.
    pub fn has_waiting(&self) -> (r: bool)
        requires
            self.wf(),
        ensures
            r == (self.waiting().len() > 0),
    {
        !self.waiting_wakers.is_empty(&self.links)
    }

    /// A handle to the mutex. With it the mutex can be locked.
    pub fn take_ref(&mut self) -> (r: MutexRef<T>)
        requires
            old(self).wf(),
            old(self).refs() < u32::MAX,
        ensures
            final(self).wf(),
            final(self).refs() == old(self).refs() + 1,
            final(self).is_locked() == old(self).is_locked(),
            final(self).value() == old(self).value(),
            final(self).waiting() == old(self).waiting(),
            final(self).keeps_links(*old(self)),
            final(self).wakes() == old(self).wakes(),
    {
        let handle = self.new_handle();
        MutexRef { rc_ref: handle, marker: core::marker::PhantomData }
    }

    fn try_lock_impl(&mut self) -> (r: Option<MutexGuard<T>>)
        requires
            old(self).wf(),
            old(self).refs() < u32::MAX,
        ensures
            final(self).wf(),
            final(self).value() == old(self).value(),
            final(self).waiting() == old(self).waiting(),
            final(self).keeps_links(*old(self)),
            final(self).is_locked(),
            old(self).is_locked() ==> r is None && final(self).refs() == old(self).refs(),
            !old(self).is_locked() ==> r is Some && final(self).refs() == old(self).refs() + 1,
            final(self).wakes == old(self).wakes,
    {
        if !self.locked {
            self.locked = true;
            let handle = self.new_handle();
            Some(MutexGuard { rc_ref: handle, marker: core::marker::PhantomData })
        } else {
            None
        }
    }

    fn lock_impl(&mut self) -> (r: LockFuture<T>)
        requires
            old(self).wf(),
            old(self).refs() < u32::MAX,
        ensures
            final(self).wf(),
            final(self).refs() == old(self).refs() + 1,
            final(self).is_locked() == old(self).is_locked(),
            final(self).value() == old(self).value(),
            final(self).waiting() == old(self).waiting(),
            final(self).keeps_links(*old(self)),
            r.link_view() is None,
            final(self).wakes == old(self).wakes,
    {
        let handle = self.new_handle();
        LockFuture { link: None, rc_ref: handle, marker: core::marker::PhantomData }
    }
}

/// A handle to a `Mutex`. With it the mutex is locked and its value reached.
pub struct MutexRef<T> {
    rc_ref: RcRef<()>,
    marker: core::marker::PhantomData<T>,
}

impl<T> MutexRef<T> {
    /// A future that acquires the mutex, waiting while it is locked. The future holds a
    /// handle of its own.
    pub fn lock(&self, mutex: &mut Mutex<T>) -> (r: LockFuture<T>)
        requires
            old(mutex).wf(),
            old(mutex).refs() < u32::MAX,
        ensures
            final(mutex).wf(),
            final(mutex).refs() == old(mutex).refs() + 1,
            final(mutex).is_locked() == old(mutex).is_locked(),
            final(mutex).value() == old(mutex).value(),
            final(mutex).waiting() == old(mutex).waiting(),
            final(mutex).keeps_links(*old(mutex)),
            r.link_view() is None,
            final(mutex).wakes() == old(mutex).wakes(),
            final(mutex).woken() == old(mutex).woken(),
    {
        mutex.lock_impl()
    }

    /// Acquires the mutex if it is unlocked. The guard releases it.
    pub fn try_lock(&self, mutex: &mut Mutex<T>) -> (r: Option<MutexGuard<T>>)
        requires
            old(mutex).wf(),
            old(mutex).refs() < u32::MAX,
        ensures
            final(mutex).wf(),
            final(mutex).value() == old(mutex).value(),
            final(mutex).waiting() == old(mutex).waiting(),
            final(mutex).keeps_links(*old(mutex)),
            final(mutex).is_locked(),
            old(mutex).is_locked() ==> r is None && final(mutex).refs() == old(mutex).refs(),
            !old(mutex).is_locked() ==> r is Some && final(mutex).refs() == old(mutex).refs() + 1,
            final(mutex).wakes() == old(mutex).wakes(),
            final(mutex).woken() == old(mutex).woken(),
    {
        mutex.try_lock_impl()
    }

    /// One more handle to the same mutex.
    pub fn clone(&self, mutex: &mut Mutex<T>) -> (r: Self)
        requires
            old(mutex).wf(),
            old(mutex).refs() < u32::MAX,
        ensures
            final(mutex).wf(),
            final(mutex).refs() == old(mutex).refs() + 1,
            final(mutex).is_locked() == old(mutex).is_locked(),
            final(mutex).value() == old(mutex).value(),
            final(mutex).waiting() == old(mutex).waiting(),
            final(mutex).keeps_links(*old(mutex)),
            final(mutex).wakes() == old(mutex).wakes(),
            final(mutex).woken() == old(mutex).woken(),
    {
        let handle = mutex.new_handle();
        MutexRef { rc_ref: handle, marker: core::marker::PhantomData }
    }

    /// Gives the handle back.
    pub fn release(self, mutex: &mut Mutex<T>)
        requires
            old(mutex).wf(),
            old(mutex).refs() > 0,
        ensures
            final(mutex).wf(),
            final(mutex).refs() == old(mutex).refs() - 1,
            final(mutex).is_locked() == old(mutex).is_locked(),
            final(mutex).value() == old(mutex).value(),
            final(mutex).waiting() == old(mutex).waiting(),
            final(mutex).keeps_links(*old(mutex)),
            final(mutex).wakes() == old(mutex).wakes(),
            final(mutex).woken() == old(mutex).woken(),
    {
        mutex.drop_handle(self.rc_ref);
    }
}

/// Holds the lock of a `Mutex`; giving it back releases the lock.
pub struct MutexGuard<T> {
    rc_ref: RcRef<()>,
    marker: core::marker::PhantomData<T>,
}

impl<T> MutexGuard<T> {
    /// Releases the lock, wakes every lock future that waits for it, in the order they
    /// came, and gives the handle back.
    pub fn unlock(self, mutex: &mut Mutex<T>)
        requires
            old(mutex).wf(),
            old(mutex).refs() > 0,
        ensures
            final(mutex).wf(),
            !final(mutex).is_locked(),
            final(mutex).refs() == old(mutex).refs() - 1,
            final(mutex).value() == old(mutex).value(),
            final(mutex).waiting() == Seq::<usize>::empty(),
            final(mutex).wakes() == old(mutex).wakes() + old(mutex).waiting(),
            final(mutex).unlocked_from(*old(mutex)),
            final(mutex).keeps_links(*old(mutex)),
    {
        mutex.release_lock();
        mutex.drop_handle(self.rc_ref);
    }

    /// A handle to the mutex this guard holds. While the guard is held the handle cannot
    /// lock the mutex.
    pub fn source(&self, mutex: &mut Mutex<T>) -> (r: MutexRef<T>)
        requires
            old(mutex).wf(),
            old(mutex).refs() < u32::MAX,
        ensures
            final(mutex).wf(),
            final(mutex).refs() == old(mutex).refs() + 1,
            final(mutex).is_locked() == old(mutex).is_locked(),
            final(mutex).value() == old(mutex).value(),
            final(mutex).waiting() == old(mutex).waiting(),
            final(mutex).keeps_links(*old(mutex)),
            final(mutex).wakes() == old(mutex).wakes(),
            final(mutex).woken() == old(mutex).woken(),
    {
        let handle = mutex.new_handle();
        MutexRef { rc_ref: handle, marker: core::marker::PhantomData }
    }

    /// The protected value.
    pub fn deref<'a>(&self, mutex: &'a Mutex<T>) -> (r: &'a T)
        ensures
            *r == mutex.value(),
    {
        &mutex.value
    }

    /// The protected value, to change in place.
    pub fn deref_mut<'a>(&self, mutex: &'a mut Mutex<T>) -> (r: &'a mut T)
        requires
            old(mutex).wf(),
        ensures
            *r == old(mutex).value(),
            final(mutex).value() == *final(r),
            final(mutex).wf(),
            final(mutex).is_locked() == old(mutex).is_locked(),
            final(mutex).refs() == old(mutex).refs(),
            final(mutex).waiting() == old(mutex).waiting(),
            final(mutex).keeps_links(*old(mutex)),
    {
        &mut mutex.value
    }

    /// Replaces the protected value and returns the one it held.
    pub fn replace(&self, mutex: &mut Mutex<T>, value: T) -> (r: T)
        requires
            old(mutex).wf(),
        ensures
            final(mutex).wf(),
            r == old(mutex).value(),
            final(mutex).value() == value,
            final(mutex).is_locked() == old(mutex).is_locked(),
            final(mutex).refs() == old(mutex).refs(),
            final(mutex).waiting() == old(mutex).waiting(),
            final(mutex).keeps_links(*old(mutex)),
            final(mutex).wakes() == old(mutex).wakes(),
            final(mutex).woken() == old(mutex).woken(),
    {
        let mut v = value;
        core::mem::swap(&mut mutex.value, &mut v);
        v
    }
}

/// The future of `MutexRef::lock`.
pub struct LockFuture<T> {
    link: Option<usize>,
    rc_ref: RcRef<()>,
    marker: core::marker::PhantomData<T>,
}

impl<T> LockFuture<T> {
    /// The link the future waits with, once it has waited.
    pub closed spec fn link_view(&self) -> Option<usize> {
        self.link
    }

    /// The future may be polled on `mutex`.
    pub open spec fn can_poll(&self, mutex: Mutex<T>) -> bool {
        &&& mutex.wf()
        &&& self.link_view() is Some ==> mutex.is_waiter_link(self.link_view().unwrap())
    }

    /// Takes the lock when it is free; otherwise waits for it, woken through `waker`.
    pub fn poll(&mut self, mutex: &mut Mutex<T>, waker: &core::task::Waker) -> (r: Poll<MutexGuard<T>>)
        requires
            old(self).can_poll(*old(mutex)),
            old(mutex).refs() < u32::MAX,
        ensures
            final(mutex).wf(),
            final(self).can_poll(*final(mutex)),
            final(mutex).keeps_links(*old(mutex)),
            final(mutex).value() == old(mutex).value(),
            final(mutex).is_locked(),
            !old(mutex).is_locked() ==> {
                &&& r is Ready
                &&& final(mutex).refs() == old(mutex).refs() + 1
                &&& final(mutex).waiting() == old(mutex).waiting()
            },
            old(mutex).is_locked() ==> {
                &&& r is Pending
                &&& final(mutex).refs() == old(mutex).refs()
                &&& final(self).link_view() is Some
                &&& (old(self).link_view() is Some ==> final(self).link_view() == old(self).link_view())
                &&& final(mutex).waiting() == (if old(mutex).waiting().contains(
                    final(self).link_view().unwrap(),
                ) {
                    old(mutex).waiting()
                } else {
                    old(mutex).waiting().push(final(self).link_view().unwrap())
                })
                &&& old(self).link_view() is None ==> final(mutex).waiting() == old(mutex).waiting().push(
                    final(self).link_view().unwrap(),
                )
                &&& cloned(*waker, final(mutex).waiter_waker(final(self).link_view().unwrap()))
            },
            final(mutex).wakes() == old(mutex).wakes(),
            final(mutex).woken() == old(mutex).woken(),
    {
        if mutex.locked {
            let ghost m0 = *mutex;
            let link = match self.link {
                Some(l) => l,
                None => {
                    let l = mutex.new_waiter_link();
                    self.link = Some(l);
                    l
                },
            };
            let ghost m1 = *mutex;
            mutex.add_waiter(link, waker);
            proof {
                assert forall|l: usize| #[trigger] old(mutex).is_waiter_link(l) implies mutex.is_waiter_link(l) by {
                    assert(m0.is_waiter_link(l));
                    assert(m1.is_waiter_link(l));
                }
                assert(m1.is_waiter_link(link));
            }
            Poll::Pending
        } else {
            mutex.locked = true;
            let handle = mutex.new_handle();
            Poll::Ready(MutexGuard { rc_ref: handle, marker: core::marker::PhantomData })
        }
    }

    /// Gives the future back: its link leaves the waiting list, and the handle it holds
    /// is given back.
    pub fn release(self, mutex: &mut Mutex<T>)
        requires
            old(mutex).wf(),
            old(mutex).refs() > 0,
            self.link_view() is Some ==> old(mutex).is_waiter_link(self.link_view().unwrap()),
        ensures
            final(mutex).wf(),
            final(mutex).refs() == old(mutex).refs() - 1,
            final(mutex).is_locked() == old(mutex).is_locked(),
            final(mutex).value() == old(mutex).value(),
            final(mutex).waiting() == (match self.link_view() {
                Some(l) => without(old(mutex).waiting(), l),
                None => old(mutex).waiting(),
            }),
            final(mutex).keeps_links(*old(mutex)),
            final(mutex).wakes() == old(mutex).wakes(),
            final(mutex).woken() == old(mutex).woken(),
    {
        let ghost m0 = *mutex;
        match self.link {
            Some(l) => {
                mutex.unlink_waiter(l);
                mutex.recycle_waiter_link(l);
            },
            None => {},
        }
        let ghost m1 = *mutex;
        mutex.drop_handle(self.rc_ref);
        proof {
            assert forall|l: usize| #[trigger] m0.is_waiter_link(l) implies mutex.is_waiter_link(l) by {
                assert(m1.is_waiter_link(l));
            }
        }
    }
}

/// Unlocking wakes every lock future that waited: when link `l` waits in `m0` and an
/// unlock leads to `m1`, the unlock woke the waker that future left, recorded under `l`,
/// and the future waits no more.
pub proof fn law_unlock_wakes_waiter<T>(m0: Mutex<T>, m1: Mutex<T>, l: usize)
    requires
        m0.waiting().contains(l),
        m1.unlocked_from(m0),
    ensures
        m1.wakes().skip(m0.wakes().len() as int).contains(l),
        m1.woken().skip(m0.woken().len() as int).contains(m0.waiter_waker(l)),
        !m1.waiting().contains(l),
        !m1.is_locked(),
{
    let n = m0.wakes().len() as int;
    assert(m1.wakes().skip(n) =~= m0.waiting());
    let m = m0.woken().len() as int;
    let ws = m0.wakers_of(m0.waiting());
    assert(m1.woken().skip(m) =~= ws);
    let i = choose|i: int| 0 <= i < m0.waiting().len() && m0.waiting()[i] == l;
    assert(ws[i] == m0.waiter_waker(l));
}

} // verus!
