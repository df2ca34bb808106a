//! A condition variable.
//!
//! It notifies one or all of the tasks that wait on it. `Condvar` holds the list of
//! waiting futures and the counts of waiter and notifier handles; `CondvarWaiter` and
//! `CondvarNotifier` are tokens that are handed the condition variable they act on.
use vstd::prelude::*;
use crate::intrusive::double_list::{Links, List, Node, lemma_view_in};
use crate::intrusive::rc::{RcAnchor, RcRef};
use crate::task::{Poll, WakeLog, wake, clone_waker};
use crate::sync::mutex::{Mutex, MutexRef, MutexGuard, LockFuture};

verus! {

/// Error of a wait: every notifier is gone.
pub struct WaitError;

/// A wait future's record: the waker to call and whether it has been notified.
pub struct Waiter {
    waker: Option<core::task::Waker>,
    notified: bool,
}

impl Waiter {
    /// The waiter has been notified.
    pub closed spec fn is_notified(&self) -> bool {
        self.notified
    }

    /// The waiter holds the waker of its task.
    pub closed spec fn has_waker(&self) -> bool {
        self.waker is Some
    }

    /// A waiter not notified, with no waker yet.
    pub fn default() -> (r: Self)
        ensures
            !r.is_notified(),
            !r.has_waker(),
    {
        Waiter { waker: None, notified: false }
    }

    /// Marks the waiter notified and wakes its task, if it has a waker, recording the wake
    /// in `log` under `id`. The waker is used up.
    fn notify(&mut self, id: usize, log: &mut WakeLog)
        ensures
            final(self).is_notified(),
            !final(self).has_waker(),
            final(log).ids() == (if old(self).has_waker() {
                old(log).ids().push(id)
            } else {
                old(log).ids()
            }),
            final(log).wakers() == (if old(self).has_waker() {
                old(log).wakers().push(old(self).waker.unwrap())
            } else {
                old(log).wakers()
            }),
    {
        self.notified = true;
        match self.waker.take() {
            Some(w) => {
                let woken = wake(w);
                log.record(woken, Ghost(id));
            },
            None => {},
        }
    }
}

/// A condition variable.
pub struct Condvar {
    rc: Option<(RcAnchor<()>, RcAnchor<()>)>,
    links: Links<Waiter>,
    waiters: List<Waiter>,
    wakes: WakeLog,
}

impl Condvar {
    /// The condition variable's invariant: each waiting waiter holds a waker and is not
    /// yet notified.
    pub closed spec fn wf(&self) -> bool {
        &&& self.links.wf()
        &&& self.waiters.wf_in(self.links)
        &&& forall|g: usize| #[trigger] self.links.has_list(g) ==> Some(g) == self.waiters.head_view()
        &&& forall|k: int| 0 <= k < self.waiting().len() ==> #[trigger] self.links.owner_at(self.waiting()[k]) is Some
        &&& forall|k: int| 0 <= k < self.waiting().len() ==> (#[trigger] self.links.owner_at(self.waiting()[k])).unwrap().has_waker()
        &&& forall|k: int| 0 <= k < self.waiting().len() ==> !(#[trigger] self.links.owner_at(self.waiting()[k])).unwrap().is_notified()
    }

    /// The wakes made of waiting tasks, each recorded by the link of its waiter, oldest
    /// first.
    pub closed spec fn wakes(&self) -> Seq<usize> {
        self.wakes.ids()
    }

    /// The wakers of waiting tasks woken, oldest first (one for each of `wakes`).
    pub closed spec fn woken(&self) -> Seq<core::task::Waker> {
        self.wakes.wakers()
    }

    /// The waker that the waiter of link `l` holds, while it holds one.
    pub closed spec fn waiter_waker(&self, l: usize) -> core::task::Waker {
        self.links.owner_at(l).unwrap().waker.unwrap()
    }

    /// The wakers that the waiters of links `ls` hold, in order.
    pub open spec fn wakers_of(&self, ls: Seq<usize>) -> Seq<core::task::Waker> {
        ls.map_values(|l: usize| self.waiter_waker(l))
    }

    /// The waiter of link `l` holds the waker of its task.
    pub closed spec fn has_waker_at(&self, l: usize) -> bool {
        &&& l < self.links.len()
        &&& self.links.owner_at(l) matches Some(w) && w.has_waker()
    }

    /// The condition variable has been split into a notifier and a waiter.
    pub closed spec fn is_split(&self) -> bool {
        self.rc is Some
    }

    /// Number of waiter handles alive (waiters and wait futures).
    pub closed spec fn waiter_handles(&self) -> u32 {
        self.rc.unwrap().0.count()
    }

    /// Number of notifier handles alive.
    pub closed spec fn notifier_handles(&self) -> u32 {
        self.rc.unwrap().1.count()
    }

    /// Number of waiter handles alive.
    pub fn waiter_ref_count(&self) -> (r: u32)
        requires
            self.is_split(),
        ensures
            r == self.waiter_handles(),
    {
        match &self.rc {
            Some(pair) => pair.0.ref_count(),
            None => 0,
        }
    }

    /// Number of notifier handles alive.
    pub fn notifier_ref_count(&self) -> (r: u32)
        requires
            self.is_split(),
        ensures
            r == self.notifier_handles(),
    {
        match &self.rc {
            Some(pair) => pair.1.ref_count(),
            None => 0,
        }
    }

    /// The links of the wait futures that wait, first come first.
    pub closed spec fn waiting(&self) -> Seq<usize> {
        self.waiters.view_in(self.links)
    }

    /// `l` is the link of a wait future of this condition variable.
    pub closed spec fn is_waiter_link(&self, l: usize) -> bool {
        &&& l < self.links.len()
        &&& !self.links.is_sentinel(l)
        &&& self.links.owner_at(l) is Some
    }

    /// The arena of the waiters' links.
    pub closed spec fn arena(&self) -> Links<Waiter> {
        self.links
    }

    /// The wait future of link `l` has been notified.
    pub closed spec fn is_notified(&self, l: usize) -> bool {
        &&& l < self.links.len()
        &&& self.links.owner_at(l) matches Some(w) && w.is_notified()
    }

    /// The links that wait futures of `old` hold stay usable.
    pub open spec fn keeps_links(&self, old: Self) -> bool {
        forall|l: usize| #[trigger] old.is_waiter_link(l) ==> self.is_waiter_link(l)
    }

    /// The links that wait futures of `old` hold, but `gone`, stay usable.
    pub open spec fn keeps_links_but(&self, old: Self, gone: usize) -> bool {
        forall|l: usize| #[trigger] old.is_waiter_link(l) && l != gone ==> self.is_waiter_link(l)
    }

    /// The counts of handles are those of `old`.
    pub open spec fn same_handles(&self, old: Self) -> bool {
        &&& self.is_split() == old.is_split()
        &&& self.is_split() ==> self.waiter_handles() == old.waiter_handles()
            && self.notifier_handles() == old.notifier_handles()
    }

    /// `self` is `old` after one notification: the waiter that waited longest, if any, is
    /// notified, its task woken and its waker used up, and it leaves the list; every other
    /// waiter keeps whether it was notified and whether it holds a waker.
    pub open spec fn after_notify_one(&self, old: Self) -> bool {
        &&& old.waiting().len() == 0 ==> self.waiting() == old.waiting() && self.wakes() == old.wakes() && self.woken()
            == old.woken()
        &&& old.waiting().len() > 0 ==> {
            &&& self.waiting() == old.waiting().drop_first()
            &&& self.is_notified(old.waiting()[0])
            &&& !self.has_waker_at(old.waiting()[0])
            &&& self.wakes() == old.wakes().push(old.waiting()[0])
            &&& self.woken() == old.woken().push(old.waiter_waker(old.waiting()[0]))
        }
        &&& forall|l: usize|
            l < old.arena().len() && (old.waiting().len() == 0 || l != old.waiting()[0]) ==> #[trigger] self.waiter_waker(l)
                == old.waiter_waker(l)
        &&& forall|l: usize| #[trigger] old.is_notified(l) ==> self.is_notified(l)
        &&& forall|l: usize| old.is_waiter_link(l) && !old.has_waker_at(l) ==> !#[trigger] self.has_waker_at(l)
        &&& forall|l: usize|
            (old.waiting().len() == 0 || l != old.waiting()[0]) ==> #[trigger] self.is_notified(l) == old.is_notified(l)
        &&& forall|l: usize|
            (old.waiting().len() == 0 || l != old.waiting()[0]) ==> #[trigger] self.has_waker_at(l) == old.has_waker_at(l)
    }

    /// A condition variable with no waiter, not yet split.
    pub fn new() -> (r: Self)
        ensures
            r.wf(),
            !r.is_split(),
            r.waiting() == Seq::<usize>::empty(),
    {
        Condvar { rc: None, links: Links::new(), waiters: List::new(), wakes: WakeLog::new() }
    }

    /// Hands out the first notifier and the first waiter. A condition variable is split
    /// once: later calls return `None`.
    pub fn split(&mut self) -> (r: Option<(CondvarNotifier, CondvarWaiter)>)
        requires
            old(self).wf(),
        ensures
            final(self).wf(),
            final(self).is_split(),
            final(self).waiting() == old(self).waiting(),
            final(self).keeps_links(*old(self)),
            old(self).is_split() ==> r is None && final(self).same_handles(*old(self)),
            !old(self).is_split() ==> r is Some && final(self).waiter_handles() == 1
                && final(self).notifier_handles() == 1,
            final(self).wakes() == old(self).wakes(),
            final(self).woken() == old(self).woken(),
    {
        if self.rc.is_some() {
            None
        } else {
            let mut w = RcAnchor::new(());
            let mut n = RcAnchor::new(());
            let wr = w.get_ref();
            let nr = n.get_ref();
            self.rc = Some((w, n));
            Some((CondvarNotifier { condvar: nr }, CondvarWaiter { condvar: wr }))
        }
    }

    /// Notifies the waiter of link `l`, which is out of the list.
    fn notify_link(&mut self, l: usize)
        requires
            old(self).links.wf(),
            l < old(self).links.len(),
        ensures
            final(self).links.wf(),
            final(self).rc == old(self).rc,
            final(self).waiters == old(self).waiters,
            old(self).links.owner_at(l) is Some ==> final(self).is_notified(l),
            !final(self).has_waker_at(l),
            final(self).wakes() == (if old(self).has_waker_at(l) {
                old(self).wakes().push(l)
            } else {
                old(self).wakes()
            }),
            final(self).woken() == (if old(self).has_waker_at(l) {
                old(self).woken().push(old(self).waiter_waker(l))
            } else {
                old(self).woken()
            }),
            final(self).links.owner_at(l) is Some == old(self).links.owner_at(l) is Some,
            final(self).links.len() == old(self).links.len(),
            forall|j: usize| j != l && j < old(self).links.len() ==> #[trigger] final(self).links.owner_at(j)
                == old(self).links.owner_at(j),
            forall|g: usize| #[trigger] final(self).links.has_list(g) == old(self).links.has_list(g),
            forall|g: usize| #[trigger] final(self).links.members(g) == old(self).links.members(g),
            forall|j: usize| #[trigger] final(self).links.is_sentinel(j) == old(self).links.is_sentinel(j),
    {
        let owner = self.links.replace_owner(l, None);
        match owner {
            Some(mut w) => {
                w.notify(l, &mut self.wakes);
                self.links.replace_owner(l, Some(w));
            },
            None => {},
        }
    }

    fn try_notify_one(&mut self)
        requires
            old(self).wf(),
        ensures
            final(self).wf(),
            final(self).rc == old(self).rc,
            final(self).keeps_links(*old(self)),
            old(self).waiting().len() == 0 ==> final(self).waiting() == old(self).waiting(),
            old(self).waiting().len() > 0 ==> {
                &&& final(self).waiting() == old(self).waiting().drop_first()
                &&& final(self).is_notified(old(self).waiting()[0])
            },
            forall|l: usize| #[trigger] old(self).is_notified(l) ==> final(self).is_notified(l),
            final(self).after_notify_one(*old(self)),
    {
        let ghost links0 = self.links;
        let popped = self.waiters.pop_front(&mut self.links);
        match popped {
            Some(l) => {
                proof {
                    self.links.lemma_standing(l);
                    links0.lemma_members(self.waiters.head_view().unwrap());
                    assert(links0.owner_at(l) is Some) by {
                        assert(old(self).waiting()[0] == l);
                    }
                }
                let ghost links1 = self.links;
                self.notify_link(l);
                proof {
                    let w0 = old(self).waiting();
                    assert forall|k: int| 0 <= k < self.waiting().len() implies #[trigger] self.links.owner_at(
                        self.waiting()[k],
                    ) is Some by {
                        assert(self.waiting()[k] == w0[k + 1]);
                        assert(w0[k + 1] != w0[0]);
                        assert(links1.owner_at(w0[k + 1]) == links0.owner_at(w0[k + 1]));
                        assert(old(self).links.owner_at(w0[k + 1]) is Some);
                    }
                    assert forall|i: usize| #[trigger] old(self).is_waiter_link(i) implies self.is_waiter_link(i) by {
                        if i != l {
                            assert(links1.owner_at(i) == links0.owner_at(i));
                        }
                    }
                    assert forall|i: usize| #[trigger] old(self).is_notified(i) implies self.is_notified(i) by {
                        if i != l {
                            assert(links1.owner_at(i) == links0.owner_at(i));
                        } else {
                            links0.lemma_standing(i);
                        }
                    }
                    assert(old(self).has_waker_at(l)) by {
                        assert(old(self).links.owner_at(old(self).waiting()[0]).unwrap().has_waker());
                    }
                    assert(links1.owner_at(l) == links0.owner_at(l));
                    assert forall|i: usize| old(self).is_waiter_link(i) && !old(self).has_waker_at(i) implies !#[trigger] self.has_waker_at(i) by {
                        if i != l {
                            assert(links1.owner_at(i) == links0.owner_at(i));
                        }
                    }
                    assert forall|i: usize| i != l && i < links0.len() implies #[trigger] self.waiter_waker(i) == old(
                        self,
                    ).waiter_waker(i) by {
                        assert(links1.owner_at(i) == links0.owner_at(i));
                    }
                    assert forall|i: usize| i != l implies #[trigger] self.is_notified(i) == old(self).is_notified(i)
                        && self.has_waker_at(i) == old(self).has_waker_at(i) by {
                        if i < links0.len() {
                            assert(links1.owner_at(i) == links0.owner_at(i));
                        } else if i < links1.len() {
                            assert(links1.owner_at(i) is None);
                        }
                    }
                }
            },
            None => {
                proof {
                    assert forall|i: usize| #[trigger] old(self).is_waiter_link(i) implies self.is_waiter_link(i) by {
                        assert(self.links.owner_at(i) == links0.owner_at(i));
                    }
                    assert forall|i: usize| #[trigger] old(self).is_notified(i) implies self.is_notified(i) by {
                        if i < links0.len() {
                            assert(self.links.owner_at(i) == links0.owner_at(i));
                        }
                    }
                    assert forall|i: usize| old(self).is_waiter_link(i) && !old(self).has_waker_at(i) implies !#[trigger] self.has_waker_at(i) by {
                        assert(self.links.owner_at(i) == links0.owner_at(i));
                    }
                    assert forall|i: usize| i < links0.len() implies #[trigger] self.waiter_waker(i) == old(
                        self,
                    ).waiter_waker(i) by {
                        assert(self.links.owner_at(i) == links0.owner_at(i));
                    }
                    assert forall|i: usize| #[trigger] self.is_notified(i) == old(self).is_notified(i)
                        && self.has_waker_at(i) == old(self).has_waker_at(i) by {
                        if i < links0.len() {
                            assert(self.links.owner_at(i) == links0.owner_at(i));
                        } else if i < self.links.len() {
                            assert(self.links.owner_at(i) is None);
                        }
                    }
                }
            },
        }
    }

    fn try_notify_all(&mut self)
        requires
            old(self).wf(),
        ensures
            final(self).wf(),
            final(self).rc == old(self).rc,
            final(self).keeps_links(*old(self)),
            final(self).waiting() == Seq::<usize>::empty(),
            forall|k: int| 0 <= k < old(self).waiting().len() ==> #[trigger] final(self).is_notified(
                old(self).waiting()[k],
            ),
            forall|k: int| 0 <= k < old(self).waiting().len() ==> !#[trigger] final(self).has_waker_at(
                old(self).waiting()[k],
            ),
            final(self).wakes() == old(self).wakes() + old(self).waiting(),
            final(self).woken() == old(self).woken() + old(self).wakers_of(old(self).waiting()),
            forall|l: usize| #[trigger] old(self).is_notified(l) ==> final(self).is_notified(l),
    {
        let ghost w0 = self.waiting();
        proof {
            lemma_view_in(self.links, self.waiters);
            assert(self.woken() =~= old(self).woken() + old(self).wakers_of(w0.take(0)));
        }
        let ghost mut k: int = 0;
        loop
            invariant
                self.wf(),
                self.rc == old(self).rc,
                0 <= k <= w0.len(),
                w0 == old(self).waiting(),
                self.waiting() == w0.skip(k),
                forall|j: int| 0 <= j < k ==> #[trigger] self.is_notified(w0[j]),
                forall|j: int| 0 <= j < k ==> !#[trigger] self.has_waker_at(w0[j]) && self.is_waiter_link(w0[j]),
                self.wakes() == old(self).wakes() + w0.take(k),
                self.woken() == old(self).woken() + old(self).wakers_of(w0.take(k)),
                w0.no_duplicates(),
                forall|j: int| k <= j < w0.len() ==> #[trigger] self.waiter_waker(w0[j]) == old(self).waiter_waker(w0[j]),
                forall|l: usize| #[trigger] old(self).is_waiter_link(l) ==> self.is_waiter_link(l),
                forall|l: usize| #[trigger] old(self).is_notified(l) ==> self.is_notified(l),
            ensures
                self.waiting().len() == 0,
            decreases w0.len() - k,
        {
            let ghost before = *self;
            if self.waiters.is_empty(&self.links) {
                break;
            }
            self.try_notify_one();
            proof {
                assert(before.waiting()[0] == w0[k]);
                assert(w0.skip(k).drop_first() =~= w0.skip(k + 1));
                assert forall|j: int| 0 <= j < k + 1 implies #[trigger] self.is_notified(w0[j]) by {
                    if j < k {
                        assert(before.is_notified(w0[j]));
                    }
                }
                assert forall|l: usize| #[trigger] old(self).is_waiter_link(l) implies self.is_waiter_link(l) by {
                    assert(before.is_waiter_link(l));
                }
                assert forall|l: usize| #[trigger] old(self).is_notified(l) implies self.is_notified(l) by {
                    assert(before.is_notified(l));
                }
                assert(before.is_waiter_link(w0[k])) by {
                    before.links.lemma_members(before.waiters.head_view().unwrap());
                    before.links.lemma_standing(w0[k]);
                    assert(before.links.owner_at(before.waiting()[0]) is Some);
                }
                assert forall|j: int| 0 <= j < k + 1 implies !#[trigger] self.has_waker_at(w0[j]) && self.is_waiter_link(
                    w0[j],
                ) by {
                    if j < k {
                        assert(!before.has_waker_at(w0[j]));
                        assert(before.is_waiter_link(w0[j]));
                        assert(w0[j] != w0[k]);
                    }
                    assert(before.is_waiter_link(w0[j]));
                }
                assert(w0.take(k + 1) =~= w0.take(k).push(w0[k]));
                lemma_view_in(before.links, before.waiters);
                assert forall|j: int| k + 1 <= j < w0.len() implies #[trigger] self.waiter_waker(w0[j]) == old(
                    self,
                ).waiter_waker(w0[j]) by {
                    assert(before.waiting()[j - k] == w0[j]);
                    assert(w0[j] != w0[k]);
                    assert(before.waiter_waker(w0[j]) == old(self).waiter_waker(w0[j]));
                }
                assert(old(self).wakers_of(w0.take(k + 1)) =~= old(self).wakers_of(w0.take(k)).push(
                    old(self).waiter_waker(w0[k]),
                ));
                k = k + 1;
            }
        }
        proof {
            assert(k == w0.len()) by {
                if k < w0.len() {
                    assert(w0.skip(k).len() > 0);
                }
            }
        }
    }

    /// Counts one more waiter handle.
    fn add_waiter_handle(&mut self) -> (r: RcRef<()>)
        requires
            old(self).is_split(),
            old(self).waiter_handles() < u32::MAX,
        ensures
            final(self).is_split(),
            final(self).waiter_handles() == old(self).waiter_handles() + 1,
            final(self).notifier_handles() == old(self).notifier_handles(),
            final(self).links == old(self).links,
            final(self).waiters == old(self).waiters,
            final(self).wakes() == old(self).wakes(),
            final(self).woken() == old(self).woken(),
    {
        let pair = self.rc.take();
        match pair {
            Some((mut w, n)) => {
                let r = w.get_ref();
                self.rc = Some((w, n));
                r
            },
            None => {
                proof {
                    assert(false);
                }
                RcRef::dangling()
            },
        }
    }

    /// Counts one more notifier handle.
    fn add_notifier_handle(&mut self) -> (r: RcRef<()>)
        requires
            old(self).is_split(),
            old(self).notifier_handles() < u32::MAX,
        ensures
            final(self).is_split(),
            final(self).notifier_handles() == old(self).notifier_handles() + 1,
            final(self).waiter_handles() == old(self).waiter_handles(),
            final(self).links == old(self).links,
            final(self).waiters == old(self).waiters,
            final(self).wakes() == old(self).wakes(),
            final(self).woken() == old(self).woken(),
    {
        let pair = self.rc.take();
        match pair {
            Some((w, mut n)) => {
                let r = n.get_ref();
                self.rc = Some((w, n));
                r
            },
            None => {
                proof {
                    assert(false);
                }
                RcRef::dangling()
            },
        }
    }

    /// Takes a waiter handle back.
    fn drop_waiter_handle(&mut self, handle: RcRef<()>)
        requires
            old(self).is_split(),
            old(self).waiter_handles() > 0,
        ensures
            final(self).is_split(),
            final(self).waiter_handles() == old(self).waiter_handles() - 1,
            final(self).notifier_handles() == old(self).notifier_handles(),
            final(self).links == old(self).links,
            final(self).waiters == old(self).waiters,
            final(self).wakes() == old(self).wakes(),
            final(self).woken() == old(self).woken(),
    {
        let pair = self.rc.take();
        match pair {
            Some((mut w, n)) => {
                handle.release(&mut w);
                self.rc = Some((w, n));
            },
            None => {
                proof {
                    assert(false);
                }
            },
        }
    }

    /// Takes a notifier handle back. When it is the last one, every waiter is
    /// notified, so that it can see that no notification will come.
    fn drop_notifier_handle(&mut self, handle: RcRef<()>)
        requires
            old(self).wf(),
            old(self).is_split(),
            old(self).notifier_handles() > 0,
        ensures
            final(self).wf(),
            final(self).is_split(),
            final(self).notifier_handles() == old(self).notifier_handles() - 1,
            final(self).waiter_handles() == old(self).waiter_handles(),
            final(self).keeps_links(*old(self)),
            forall|l: usize| #[trigger] old(self).is_notified(l) ==> final(self).is_notified(l),
            old(self).notifier_handles() == 1 ==> {
                &&& final(self).waiting() == Seq::<usize>::empty()
                &&& forall|k: int| 0 <= k < old(self).waiting().len() ==> #[trigger] final(self).is_notified(
                    old(self).waiting()[k],
                )
                &&& final(self).wakes() == old(self).wakes() + old(self).waiting()
                &&& final(self).woken() == old(self).woken() + old(self).wakers_of(old(self).waiting())
            },
            old(self).notifier_handles() > 1 ==> final(self).waiting() == old(self).waiting() && final(self).wakes()
                == old(self).wakes() && final(self).woken() == old(self).woken(),
    {
        let last = match &self.rc {
            Some((_, n)) => n.ref_count() == 1,
            None => false,
        };
        if last {
            self.try_notify_all();
        }
        let ghost mid = *self;
        let pair = self.rc.take();
        match pair {
            Some((w, mut n)) => {
                handle.release(&mut n);
                self.rc = Some((w, n));
            },
            None => {
                proof {
                    assert(false);
                }
            },
        }
        proof {
            assert forall|l: usize| #[trigger] old(self).is_waiter_link(l) implies self.is_waiter_link(l) by {
                assert(mid.is_waiter_link(l));
            }
            assert forall|l: usize| #[trigger] old(self).is_notified(l) implies self.is_notified(l) by {
                assert(mid.is_notified(l));
            }
            if old(self).notifier_handles() == 1 {
                assert forall|k: int| 0 <= k < old(self).waiting().len() implies #[trigger] self.is_notified(
                    old(self).waiting()[k],
                ) by {
                    assert(mid.is_notified(old(self).waiting()[k]));
                }
            }
        }
    }

    /// Sets the waker of the waiter of link `l` and puts it at the back of the list if
    /// it is not in it yet.
    fn add_waiter(&mut self, l: usize, waker: &core::task::Waker)
        requires
            old(self).wf(),
            old(self).is_waiter_link(l),
            !old(self).is_notified(l),
        ensures
            final(self).wf(),
            final(self).rc == old(self).rc,
            final(self).keeps_links(*old(self)),
            !final(self).is_notified(l),
            forall|i: usize| #[trigger] old(self).is_notified(i) ==> final(self).is_notified(i),
            final(self).waiting() == (if old(self).waiting().contains(l) {
                old(self).waiting()
            } else {
                old(self).waiting().push(l)
            }),
            final(self).wakes() == old(self).wakes(),
            final(self).woken() == old(self).woken(),
    {
        let ghost links0 = self.links;
        proof {
            if self.waiters.head_view() is Some {
                links0.lemma_members(self.waiters.head_view().unwrap());
            }
        }
        let owner = self.links.replace_owner(l, None);
        let ghost links1 = self.links;
        let w = match owner {
            Some(mut w) => {
                w.waker = Some(clone_waker(waker));
                w
            },
            None => {
                proof {
                    assert(false);
                }
                Waiter::default()
            },
        };
        proof {
            assert(!w.is_notified());
            assert(self.waiters.view_in(self.links) == self.waiters.view_in(links0));
        }
        if self.links.is_linked(l) {
            self.links.replace_owner(l, Some(w));
            proof {
                self.lemma_waiting_is_member(links0, l);
                assert(self.waiters.view_in(self.links) == self.waiters.view_in(links0));
                assert forall|i: usize| #[trigger] old(self).is_waiter_link(i) implies self.is_waiter_link(i) by {
                    if i != l {
                        assert(self.links.owner_at(i) == links0.owner_at(i));
                    }
                }
                assert forall|i: usize| #[trigger] old(self).is_notified(i) implies self.is_notified(i) by {
                    assert(self.links.owner_at(i) == links0.owner_at(i));
                }
                assert forall|k: int| 0 <= k < self.waiting().len() implies #[trigger] self.links.owner_at(
                    self.waiting()[k],
                ) is Some by {
                    if self.waiting()[k] != l {
                        assert(self.links.owner_at(self.waiting()[k]) == links0.owner_at(self.waiting()[k]));
                    }
                }
            }
        } else {
            proof {
                self.lemma_waiting_is_member(links0, l);
                links1.lemma_standing(l);
            }
            let node_owner = w;
            self.waiters.push_link_back(&mut self.links, node_owner, l);
            proof {
                self.links.lemma_standing(l);
                assert forall|i: usize| #[trigger] old(self).is_waiter_link(i) implies self.is_waiter_link(i) by {
                    if i != l {
                        assert(self.links.owner_at(i) == links0.owner_at(i));
                    }
                }
                assert forall|i: usize| #[trigger] old(self).is_notified(i) implies self.is_notified(i) by {
                    assert(self.links.owner_at(i) == links0.owner_at(i));
                }
                assert forall|k: int| 0 <= k < self.waiting().len() implies #[trigger] self.links.owner_at(
                    self.waiting()[k],
                ) is Some by {
                    if self.waiting()[k] != l {
                        assert(k < old(self).waiting().len());
                        assert(self.links.owner_at(self.waiting()[k]) == links0.owner_at(self.waiting()[k]));
                    }
                }
            }
        }
    }

    /// Takes the waiter of link `l` out of the list, if it is in it.
    /// Gives the link `l` of a wait future that is gone back for reuse, once it is in no
    /// list.
    fn recycle_waiter_link(&mut self, l: usize)
        requires
            old(self).wf(),
            l < old(self).links.len(),
        ensures
            final(self).wf(),
            final(self).rc == old(self).rc,
            final(self).keeps_links_but(*old(self), l),
            final(self).waiting() == old(self).waiting(),
            final(self).wakes() == old(self).wakes(),
            final(self).woken() == old(self).woken(),
    {
        let ghost links0 = self.links;
        proof {
            lemma_view_in(links0, self.waiters);
        }
        self.links.recycle(l);
        proof {
            assert forall|k: int| 0 <= k < self.waiting().len() implies #[trigger] self.links.owner_at(
                self.waiting()[k],
            ) == links0.owner_at(self.waiting()[k]) by {
                let x = self.waiting()[k];
                links0.lemma_standing(x);
                if links0.is_detached(l) {
                    assert(x != l);
                }
            }
            assert forall|i: usize| #[trigger] old(self).is_waiter_link(i) && i != l implies self.is_waiter_link(i) by {
                assert(self.links.owner_at(i) == links0.owner_at(i));
            }
        }
    }

    fn unlink_waiter(&mut self, l: usize)
        requires
            old(self).wf(),
            old(self).is_waiter_link(l),
        ensures
            final(self).wf(),
            final(self).rc == old(self).rc,
            final(self).keeps_links(*old(self)),
            forall|i: usize| #[trigger] old(self).is_notified(i) ==> final(self).is_notified(i),
            !final(self).waiting().contains(l),
            old(self).waiting().contains(l) ==> final(self).waiting() == old(self).waiting().remove(
                old(self).waiting().index_of(l),
            ),
            !old(self).waiting().contains(l) ==> final(self).waiting() == old(self).waiting(),
            final(self).wakes() == old(self).wakes(),
            final(self).woken() == old(self).woken(),
    {
        let ghost links0 = self.links;
        proof {
            self.lemma_waiting_is_member(links0, l);
            if links0.is_member(l) {
                links0.lemma_member_in_list(l);
            }
        }
        self.links.unlink(l);
        proof {
            self.links.lemma_standing(l);
            let h = self.waiters.head_view();
            if h is Some {
                self.links.lemma_members(h.unwrap());
                links0.lemma_members(h.unwrap());
            }
            if self.waiting().contains(l) {
                let k = choose|k: int| 0 <= k < self.waiting().len() && self.waiting()[k] == l;
                assert(self.links.is_member(self.waiting()[k]));
            }
            assert forall|i: usize| #[trigger] old(self).is_waiter_link(i) implies self.is_waiter_link(i) by {
                assert(self.links.owner_at(i) == links0.owner_at(i));
                if i != l {
                    assert(self.links.owner_at(i) == links0.owner_at(i));
                }
            }
            assert forall|i: usize| #[trigger] old(self).is_notified(i) implies self.is_notified(i) by {
                assert(self.links.owner_at(i) == links0.owner_at(i));
            }
            let w0 = old(self).waiting();
            if w0.contains(l) {
                w0.remove_ensures(w0.index_of(l));
            }
            assert forall|k: int| 0 <= k < self.waiting().len() implies #[trigger] self.links.owner_at(
                self.waiting()[k],
            ) is Some by {
                if w0.contains(l) {
                    let j = w0.index_of(l);
                    if k < j {
                        assert(self.waiting()[k] == w0[k]);
                    } else {
                        assert(self.waiting()[k] == w0[k + 1]);
                    }
                }
            }
        }
    }

    proof fn lemma_waiting_is_member(&self, links0: Links<Waiter>, l: usize)
        requires
            links0.wf(),
            self.waiters.wf_in(links0),
            forall|g: usize| #[trigger] links0.has_list(g) ==> Some(g) == self.waiters.head_view(),
            l < links0.len(),
            !links0.is_sentinel(l),
        ensures
            links0.is_member(l) == self.waiters.view_in(links0).contains(l),
    {
        if links0.is_member(l) {
            links0.lemma_member_in_list(l);
        }
        if self.waiters.view_in(links0).contains(l) {
            let h = self.waiters.head_view().unwrap();
            links0.lemma_members(h);
            let k = choose|k: int| 0 <= k < links0.members(h).len() && links0.members(h)[k] == l;
            assert(links0.is_member(links0.members(h)[k]));
        }
    }
}

/// Waiters are notified in the order they started waiting: `k` notifications of a
/// condition variable with at least `k` waiters notify its `k` longest waiters, waking
/// their tasks in that order, and leave the others waiting, in order. `cs` are its states before and after each notification.
pub proof fn law_notify_in_order(cs: Seq<Condvar>, k: nat)
    requires
        cs.len() == k + 1,
        k <= cs[0].waiting().len(),
        forall|i: int, j: int| 0 <= i < k && j == i + 1 ==> #[trigger] cs[j].after_notify_one(#[trigger] cs[i]),
    ensures
        forall|m: int| 0 <= m < k ==> #[trigger] cs.last().is_notified(cs[0].waiting()[m]),
        cs.last().waiting() == cs[0].waiting().skip(k as int),
        cs.last().wakes() == cs[0].wakes() + cs[0].waiting().take(k as int),
    decreases k,
{
    if k == 0 {
        assert(cs[0].waiting().skip(0) =~= cs[0].waiting());
        assert(cs[0].wakes() + cs[0].waiting().take(0) =~= cs[0].wakes());
    } else {
        let n = (k - 1) as nat;
        let cs0 = cs.drop_last();
        assert forall|i: int, j: int| 0 <= i < n && j == i + 1 implies #[trigger] cs0[j].after_notify_one(
            #[trigger] cs0[i],
        ) by {
            assert(cs[j].after_notify_one(cs[i]));
        }
        law_notify_in_order(cs0, n);
        let w = cs[0].waiting();
        assert(cs[k as int].after_notify_one(cs[n as int]));
        assert(cs[n as int].waiting() == w.skip(n as int));
        assert(w.skip(n as int)[0] == w[n as int]);
        assert(w.skip(n as int).drop_first() =~= w.skip(k as int));
        assert(cs[0].wakes() + w.take(k as int) =~= (cs[0].wakes() + w.take(n as int)).push(w[n as int]));
        assert forall|m: int| 0 <= m < k implies #[trigger] cs.last().is_notified(w[m]) by {
            if m < n {
                assert(cs0.last().is_notified(w[m]));
            }
        }
    }
}

/// The waiting half of a condition variable.
pub struct CondvarWaiter {
    condvar: RcRef<()>,
}

/// The notifying half of a condition variable.
pub struct CondvarNotifier {
    condvar: RcRef<()>,
}

impl CondvarNotifier {
    /// Notifies the waiter that has waited longest, if any.
    pub fn notify_one(&self, condvar: &mut Condvar)
        requires
            old(condvar).wf(),
        ensures
            final(condvar).wf(),
            final(condvar).same_handles(*old(condvar)),
            final(condvar).keeps_links(*old(condvar)),
            old(condvar).waiting().len() == 0 ==> final(condvar).waiting() == old(condvar).waiting(),
            old(condvar).waiting().len() > 0 ==> {
                &&& final(condvar).waiting() == old(condvar).waiting().drop_first()
                &&& final(condvar).is_notified(old(condvar).waiting()[0])
            },
            forall|l: usize| #[trigger] old(condvar).is_notified(l) ==> final(condvar).is_notified(l),
            final(condvar).after_notify_one(*old(condvar)),
    {
        condvar.try_notify_one();
    }

    /// Notifies every waiter.
    pub fn notify_all(&self, condvar: &mut Condvar)
        requires
            old(condvar).wf(),
        ensures
            final(condvar).wf(),
            final(condvar).same_handles(*old(condvar)),
            final(condvar).keeps_links(*old(condvar)),
            final(condvar).waiting() == Seq::<usize>::empty(),
            forall|k: int| 0 <= k < old(condvar).waiting().len() ==> #[trigger] final(condvar).is_notified(
                old(condvar).waiting()[k],
            ),
            forall|k: int| 0 <= k < old(condvar).waiting().len() ==> !#[trigger] final(condvar).has_waker_at(
                old(condvar).waiting()[k],
            ),
            final(condvar).wakes() == old(condvar).wakes() + old(condvar).waiting(),
            final(condvar).woken() == old(condvar).woken() + old(condvar).wakers_of(old(condvar).waiting()),
            forall|l: usize| #[trigger] old(condvar).is_notified(l) ==> final(condvar).is_notified(l),
    {
        condvar.try_notify_all();
    }

    /// One more notifier of the same condition variable.
    pub fn clone(&self, condvar: &mut Condvar) -> (r: Self)
        requires
            old(condvar).wf(),
            old(condvar).is_split(),
            old(condvar).notifier_handles() < u32::MAX,
        ensures
            final(condvar).wf(),
            final(condvar).is_split(),
            final(condvar).notifier_handles() == old(condvar).notifier_handles() + 1,
            final(condvar).waiter_handles() == old(condvar).waiter_handles(),
            final(condvar).waiting() == old(condvar).waiting(),
            final(condvar).keeps_links(*old(condvar)),
            final(condvar).wakes() == old(condvar).wakes(),
            final(condvar).woken() == old(condvar).woken(),
    {
        let handle = condvar.add_notifier_handle();
        CondvarNotifier { condvar: handle }
    }

    /// Gives the notifier back. When it was the last one, every waiter is notified.
    pub fn release(self, condvar: &mut Condvar)
        requires
            old(condvar).wf(),
            old(condvar).is_split(),
            old(condvar).notifier_handles() > 0,
        ensures
            final(condvar).wf(),
            final(condvar).is_split(),
            final(condvar).notifier_handles() == old(condvar).notifier_handles() - 1,
            final(condvar).waiter_handles() == old(condvar).waiter_handles(),
            final(condvar).keeps_links(*old(condvar)),
            old(condvar).notifier_handles() == 1 ==> final(condvar).waiting() == Seq::<usize>::empty()
                && final(condvar).wakes() == old(condvar).wakes() + old(condvar).waiting()
                && final(condvar).woken() == old(condvar).woken() + old(condvar).wakers_of(old(condvar).waiting()),
            old(condvar).notifier_handles() > 1 ==> final(condvar).waiting() == old(condvar).waiting()
                && final(condvar).woken() == old(condvar).woken(),
    {
        condvar.drop_notifier_handle(self.condvar);
    }
}

impl CondvarWaiter {
    /// A future that waits for a notification. It holds a waiter handle of its own.
    pub fn wait_future(&self, condvar: &mut Condvar) -> (r: WaitFuture)
        requires
            old(condvar).wf(),
            old(condvar).is_split(),
            old(condvar).waiter_handles() < u32::MAX,
        ensures
            final(condvar).wf(),
            final(condvar).is_split(),
            final(condvar).waiter_handles() == old(condvar).waiter_handles() + 1,
            final(condvar).notifier_handles() == old(condvar).notifier_handles(),
            final(condvar).waiting() == old(condvar).waiting(),
            final(condvar).keeps_links(*old(condvar)),
            r.can_poll(*final(condvar)),
            !final(condvar).is_notified(r.link_view()),
            !old(condvar).waiting().contains(r.link_view()),
            final(condvar).wakes() == old(condvar).wakes(),
            final(condvar).woken() == old(condvar).woken(),
            r.link_view() == old(condvar).arena().len() || old(condvar).arena().free_view().contains(r.link_view()),
            !final(condvar).arena().free_view().contains(r.link_view()),
    {
        let handle = condvar.add_waiter_handle();
        let ghost links0 = condvar.links;
        let node = Node::new(&mut condvar.links, Waiter::default());
        proof {
            condvar.links.lemma_standing(node.link_view());
            assert forall|i: usize| #[trigger] old(condvar).is_waiter_link(i) implies condvar.is_waiter_link(i) by {
                if i != node.link_view() {
                    assert(condvar.links.owner_at(i) == links0.owner_at(i));
                }
            }
            assert(condvar.waiters.view_in(condvar.links) == condvar.waiters.view_in(links0));
            assert forall|k: int| 0 <= k < condvar.waiting().len() implies #[trigger] condvar.links.owner_at(
                condvar.waiting()[k],
            ) == links0.owner_at(condvar.waiting()[k]) by {
                links0.lemma_members(condvar.waiters.head_view().unwrap());
                links0.lemma_standing(condvar.waiting()[k]);
                assert(condvar.waiting()[k] != node.link_view());
            }
            if old(condvar).waiting().contains(node.link_view()) {
                links0.lemma_members(condvar.waiters.head_view().unwrap());
            }
        }
        WaitFuture { node, condvar: handle }
    }

    /// Releases the mutex of `guard` and returns the wait that ends with the mutex locked
    /// again once a notification has come.
    pub fn wait<T>(&self, condvar: &mut Condvar, mutex: &mut Mutex<T>, guard: MutexGuard<T>) -> (r: Wait<T>)
        requires
            old(condvar).wf(),
            old(condvar).is_split(),
            old(condvar).waiter_handles() < u32::MAX,
            old(mutex).wf(),
            old(mutex).refs() > 0,
            old(mutex).refs() + 2 < u32::MAX,
        ensures
            final(condvar).wf(),
            final(condvar).is_split(),
            final(condvar).waiter_handles() == old(condvar).waiter_handles() + 1,
            final(condvar).notifier_handles() == old(condvar).notifier_handles(),
            final(condvar).waiting() == old(condvar).waiting(),
            final(condvar).keeps_links(*old(condvar)),
            final(mutex).wf(),
            !final(mutex).is_locked(),
            final(mutex).refs() == old(mutex).refs(),
            final(mutex).value() == old(mutex).value(),
            final(mutex).waiting() == Seq::<usize>::empty(),
            final(mutex).keeps_links(*old(mutex)),
            r.can_poll(*final(condvar), *final(mutex)),
            r.is_waiting(),
    {
        let mref = guard.source(mutex);
        guard.unlock(mutex);
        let fut = self.wait_future(condvar);
        Wait { mref: Some(mref), stage: WaitStage::Waiting(fut) }
    }

    /// One round of waiting until a condition on the protected value holds, where
    /// `satisfied` tells whether it holds now: then the guard is handed back; otherwise
    /// the mutex is released and the returned wait ends with it locked again once a
    /// notification comes, when the condition is to be checked again.
    pub fn wait_until_step<T>(
        &self,
        condvar: &mut Condvar,
        mutex: &mut Mutex<T>,
        guard: MutexGuard<T>,
        satisfied: bool,
    ) -> (r: WaitUntil<T>)
        requires
            old(condvar).wf(),
            old(condvar).is_split(),
            old(condvar).waiter_handles() < u32::MAX,
            old(mutex).wf(),
            old(mutex).refs() > 0,
            old(mutex).refs() + 2 < u32::MAX,
        ensures
            satisfied ==> r is Satisfied && *final(condvar) == *old(condvar) && *final(mutex) == *old(mutex),
            !satisfied ==> {
                &&& r matches WaitUntil::Waiting(w) && w.can_poll(*final(condvar), *final(mutex)) && w.is_waiting()
                &&& final(condvar).waiter_handles() == old(condvar).waiter_handles() + 1
                &&& final(condvar).notifier_handles() == old(condvar).notifier_handles()
                &&& final(condvar).waiting() == old(condvar).waiting()
                &&& !final(mutex).is_locked()
                &&& final(mutex).refs() == old(mutex).refs()
                &&& final(mutex).value() == old(mutex).value()
            },
    {
        if satisfied {
            WaitUntil::Satisfied(guard)
        } else {
            WaitUntil::Waiting(self.wait(condvar, mutex, guard))
        }
    }

    /// One more waiter of the same condition variable.
    pub fn clone(&self, condvar: &mut Condvar) -> (r: Self)
        requires
            old(condvar).wf(),
            old(condvar).is_split(),
            old(condvar).waiter_handles() < u32::MAX,
        ensures
            final(condvar).wf(),
            final(condvar).is_split(),
            final(condvar).waiter_handles() == old(condvar).waiter_handles() + 1,
            final(condvar).notifier_handles() == old(condvar).notifier_handles(),
            final(condvar).waiting() == old(condvar).waiting(),
            final(condvar).keeps_links(*old(condvar)),
            final(condvar).wakes() == old(condvar).wakes(),
            final(condvar).woken() == old(condvar).woken(),
    {
        let handle = condvar.add_waiter_handle();
        CondvarWaiter { condvar: handle }
    }

    /// Gives the waiter back.
    pub fn release(self, condvar: &mut Condvar)
        requires
            old(condvar).wf(),
            old(condvar).is_split(),
            old(condvar).waiter_handles() > 0,
        ensures
            final(condvar).wf(),
            final(condvar).is_split(),
            final(condvar).waiter_handles() == old(condvar).waiter_handles() - 1,
            final(condvar).notifier_handles() == old(condvar).notifier_handles(),
            final(condvar).waiting() == old(condvar).waiting(),
            final(condvar).keeps_links(*old(condvar)),
            final(condvar).wakes() == old(condvar).wakes(),
            final(condvar).woken() == old(condvar).woken(),
    {
        condvar.drop_waiter_handle(self.condvar);
    }
}

/// The future that waits for a notification.
pub struct WaitFuture {
    node: Node<Waiter>,
    condvar: RcRef<()>,
}

impl WaitFuture {
    /// The link of the future's waiter.
    pub closed spec fn link_view(&self) -> usize {
        self.node.link_view()
    }

    /// The future may be polled on `condvar`.
    pub open spec fn can_poll(&self, condvar: Condvar) -> bool {
        &&& condvar.wf()
        &&& condvar.is_split()
        &&& condvar.is_waiter_link(self.link_view())
    }

    /// Ready once notified; ready with an error when not notified and no notifier is left;
    /// otherwise the future waits, woken through `waker`.
    pub fn poll(&mut self, condvar: &mut Condvar, waker: &core::task::Waker) -> (r: Poll<Result<(), WaitError>>)
        requires
            old(self).can_poll(*old(condvar)),
        ensures
            final(self).link_view() == old(self).link_view(),
            final(self).can_poll(*final(condvar)),
            final(condvar).same_handles(*old(condvar)),
            final(condvar).keeps_links(*old(condvar)),
            forall|l: usize| #[trigger] old(condvar).is_notified(l) ==> final(condvar).is_notified(l),
            old(condvar).is_notified(old(self).link_view()) ==> r == Poll::Ready(Ok::<(), WaitError>(()))
                && final(condvar).waiting() == old(condvar).waiting(),
            !old(condvar).is_notified(old(self).link_view()) && old(condvar).notifier_handles() == 0 ==> r
                == Poll::Ready(Err::<(), WaitError>(WaitError)) && final(condvar).waiting() == old(
                condvar,
            ).waiting(),
            !old(condvar).is_notified(old(self).link_view()) && old(condvar).notifier_handles() > 0 ==> {
                &&& r == Poll::<Result<(), WaitError>>::Pending
                &&& !final(condvar).is_notified(old(self).link_view())
                &&& final(condvar).waiting() == (if old(condvar).waiting().contains(old(self).link_view()) {
                    old(condvar).waiting()
                } else {
                    old(condvar).waiting().push(old(self).link_view())
                })
            },
            final(condvar).wakes() == old(condvar).wakes(),
            final(condvar).woken() == old(condvar).woken(),
    {
        let l = self.node.link();
        let notified = match condvar.links.owner(l) {
            Some(w) => w.notified,
            None => false,
        };
        if notified {
            Poll::Ready(Ok(()))
        } else {
            let notifiers = match &condvar.rc {
                Some((_, n)) => n.ref_count(),
                None => 0,
            };
            if notifiers == 0 {
                Poll::Ready(Err(WaitError))
            } else {
                condvar.add_waiter(l, waker);
                Poll::Pending
            }
        }
    }

    /// Takes the future's waiter out of the list, and gives back the waiter handle the
    /// future holds.
    pub fn release(self, condvar: &mut Condvar)
        requires
            old(condvar).wf(),
            old(condvar).is_split(),
            old(condvar).waiter_handles() > 0,
            old(condvar).is_waiter_link(self.link_view()),
        ensures
            final(condvar).wf(),
            final(condvar).is_split(),
            final(condvar).waiter_handles() == old(condvar).waiter_handles() - 1,
            final(condvar).notifier_handles() == old(condvar).notifier_handles(),
            final(condvar).keeps_links_but(*old(condvar), self.link_view()),
            !final(condvar).waiting().contains(self.link_view()),
            old(condvar).waiting().contains(self.link_view()) ==> final(condvar).waiting() == old(
                condvar,
            ).waiting().remove(old(condvar).waiting().index_of(self.link_view())),
            !old(condvar).waiting().contains(self.link_view()) ==> final(condvar).waiting() == old(
                condvar,
            ).waiting(),
            final(condvar).wakes() == old(condvar).wakes(),
            final(condvar).woken() == old(condvar).woken(),
    {
        let l = self.node.link();
        condvar.unlink_waiter(l);
        condvar.recycle_waiter_link(l);
        condvar.drop_waiter_handle(self.condvar);
    }
}

/// Where a wait until a condition holds stands after one round.
pub enum WaitUntil<T> {
    /// The condition holds; the mutex is locked.
    Satisfied(MutexGuard<T>),
    /// The condition did not hold; the wait goes on.
    Waiting(Wait<T>),
}

/// Where an ongoing `CondvarWaiter::wait` is.
enum WaitStage<T> {
    Waiting(WaitFuture),
    Locking(LockFuture<T>),
    Finished,
}

/// An ongoing `CondvarWaiter::wait`: first the notification is awaited, then the mutex
/// is locked again.
pub struct Wait<T> {
    mref: Option<MutexRef<T>>,
    stage: WaitStage<T>,
}

impl<T> Wait<T> {
    /// The wait still awaits its notification.
    pub closed spec fn is_waiting(&self) -> bool {
        self.stage is Waiting
    }

    /// The wait is over.
    pub closed spec fn is_finished(&self) -> bool {
        self.stage is Finished
    }

    /// The link the wait's lock future waits with on the mutex, once it has waited.
    pub closed spec fn lock_link(&self) -> Option<usize> {
        match self.stage {
            WaitStage::Locking(lf) => lf.link_view(),
            _ => None,
        }
    }

    /// The link of the wait future, while the wait awaits its notification.
    pub closed spec fn wait_link(&self) -> usize {
        match self.stage {
            WaitStage::Waiting(f) => f.link_view(),
            _ => 0,
        }
    }

    /// The wait may be polled on `condvar` and `mutex`.
    pub closed spec fn can_poll(&self, condvar: Condvar, mutex: Mutex<T>) -> bool {
        &&& condvar.wf()
        &&& condvar.is_split()
        &&& mutex.wf()
        &&& self.mref is Some
        &&& match self.stage {
            WaitStage::Waiting(f) => f.can_poll(condvar) && condvar.waiter_handles() > 0 && mutex.refs() > 0
                && mutex.refs() + 2 < u32::MAX,
            WaitStage::Locking(lf) => lf.can_poll(mutex) && mutex.refs() > 1 && mutex.refs() + 1 < u32::MAX,
            WaitStage::Finished => false,
        }
    }

    /// Advances the wait: once notified it locks the mutex again, and it is ready with
    /// the new guard once the mutex is locked; it is ready with an error when no
    /// notification can come. The handles it holds are given back when it is ready.
    pub fn poll(&mut self, condvar: &mut Condvar, mutex: &mut Mutex<T>, waker: &core::task::Waker) -> (r: Poll<
        Result<MutexGuard<T>, WaitError>,
    >)
        requires
            old(self).can_poll(*old(condvar), *old(mutex)),
        ensures
            final(condvar).wf(),
            final(mutex).wf(),
            final(condvar).is_split(),
            old(self).is_waiting() ==> final(condvar).keeps_links_but(*old(condvar), old(self).wait_link()),
            !old(self).is_waiting() ==> final(condvar).keeps_links(*old(condvar)),
            final(mutex).keeps_links(*old(mutex)),
            final(mutex).value() == old(mutex).value(),
            r is Pending ==> final(self).can_poll(*final(condvar), *final(mutex)) && !final(self).is_finished(),
            r is Ready ==> final(self).is_finished(),
            (r matches Poll::Ready(Ok(_))) ==> final(mutex).is_locked(),
            (r matches Poll::Ready(Err(_))) ==> old(self).is_waiting() && !old(condvar).is_notified(
                old(self).wait_link(),
            ) && old(condvar).notifier_handles() == 0,
            old(self).is_waiting() && old(condvar).is_notified(old(self).wait_link()) && !old(mutex).is_locked()
                ==> (r matches Poll::Ready(Ok(_))),
            old(self).is_waiting() && !old(condvar).is_notified(old(self).wait_link())
                && old(condvar).notifier_handles() > 0 ==> r is Pending && final(self).is_waiting(),
            old(self).is_waiting() && old(condvar).is_notified(old(self).wait_link()) && old(mutex).is_locked()
                ==> r is Pending && (final(self).lock_link() matches Some(l) && final(mutex).waiting().contains(l)),
            !old(self).is_waiting() && !old(mutex).is_locked() ==> (r matches Poll::Ready(Ok(_))),
            !old(self).is_waiting() && old(mutex).is_locked() ==> r is Pending && (final(self).lock_link() matches Some(
                l,
            ) && final(mutex).waiting().contains(l)),
    {
        let mut stage = WaitStage::Finished;
        core::mem::swap(&mut stage, &mut self.stage);
        let stage = match stage {
            WaitStage::Waiting(mut f) => {
                match f.poll(condvar, waker) {
                    Poll::Ready(Ok(())) => {
                        f.release(condvar);
                        let lf = match &self.mref {
                            Some(m) => m.lock(mutex),
                            None => {
                                proof {
                                    assert(false);
                                }
                                return Poll::Pending;
                            },
                        };
                        WaitStage::Locking(lf)
                    },
                    Poll::Ready(Err(e)) => {
                        f.release(condvar);
                        match self.mref.take() {
                            Some(m) => m.release(mutex),
                            None => {},
                        }
                        return Poll::Ready(Err(e));
                    },
                    Poll::Pending => {
                        self.stage = WaitStage::Waiting(f);
                        return Poll::Pending;
                    },
                }
            },
            other => other,
        };
        match stage {
            WaitStage::Locking(mut lf) => {
                let ghost m0 = *mutex;
                match lf.poll(mutex, waker) {
                    Poll::Ready(g) => {
                        lf.release(mutex);
                        match self.mref.take() {
                            Some(m) => m.release(mutex),
                            None => {},
                        }
                        Poll::Ready(Ok(g))
                    },
                    Poll::Pending => {
                        proof {
                            let l = lf.link_view().unwrap();
                            if !m0.waiting().contains(l) {
                                assert(mutex.waiting()[m0.waiting().len() as int] == l);
                            }
                        }
                        self.stage = WaitStage::Locking(lf);
                        Poll::Pending
                    },
                }
            },
            _ => {
                proof {
                    assert(false);
                }
                Poll::Pending
            },
        }
    }
}

/// Notifying one waiter wakes the waiter that waited longest: when `c0` has a waiter and
/// a notification leads to `c1`, that waiter is notified and the waker it held is the one
/// woken.
pub proof fn law_notify_one_wakes_first(c0: Condvar, c1: Condvar)
    requires
        c0.waiting().len() > 0,
        c1.after_notify_one(c0),
    ensures
        c1.is_notified(c0.waiting()[0]),
        c1.woken().len() == c0.woken().len() + 1,
        c1.woken().last() == c0.waiter_waker(c0.waiting()[0]),
        c1.waiting() == c0.waiting().drop_first(),
{
}

/// Notifying all wakes every waiter: when the waiter of link `l` waits in `c0` and a
/// notification of all leads to `c1`, that waiter is notified and the waker it held is
/// among those woken.
pub proof fn law_notify_all_wakes_waiter(c0: Condvar, c1: Condvar, l: usize)
    requires
        c0.waiting().contains(l),
        c1.woken() == c0.woken() + c0.wakers_of(c0.waiting()),
    ensures
        c1.woken().skip(c0.woken().len() as int).contains(c0.waiter_waker(l)),
{
    let m = c0.woken().len() as int;
    let ws = c0.wakers_of(c0.waiting());
    assert(c1.woken().skip(m) =~= ws);
    let i = choose|i: int| 0 <= i < c0.waiting().len() && c0.waiting()[i] == l;
    assert(ws[i] == c0.waiter_waker(l));
}

} // verus!
