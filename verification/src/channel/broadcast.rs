//! A broadcast channel: every value published reaches each subscriber that waits at that
//! moment.
//!
//! `Broadcast` holds the list of waiting subscribe futures and the counts of sender and
//! subscriber handles; `Sender` and `Subscriber` are tokens that are handed the broadcast
//! they act on. A waiting future gets the published value, or an error once every sender
//! is gone, in a slot of its own.
use vstd::prelude::*;
use crate::intrusive::double_list::{Links, List, Node};
use crate::intrusive::rc::{RcAnchor, RcRef};
use crate::task::{Poll, WakeLog, wake_by_ref, clone_waker};

verus! {

/// Error of a receive: every sender is gone.
#[derive(PartialEq, Eq, Debug)]
pub struct ReceiveError;

/// Error of a publish: every subscriber is gone.
#[derive(PartialEq, Eq, Debug)]
pub struct SendError;

/// A subscribe future's record: the waker to call and the slot the value is delivered to.
pub struct WaitingReceiver<T> {
    waker: Option<core::task::Waker>,
    value: Option<Result<T, ReceiveError>>,
}

impl<T> WaitingReceiver<T> {
    /// What was delivered, if anything.
    pub closed spec fn slot(&self) -> Option<Result<T, ReceiveError>> {
        self.value
    }

    /// The record holds a waker.
    pub closed spec fn has_waker(&self) -> bool {
        self.waker is Some
    }
}

/// A record is there, and holds a waker.
pub open spec fn armed<T>(o: Option<WaitingReceiver<T>>) -> bool {
    o matches Some(w) && w.has_waker()
}

/// A broadcast channel of values of type `T`.
#[verifier::reject_recursive_types(T)]
pub struct Broadcast<T> {
    tx_rx_rc: Option<(RcAnchor<()>, RcAnchor<()>)>,
    links: Links<WaitingReceiver<T>>,
    subscribers: List<WaitingReceiver<T>>,
    wakes: WakeLog,
}

impl<T> Broadcast<T> {
    /// The broadcast's invariant: each waiting subscriber left its waker.
    pub closed spec fn wf(&self) -> bool {
        &&& self.links.wf()
        &&& self.subscribers.wf_in(self.links)
        &&& forall|g: usize| #[trigger] self.links.has_list(g) ==> Some(g) == self.subscribers.head_view()
        &&& forall|k: int| 0 <= k < self.waiting().len() ==> armed(#[trigger] self.links.owner_at(self.waiting()[k]))
    }

    /// The wakers of subscribe futures woken, oldest first (one for each of `wakes`).
    pub closed spec fn woken(&self) -> Seq<core::task::Waker> {
        self.wakes.wakers()
    }

    /// The waker that the subscribe future of link `l` left, while it waits.
    pub closed spec fn sub_waker(&self, l: usize) -> core::task::Waker {
        self.links.owner_at(l).unwrap().waker.unwrap()
    }

    /// The wakers that the subscribe futures of links `ls` left, in order.
    pub open spec fn wakers_of(&self, ls: Seq<usize>) -> Seq<core::task::Waker> {
        ls.map_values(|l: usize| self.sub_waker(l))
    }

    /// The wakes made of subscribe futures, each recorded by the future's link, oldest
    /// first.
    pub closed spec fn wakes(&self) -> Seq<usize> {
        self.wakes.ids()
    }

    /// The broadcast has been split into a sender and a subscriber.
    pub closed spec fn is_split(&self) -> bool {
        self.tx_rx_rc is Some
    }

    /// Number of sender handles alive.
    pub closed spec fn senders(&self) -> u32 {
        self.tx_rx_rc.unwrap().0.count()
    }

    /// Number of subscriber handles alive (subscribers and subscribe futures).
    pub closed spec fn receivers(&self) -> u32 {
        self.tx_rx_rc.unwrap().1.count()
    }

    /// Number of sender handles alive.
    pub fn sender_ref_count(&self) -> (r: u32)
        requires
            self.is_split(),
        ensures
            r == self.senders(),
    {
        match &self.tx_rx_rc {
            Some(pair) => pair.0.ref_count(),
            None => 0,
        }
    }

    /// Number of subscriber handles alive.
    pub fn receiver_ref_count(&self) -> (r: u32)
        requires
            self.is_split(),
        ensures
            r == self.receivers(),
    {
        match &self.tx_rx_rc {
            Some(pair) => pair.1.ref_count(),
            None => 0,
        }
    }

    /// The links of the subscribe futures that wait for a value, first come first.
    pub closed spec fn waiting(&self) -> Seq<usize> {
        self.subscribers.view_in(self.links)
    }

    /// `l` is the link of a subscribe future of this broadcast.
    pub closed spec fn is_sub_link(&self, l: usize) -> bool {
        &&& l < self.links.len()
        &&& !self.links.is_sentinel(l)
        &&& self.links.owner_at(l) is Some
    }

    /// The arena of the subscribers' links.
    pub closed spec fn arena(&self) -> Links<WaitingReceiver<T>> {
        self.links
    }

    /// What was delivered to the subscribe future of link `l`, if anything.
    pub closed spec fn slot_of(&self, l: usize) -> Option<Result<T, ReceiveError>> {
        match self.links.owner_at(l) {
            Some(w) => w.slot(),
            None => None,
        }
    }

    /// Something was delivered to the subscribe future of link `l`.
    pub open spec fn has_value(&self, l: usize) -> bool {
        self.is_sub_link(l) && self.slot_of(l) is Some
    }

    /// The links that subscribe futures of `old` hold stay usable.
    pub open spec fn keeps_links(&self, old: Self) -> bool {
        forall|l: usize| #[trigger] old.is_sub_link(l) ==> self.is_sub_link(l)
    }

    /// The links that subscribe futures of `old` hold, but `gone`, stay usable.
    pub open spec fn keeps_links_but(&self, old: Self, gone: usize) -> bool {
        forall|l: usize| #[trigger] old.is_sub_link(l) && l != gone ==> self.is_sub_link(l)
    }

    /// Gives the link `l` of a subscribe future that is gone back for reuse, once it is
    /// in no list.
    fn recycle_sub_link(&mut self, l: usize)
        requires
            old(self).wf(),
            l < old(self).links.len(),
        ensures
            final(self).wf(),
            final(self).tx_rx_rc == old(self).tx_rx_rc,
            final(self).keeps_links_but(*old(self), l),
            final(self).waiting() == old(self).waiting(),
            final(self).wakes() == old(self).wakes(),
            final(self).woken() == old(self).woken(),
    {
        let ghost links0 = self.links;
        proof {
            if self.subscribers.head_view() is Some {
                links0.lemma_members(self.subscribers.head_view().unwrap());
            }
        }
        self.links.recycle(l);
        proof {
            assert forall|k: int| 0 <= k < self.waiting().len() implies armed(#[trigger] self.links.owner_at(self.waiting()[k])) by {
                let x = self.waiting()[k];
                links0.lemma_standing(x);
                if links0.is_detached(l) {
                    assert(x != l);
                }
                assert(self.links.owner_at(x) == links0.owner_at(x));
            }
            assert forall|i: usize| #[trigger] old(self).is_sub_link(i) && i != l implies self.is_sub_link(i) by {
                assert(self.links.owner_at(i) == links0.owner_at(i));
            }
        }
    }

    /// The counts of handles are those of `old`.
    pub open spec fn same_handles(&self, old: Self) -> bool {
        &&& self.is_split() == old.is_split()
        &&& self.is_split() ==> self.senders() == old.senders() && self.receivers() == old.receivers()
    }

    /// A broadcast with no subscriber, not yet split.
    pub fn new() -> (r: Self)
        ensures
            r.wf(),
            !r.is_split(),
            r.waiting() == Seq::<usize>::empty(),
    {
        Broadcast { tx_rx_rc: None, links: Links::new(), subscribers: List::new(), wakes: WakeLog::new() }
    }

    /// Hands out the first sender and the first subscriber. A broadcast is split once:
    /// later calls return `None`.
    pub fn split(&mut self) -> (r: Option<(Sender<T>, Subscriber<T>)>)
        requires
            old(self).wf(),
        ensures
            final(self).wf(),
            final(self).is_split(),
            final(self).waiting() == old(self).waiting(),
            final(self).keeps_links(*old(self)),
            old(self).is_split() ==> r is None && final(self).same_handles(*old(self)),
            !old(self).is_split() ==> r is Some && final(self).senders() == 1 && final(self).receivers() == 1,
    {
        if self.tx_rx_rc.is_some() {
            None
        } else {
            let mut tx = RcAnchor::new(());
            let mut rx = RcAnchor::new(());
            let t = tx.get_ref();
            let r = rx.get_ref();
            self.tx_rx_rc = Some((tx, rx));
            Some((
                Sender { channel: t, marker: core::marker::PhantomData },
                Subscriber { channel: r, marker: core::marker::PhantomData },
            ))
        }
    }

    /// Puts `v` in the slot of the subscriber of link `l`, which is out of the list, and
    /// wakes its task.
    fn deliver(&mut self, l: usize, v: Result<T, ReceiveError>)
        requires
            old(self).links.wf(),
            l < old(self).links.len(),
        ensures
            final(self).links.wf(),
            final(self).tx_rx_rc == old(self).tx_rx_rc,
            final(self).subscribers == old(self).subscribers,
            old(self).links.owner_at(l) is Some ==> final(self).slot_of(l) == Some(v),
            final(self).links.owner_at(l) is Some == old(self).links.owner_at(l) is Some,
            final(self).links.len() == old(self).links.len(),
            forall|j: usize| j != l && j < old(self).links.len() ==> #[trigger] final(self).links.owner_at(j)
                == old(self).links.owner_at(j),
            forall|g: usize| #[trigger] final(self).links.has_list(g) == old(self).links.has_list(g),
            forall|g: usize| #[trigger] final(self).links.members(g) == old(self).links.members(g),
            forall|j: usize| #[trigger] final(self).links.is_sentinel(j) == old(self).links.is_sentinel(j),
            final(self).wakes() == (if armed(old(self).links.owner_at(l)) {
                old(self).wakes().push(l)
            } else {
                old(self).wakes()
            }),
            final(self).woken() == (if armed(old(self).links.owner_at(l)) {
                old(self).woken().push(old(self).sub_waker(l))
            } else {
                old(self).woken()
            }),
    {
        let owner = self.links.replace_owner(l, None);
        match owner {
            Some(mut w) => {
                w.value = Some(v);
                match &w.waker {
                    Some(k) => {
                        let woken = wake_by_ref(k);
                        self.wakes.record(woken, Ghost(l));
                    },
                    None => {},
                }
                self.links.replace_owner(l, Some(w));
            },
            None => {},
        }
    }

    /// Delivers `v` to the subscriber that has waited longest, if any, and takes it out
    /// of the list.
    fn deliver_one(&mut self, v: Result<T, ReceiveError>)
        requires
            old(self).wf(),
        ensures
            final(self).wf(),
            final(self).tx_rx_rc == old(self).tx_rx_rc,
            final(self).keeps_links(*old(self)),
            old(self).waiting().len() == 0 ==> final(self).waiting() == old(self).waiting() && final(self).wakes()
                == old(self).wakes() && final(self).woken() == old(self).woken(),
            old(self).waiting().len() > 0 ==> final(self).woken() == old(self).woken().push(
                old(self).sub_waker(old(self).waiting()[0]),
            ),
            forall|l: usize|
                l < old(self).links.len() && (old(self).waiting().len() == 0 || l != old(self).waiting()[0])
                    ==> #[trigger] final(self).sub_waker(l) == old(self).sub_waker(l),
            old(self).waiting().len() > 0 ==> {
                &&& final(self).waiting() == old(self).waiting().drop_first()
                &&& final(self).slot_of(old(self).waiting()[0]) == Some(v)
                &&& final(self).wakes() == old(self).wakes().push(old(self).waiting()[0])
            },
            forall|l: usize|
                l < old(self).links.len() && (old(self).waiting().len() == 0 || l != old(self).waiting()[0])
                    ==> #[trigger] final(self).slot_of(l) == old(self).slot_of(l),
            final(self).links.len() >= old(self).links.len(),
    {
        let ghost links0 = self.links;
        let popped = self.subscribers.pop_front(&mut self.links);
        match popped {
            Some(l) => {
                proof {
                    self.links.lemma_standing(l);
                    links0.lemma_members(self.subscribers.head_view().unwrap());
                    assert(armed(links0.owner_at(l))) by {
                        assert(old(self).waiting()[0] == l);
                        assert(armed(links0.owner_at(old(self).waiting()[0])));
                    }
                }
                let ghost links1 = self.links;
                self.deliver(l, v);
                proof {
                    let w0 = old(self).waiting();
                    assert forall|k: int| 0 <= k < self.waiting().len() implies armed(#[trigger] self.links.owner_at(self.waiting()[k])) by {
                        assert(self.waiting()[k] == w0[k + 1]);
                        assert(w0[k + 1] != w0[0]);
                        assert(links1.owner_at(w0[k + 1]) == links0.owner_at(w0[k + 1]));
                        assert(armed(old(self).links.owner_at(w0[k + 1])));
                    }
                    assert forall|i: usize| #[trigger] old(self).is_sub_link(i) implies self.is_sub_link(i) by {
                        if i != l {
                            assert(links1.owner_at(i) == links0.owner_at(i));
                        }
                    }
                    assert forall|i: usize| i < links0.len() && i != w0[0] implies #[trigger] self.slot_of(i)
                        == old(self).slot_of(i) by {
                        assert(links1.owner_at(i) == links0.owner_at(i));
                    }
                }
            },
            None => {
                proof {
                    assert forall|i: usize| #[trigger] old(self).is_sub_link(i) implies self.is_sub_link(i) by {
                        assert(self.links.owner_at(i) == links0.owner_at(i));
                    }
                    assert forall|i: usize| i < links0.len() implies #[trigger] self.slot_of(i) == old(self).slot_of(i) by {
                        assert(self.links.owner_at(i) == links0.owner_at(i));
                    }
                }
            },
        }
    }

    /// Delivers a receive error to every waiting subscriber, oldest first, and empties
    /// the list: no value will come.
    fn close_senders(&mut self)
        requires
            old(self).wf(),
        ensures
            final(self).wf(),
            final(self).tx_rx_rc == old(self).tx_rx_rc,
            final(self).keeps_links(*old(self)),
            final(self).waiting() == Seq::<usize>::empty(),
            forall|k: int| 0 <= k < old(self).waiting().len() ==> #[trigger] final(self).slot_of(old(self).waiting()[k])
                == Some(Err::<T, ReceiveError>(ReceiveError)),
            forall|l: usize| l < old(self).links.len() && !old(self).waiting().contains(l) ==> #[trigger] final(self).slot_of(l)
                == old(self).slot_of(l),
            final(self).wakes() == old(self).wakes() + old(self).waiting(),
            final(self).woken() == old(self).woken() + old(self).wakers_of(old(self).waiting()),
    {
        let ghost w0 = self.waiting();
        let ghost links0 = self.links;
        let ghost mut k: int = 0;
        proof {
            if self.subscribers.head_view() is Some {
                links0.lemma_members(self.subscribers.head_view().unwrap());
            }
            assert(w0.skip(0) =~= w0);
            assert(self.wakes() =~= old(self).wakes() + w0.take(0));
            assert(self.woken() =~= old(self).woken() + old(self).wakers_of(w0.take(0)));
        }
        loop
            invariant
                self.wf(),
                self.tx_rx_rc == old(self).tx_rx_rc,
                0 <= k <= w0.len(),
                w0 == old(self).waiting(),
                links0 == old(self).links,
                w0.no_duplicates(),
                forall|j: int| 0 <= j < w0.len() ==> #[trigger] w0[j] < links0.len(),
                self.links.len() >= links0.len(),
                self.waiting() == w0.skip(k),
                forall|j: int| 0 <= j < k ==> #[trigger] self.slot_of(w0[j]) == Some(Err::<T, ReceiveError>(ReceiveError)),
                forall|l: usize| l < links0.len() && !w0.take(k).contains(l) ==> #[trigger] self.slot_of(l)
                    == old(self).slot_of(l),
                forall|l: usize| #[trigger] old(self).is_sub_link(l) ==> self.is_sub_link(l),
                self.wakes() == old(self).wakes() + w0.take(k),
                self.woken() == old(self).woken() + old(self).wakers_of(w0.take(k)),
                forall|j: int| k <= j < w0.len() ==> #[trigger] self.sub_waker(w0[j]) == old(self).sub_waker(w0[j]),
            ensures
                k == w0.len(),
            decreases w0.len() - k,
        {
            let ghost before = *self;
            if self.subscribers.is_empty(&self.links) {
                proof {
                    if k < w0.len() {
                        assert(w0.skip(k).len() > 0);
                    }
                }
                break;
            }
            self.deliver_one(Err(ReceiveError));
            proof {
                assert(before.waiting()[0] == w0[k]);
                assert(w0.take(k + 1) =~= w0.take(k).push(w0[k]));
                assert(old(self).wakers_of(w0.take(k + 1)) =~= old(self).wakers_of(w0.take(k)).push(
                    old(self).sub_waker(w0[k]),
                ));
                assert forall|j: int| k + 1 <= j < w0.len() implies #[trigger] self.sub_waker(w0[j]) == old(
                    self,
                ).sub_waker(w0[j]) by {
                    assert(w0[j] != w0[k]);
                    assert(before.sub_waker(w0[j]) == old(self).sub_waker(w0[j]));
                }
                assert(w0.skip(k).drop_first() =~= w0.skip(k + 1));
                assert forall|j: int| 0 <= j < k + 1 implies #[trigger] self.slot_of(w0[j]) == Some(
                    Err::<T, ReceiveError>(ReceiveError),
                ) by {
                    if j < k {
                        assert(w0[j] != w0[k]);
                        assert(before.slot_of(w0[j]) == Some(Err::<T, ReceiveError>(ReceiveError)));
                    }
                }
                assert forall|l: usize| l < links0.len() && !w0.take(k + 1).contains(l) implies #[trigger] self.slot_of(l)
                    == old(self).slot_of(l) by {
                    assert(w0.take(k + 1)[k] == w0[k]);
                    assert(l != w0[k]);
                    if w0.take(k).contains(l) {
                        let j = choose|j: int| 0 <= j < k && w0.take(k)[j] == l;
                        assert(w0.take(k + 1)[j] == l);
                    }
                    assert(before.slot_of(l) == old(self).slot_of(l));
                }
                assert forall|l: usize| #[trigger] old(self).is_sub_link(l) implies self.is_sub_link(l) by {
                    assert(before.is_sub_link(l));
                }
                k = k + 1;
            }
        }
        proof {
            assert(w0.take(k) =~= w0);
        }
    }

    /// Takes what was delivered to the subscriber of link `l`, if anything.
    fn take_slot(&mut self, l: usize) -> (r: Option<Result<T, ReceiveError>>)
        requires
            old(self).wf(),
            old(self).is_sub_link(l),
        ensures
            final(self).wf(),
            final(self).tx_rx_rc == old(self).tx_rx_rc,
            final(self).keeps_links(*old(self)),
            final(self).waiting() == old(self).waiting(),
            r == old(self).slot_of(l),
            final(self).slot_of(l) is None,
            forall|i: usize| i != l && i < old(self).links.len() ==> #[trigger] final(self).slot_of(i) == old(self).slot_of(i),
            final(self).wakes() == old(self).wakes(),
            final(self).woken() == old(self).woken(),
    {
        let ghost links0 = self.links;
        proof {
            if self.subscribers.head_view() is Some {
                links0.lemma_members(self.subscribers.head_view().unwrap());
            }
        }
        let owner = self.links.replace_owner(l, None);
        match owner {
            Some(mut w) => {
                let v = w.value.take();
                self.links.replace_owner(l, Some(w));
                proof {
                    assert(self.waiting() == old(self).waiting());
                    assert forall|i: usize| #[trigger] old(self).is_sub_link(i) implies self.is_sub_link(i) by {
                        if i != l {
                            assert(self.links.owner_at(i) == links0.owner_at(i));
                        }
                    }
                    assert forall|k: int| 0 <= k < self.waiting().len() implies armed(#[trigger] self.links.owner_at(self.waiting()[k])) by {
                        if self.waiting()[k] != l {
                            assert(self.links.owner_at(self.waiting()[k]) == links0.owner_at(self.waiting()[k]));
                        }
                    }
                    assert forall|i: usize| i != l && i < links0.len() implies #[trigger] self.slot_of(i)
                        == old(self).slot_of(i) by {
                        assert(self.links.owner_at(i) == links0.owner_at(i));
                    }
                }
                v
            },
            None => {
                proof {
                    assert(false);
                }
                None
            },
        }
    }

    /// A subscribe future's poll on link `l`: what was delivered, if anything; an error
    /// when nothing was and no sender is left; otherwise the future waits, woken through
    /// `waker`.
    fn poll_receive(&mut self, l: usize, waker: &core::task::Waker) -> (r: Poll<Result<T, ReceiveError>>)
        requires
            old(self).wf(),
            old(self).is_split(),
            old(self).is_sub_link(l),
        ensures
            final(self).wf(),
            final(self).tx_rx_rc == old(self).tx_rx_rc,
            final(self).keeps_links(*old(self)),
            old(self).has_value(l) ==> {
                &&& r == Poll::Ready(old(self).slot_of(l).unwrap())
                &&& final(self).slot_of(l) is None
                &&& final(self).waiting() == old(self).waiting()
            },
            !old(self).has_value(l) && old(self).senders() == 0 ==> {
                &&& r == Poll::Ready(Err::<T, ReceiveError>(ReceiveError))
                &&& final(self).waiting() == old(self).waiting()
            },
            !old(self).has_value(l) && old(self).senders() > 0 ==> {
                &&& r == Poll::<Result<T, ReceiveError>>::Pending
                &&& !final(self).has_value(l)
                &&& final(self).waiting() == (if old(self).waiting().contains(l) {
                    old(self).waiting()
                } else {
                    old(self).waiting().push(l)
                })
            },
            forall|i: usize| i != l && i < old(self).links.len() ==> #[trigger] final(self).slot_of(i) == old(self).slot_of(i),
            final(self).wakes() == old(self).wakes(),
            final(self).woken() == old(self).woken(),
    {
        let has = match self.links.owner(l) {
            Some(w) => w.value.is_some(),
            None => false,
        };
        if has {
            match self.take_slot(l) {
                Some(v) => Poll::Ready(v),
                None => {
                    proof {
                        assert(false);
                    }
                    Poll::Pending
                },
            }
        } else {
            let senders = match &self.tx_rx_rc {
                Some((tx, _)) => tx.ref_count(),
                None => 0,
            };
            if senders == 0 {
                Poll::Ready(Err(ReceiveError))
            } else {
                self.add_subscriber(l, waker);
                Poll::Pending
            }
        }
    }

    /// Counts one more sender handle.
    fn add_sender_handle(&mut self) -> (r: RcRef<()>)
        requires
            old(self).is_split(),
            old(self).senders() < u32::MAX,
        ensures
            final(self).is_split(),
            final(self).senders() == old(self).senders() + 1,
            final(self).receivers() == old(self).receivers(),
            final(self).links == old(self).links,
            final(self).subscribers == old(self).subscribers,
            final(self).wakes == old(self).wakes,
    {
        let pair = self.tx_rx_rc.take();
        match pair {
            Some((mut tx, rx)) => {
                let r = tx.get_ref();
                self.tx_rx_rc = Some((tx, rx));
                r
            },
            None => {
                proof {
                    assert(false);
                }
                RcRef::dangling()
            },
        }
    }

    /// Counts one more subscriber handle.
    fn add_receiver_handle(&mut self) -> (r: RcRef<()>)
        requires
            old(self).is_split(),
            old(self).receivers() < u32::MAX,
        ensures
            final(self).is_split(),
            final(self).receivers() == old(self).receivers() + 1,
            final(self).senders() == old(self).senders(),
            final(self).links == old(self).links,
            final(self).subscribers == old(self).subscribers,
            final(self).wakes == old(self).wakes,
    {
        let pair = self.tx_rx_rc.take();
        match pair {
            Some((tx, mut rx)) => {
                let r = rx.get_ref();
                self.tx_rx_rc = Some((tx, rx));
                r
            },
            None => {
                proof {
                    assert(false);
                }
                RcRef::dangling()
            },
        }
    }

    /// Takes a subscriber handle back.
    fn drop_receiver_handle(&mut self, handle: RcRef<()>)
        requires
            old(self).is_split(),
            old(self).receivers() > 0,
        ensures
            final(self).is_split(),
            final(self).receivers() == old(self).receivers() - 1,
            final(self).senders() == old(self).senders(),
            final(self).links == old(self).links,
            final(self).subscribers == old(self).subscribers,
            final(self).wakes == old(self).wakes,
    {
        let pair = self.tx_rx_rc.take();
        match pair {
            Some((tx, mut rx)) => {
                handle.release(&mut rx);
                self.tx_rx_rc = Some((tx, rx));
            },
            None => {
                proof {
                    assert(false);
                }
            },
        }
    }

    /// Takes a sender handle back. When it is the last one, every waiting subscriber gets
    /// a receive error, since no value will come.
    fn drop_sender_handle(&mut self, handle: RcRef<()>)
        requires
            old(self).wf(),
            old(self).is_split(),
            old(self).senders() > 0,
        ensures
            final(self).wf(),
            final(self).is_split(),
            final(self).senders() == old(self).senders() - 1,
            final(self).receivers() == old(self).receivers(),
            final(self).keeps_links(*old(self)),
            old(self).senders() == 1 ==> {
                &&& final(self).waiting() == Seq::<usize>::empty()
                &&& forall|k: int| 0 <= k < old(self).waiting().len() ==> #[trigger] final(self).slot_of(
                    old(self).waiting()[k],
                ) == Some(Err::<T, ReceiveError>(ReceiveError))
            },
            old(self).senders() > 1 ==> final(self).waiting() == old(self).waiting(),
            final(self).wakes() == (if old(self).senders() == 1 {
                old(self).wakes() + old(self).waiting()
            } else {
                old(self).wakes()
            }),
            final(self).woken() == (if old(self).senders() == 1 {
                old(self).woken() + old(self).wakers_of(old(self).waiting())
            } else {
                old(self).woken()
            }),
    {
        let last = match &self.tx_rx_rc {
            Some((tx, _)) => tx.ref_count() == 1,
            None => false,
        };
        if last {
            self.close_senders();
        }
        let ghost mid = *self;
        let pair = self.tx_rx_rc.take();
        match pair {
            Some((mut tx, rx)) => {
                handle.release(&mut tx);
                self.tx_rx_rc = Some((tx, rx));
            },
            None => {
                proof {
                    assert(false);
                }
            },
        }
        proof {
            assert forall|l: usize| #[trigger] old(self).is_sub_link(l) implies self.is_sub_link(l) by {
                assert(mid.is_sub_link(l));
            }
            if old(self).senders() == 1 {
                assert forall|k: int| 0 <= k < old(self).waiting().len() implies #[trigger] self.slot_of(
                    old(self).waiting()[k],
                ) == Some(Err::<T, ReceiveError>(ReceiveError)) by {
                    assert(mid.slot_of(old(self).waiting()[k]) == Some(Err::<T, ReceiveError>(ReceiveError)));
                }
            }
        }
    }

    /// Sets the waker of the subscriber of link `l` and puts it at the back of the list if
    /// it is not in it yet.
    fn add_subscriber(&mut self, l: usize, waker: &core::task::Waker)
        requires
            old(self).wf(),
            old(self).is_sub_link(l),
            !old(self).has_value(l),
        ensures
            final(self).wf(),
            final(self).tx_rx_rc == old(self).tx_rx_rc,
            final(self).keeps_links(*old(self)),
            !final(self).has_value(l),
            forall|i: usize| #[trigger] old(self).has_value(i) ==> final(self).has_value(i),
            final(self).waiting() == (if old(self).waiting().contains(l) {
                old(self).waiting()
            } else {
                old(self).waiting().push(l)
            }),
            forall|i: usize| i != l && i < old(self).links.len() ==> #[trigger] final(self).slot_of(i) == old(self).slot_of(i),
            final(self).wakes() == old(self).wakes(),
            final(self).woken() == old(self).woken(),
    {
        let ghost links0 = self.links;
        proof {
            if self.subscribers.head_view() is Some {
                links0.lemma_members(self.subscribers.head_view().unwrap());
            }
        }
        let owner = self.links.replace_owner(l, None);
        let ghost links1 = self.links;
        let w = match owner {
            Some(mut w) => {
                w.waker = Some(clone_waker(waker));
                w
            },
            None => {
                proof {
                    assert(false);
                }
                WaitingReceiver { waker: None, value: None }
            },
        };
        proof {
            assert(w.value is None);
            assert(self.subscribers.view_in(self.links) == self.subscribers.view_in(links0));
        }
        if self.links.is_linked(l) {
            self.links.replace_owner(l, Some(w));
            proof {
                self.lemma_waiting_is_member(links0, l);
                assert(self.subscribers.view_in(self.links) == self.subscribers.view_in(links0));
                assert forall|i: usize| #[trigger] old(self).is_sub_link(i) implies self.is_sub_link(i) by {
                    if i != l {
                        assert(self.links.owner_at(i) == links0.owner_at(i));
                    }
                }
                assert forall|i: usize| #[trigger] old(self).has_value(i) implies self.has_value(i) by {
                    assert(self.links.owner_at(i) == links0.owner_at(i));
                }
                assert forall|k: int| 0 <= k < self.waiting().len() implies armed(#[trigger] self.links.owner_at(self.waiting()[k])) by {
                    if self.waiting()[k] != l {
                        assert(self.links.owner_at(self.waiting()[k]) == links0.owner_at(self.waiting()[k]));
                    }
                }
            }
        } else {
            proof {
                self.lemma_waiting_is_member(links0, l);
                links1.lemma_standing(l);
            }
            let node_owner = w;
            self.subscribers.push_link_back(&mut self.links, node_owner, l);
            proof {
                self.links.lemma_standing(l);
                assert forall|i: usize| #[trigger] old(self).is_sub_link(i) implies self.is_sub_link(i) by {
                    if i != l {
                        assert(self.links.owner_at(i) == links0.owner_at(i));
                    }
                }
                assert forall|i: usize| #[trigger] old(self).has_value(i) implies self.has_value(i) by {
                    assert(self.links.owner_at(i) == links0.owner_at(i));
                }
                assert forall|k: int| 0 <= k < self.waiting().len() implies armed(#[trigger] self.links.owner_at(self.waiting()[k])) by {
                    if self.waiting()[k] != l {
                        assert(k < old(self).waiting().len());
                        assert(self.links.owner_at(self.waiting()[k]) == links0.owner_at(self.waiting()[k]));
                    }
                }
            }
        }
    }

    /// Takes the subscriber of link `l` out of the list, if it is in it.
    fn unlink_subscriber(&mut self, l: usize)
        requires
            old(self).wf(),
            old(self).is_sub_link(l),
        ensures
            final(self).wf(),
            final(self).tx_rx_rc == old(self).tx_rx_rc,
            final(self).keeps_links(*old(self)),
            forall|i: usize| #[trigger] old(self).has_value(i) ==> final(self).has_value(i),
            !final(self).waiting().contains(l),
            old(self).waiting().contains(l) ==> final(self).waiting() == old(self).waiting().remove(
                old(self).waiting().index_of(l),
            ),
            !old(self).waiting().contains(l) ==> final(self).waiting() == old(self).waiting(),
            final(self).wakes() == old(self).wakes(),
            final(self).woken() == old(self).woken(),
    {
        let ghost links0 = self.links;
        proof {
            self.lemma_waiting_is_member(links0, l);
            if links0.is_member(l) {
                links0.lemma_member_in_list(l);
            }
        }
        self.links.unlink(l);
        proof {
            self.links.lemma_standing(l);
            let h = self.subscribers.head_view();
            if h is Some {
                self.links.lemma_members(h.unwrap());
                links0.lemma_members(h.unwrap());
            }
            if self.waiting().contains(l) {
                let k = choose|k: int| 0 <= k < self.waiting().len() && self.waiting()[k] == l;
                assert(self.links.is_member(self.waiting()[k]));
            }
            assert forall|i: usize| #[trigger] old(self).is_sub_link(i) implies self.is_sub_link(i) by {
                assert(self.links.owner_at(i) == links0.owner_at(i));
                if i != l {
                    assert(self.links.owner_at(i) == links0.owner_at(i));
                }
            }
            assert forall|i: usize| #[trigger] old(self).has_value(i) implies self.has_value(i) by {
                assert(self.links.owner_at(i) == links0.owner_at(i));
            }
            let w0 = old(self).waiting();
            if w0.contains(l) {
                w0.remove_ensures(w0.index_of(l));
            }
            assert forall|k: int| 0 <= k < self.waiting().len() implies armed(#[trigger] self.links.owner_at(self.waiting()[k])) by {
                if w0.contains(l) {
                    let j = w0.index_of(l);
                    if k < j {
                        assert(self.waiting()[k] == w0[k]);
                    } else {
                        assert(self.waiting()[k] == w0[k + 1]);
                    }
                }
            }
        }
    }

    proof fn lemma_waiting_is_member(&self, links0: Links<WaitingReceiver<T>>, l: usize)
        requires
            links0.wf(),
            self.subscribers.wf_in(links0),
            forall|g: usize| #[trigger] links0.has_list(g) ==> Some(g) == self.subscribers.head_view(),
            l < links0.len(),
            !links0.is_sentinel(l),
        ensures
            links0.is_member(l) == self.subscribers.view_in(links0).contains(l),
    {
        if links0.is_member(l) {
            links0.lemma_member_in_list(l);
        }
        if self.subscribers.view_in(links0).contains(l) {
            let h = self.subscribers.head_view().unwrap();
            links0.lemma_members(h);
            let k = choose|k: int| 0 <= k < links0.members(h).len() && links0.members(h)[k] == l;
            assert(links0.is_member(links0.members(h)[k]));
        }
    }
}

/// `slot` holds a clone of `value`.
pub open spec fn holds_clone<T: Clone>(slot: Option<Result<T, ReceiveError>>, value: T) -> bool {
    slot matches Some(Ok(v)) && cloned(value, v)
}

impl<T: Clone> Broadcast<T> {
    /// Delivers a clone of `value` to every waiting subscriber, oldest first, and empties
    /// the list. With no subscriber handle left nothing is delivered and the publish
    /// fails.
    fn publish_value(&mut self, value: T) -> (r: Result<(), SendError>)
        requires
            old(self).wf(),
            old(self).is_split(),
        ensures
            final(self).wf(),
            final(self).same_handles(*old(self)),
            final(self).keeps_links(*old(self)),
            old(self).receivers() == 0 ==> r == Err::<(), SendError>(SendError) && *final(self) == *old(self),
            old(self).receivers() > 0 ==> {
                &&& r == Ok::<(), SendError>(())
                &&& final(self).waiting() == Seq::<usize>::empty()
                &&& forall|k: int| 0 <= k < old(self).waiting().len() ==> holds_clone(
                    #[trigger] final(self).slot_of(old(self).waiting()[k]),
                    value,
                )
                &&& forall|l: usize| l < old(self).links.len() && !old(self).waiting().contains(l) ==> #[trigger] final(self).slot_of(l)
                    == old(self).slot_of(l)
                &&& final(self).wakes() == old(self).wakes() + old(self).waiting()
                &&& final(self).woken() == old(self).woken() + old(self).wakers_of(old(self).waiting())
            },
    {
        let receivers = match &self.tx_rx_rc {
            Some((_, rx)) => rx.ref_count(),
            None => 0,
        };
        if receivers == 0 {
            return Err(SendError);
        }
        let ghost w0 = self.waiting();
        let ghost links0 = self.links;
        let ghost mut k: int = 0;
        proof {
            if self.subscribers.head_view() is Some {
                links0.lemma_members(self.subscribers.head_view().unwrap());
            }
            assert(w0.skip(0) =~= w0);
            assert(self.wakes() =~= old(self).wakes() + w0.take(0));
            assert(self.woken() =~= old(self).woken() + old(self).wakers_of(w0.take(0)));
        }
        loop
            invariant
                self.wf(),
                self.tx_rx_rc == old(self).tx_rx_rc,
                0 <= k <= w0.len(),
                w0 == old(self).waiting(),
                links0 == old(self).links,
                w0.no_duplicates(),
                forall|j: int| 0 <= j < w0.len() ==> #[trigger] w0[j] < links0.len(),
                self.links.len() >= links0.len(),
                self.waiting() == w0.skip(k),
                forall|j: int| 0 <= j < k ==> holds_clone(#[trigger] self.slot_of(w0[j]), value),
                forall|l: usize| l < links0.len() && !w0.take(k).contains(l) ==> #[trigger] self.slot_of(l)
                    == old(self).slot_of(l),
                forall|l: usize| #[trigger] old(self).is_sub_link(l) ==> self.is_sub_link(l),
                self.wakes() == old(self).wakes() + w0.take(k),
                self.woken() == old(self).woken() + old(self).wakers_of(w0.take(k)),
                forall|j: int| k <= j < w0.len() ==> #[trigger] self.sub_waker(w0[j]) == old(self).sub_waker(w0[j]),
            ensures
                k == w0.len(),
            decreases w0.len() - k,
        {
            let ghost before = *self;
            if self.subscribers.is_empty(&self.links) {
                proof {
                    if k < w0.len() {
                        assert(w0.skip(k).len() > 0);
                    }
                }
                break;
            }
            let v = value.clone();
            self.deliver_one(Ok(v));
            proof {
                assert(before.waiting()[0] == w0[k]);
                assert(w0.take(k + 1) =~= w0.take(k).push(w0[k]));
                assert(old(self).wakers_of(w0.take(k + 1)) =~= old(self).wakers_of(w0.take(k)).push(
                    old(self).sub_waker(w0[k]),
                ));
                assert forall|j: int| k + 1 <= j < w0.len() implies #[trigger] self.sub_waker(w0[j]) == old(
                    self,
                ).sub_waker(w0[j]) by {
                    assert(w0[j] != w0[k]);
                    assert(before.sub_waker(w0[j]) == old(self).sub_waker(w0[j]));
                }
                assert(w0.skip(k).drop_first() =~= w0.skip(k + 1));
                assert(cloned(value, v));
                assert forall|j: int| 0 <= j < k + 1 implies holds_clone(#[trigger] self.slot_of(w0[j]), value) by {
                    if j < k {
                        assert(w0[j] != w0[k]);
                        assert(self.slot_of(w0[j]) == before.slot_of(w0[j]));
                    }
                }
                assert forall|l: usize| l < links0.len() && !w0.take(k + 1).contains(l) implies #[trigger] self.slot_of(l)
                    == old(self).slot_of(l) by {
                    assert(w0.take(k + 1)[k] == w0[k]);
                    assert(l != w0[k]);
                    if w0.take(k).contains(l) {
                        let j = choose|j: int| 0 <= j < k && w0.take(k)[j] == l;
                        assert(w0.take(k + 1)[j] == l);
                    }
                    assert(before.slot_of(l) == old(self).slot_of(l));
                }
                assert forall|l: usize| #[trigger] old(self).is_sub_link(l) implies self.is_sub_link(l) by {
                    assert(before.is_sub_link(l));
                }
                k = k + 1;
            }
        }
        proof {
            assert(w0.take(k) =~= w0);
        }
        Ok(())
    }
}

/// The sending half of a broadcast.
pub struct Sender<T> {
    channel: RcRef<()>,
    marker: core::marker::PhantomData<T>,
}

/// The subscribing half of a broadcast.
pub struct Subscriber<T> {
    channel: RcRef<()>,
    marker: core::marker::PhantomData<T>,
}

impl<T: Clone> Sender<T> {
    /// Publishes `value` to every waiting subscriber; fails when no subscriber handle is
    /// left.
    pub fn publish(&self, b: &mut Broadcast<T>, value: T) -> (r: Result<(), SendError>)
        requires
            old(b).wf(),
            old(b).is_split(),
        ensures
            final(b).wf(),
            final(b).same_handles(*old(b)),
            final(b).keeps_links(*old(b)),
            old(b).receivers() == 0 ==> r == Err::<(), SendError>(SendError) && *final(b) == *old(b),
            old(b).receivers() > 0 ==> {
                &&& r == Ok::<(), SendError>(())
                &&& final(b).waiting() == Seq::<usize>::empty()
                &&& forall|k: int| 0 <= k < old(b).waiting().len() ==> holds_clone(
                    #[trigger] final(b).slot_of(old(b).waiting()[k]),
                    value,
                )
                &&& final(b).wakes() == old(b).wakes() + old(b).waiting()
                &&& final(b).woken() == old(b).woken() + old(b).wakers_of(old(b).waiting())
            },
    {
        b.publish_value(value)
    }
}

impl<T> Sender<T> {
    /// One more sender of the same broadcast.
    pub fn clone(&self, b: &mut Broadcast<T>) -> (r: Self)
        requires
            old(b).wf(),
            old(b).is_split(),
            old(b).senders() < u32::MAX,
        ensures
            final(b).wf(),
            final(b).is_split(),
            final(b).senders() == old(b).senders() + 1,
            final(b).receivers() == old(b).receivers(),
            final(b).waiting() == old(b).waiting(),
            final(b).keeps_links(*old(b)),
            final(b).wakes() == old(b).wakes(),
            final(b).woken() == old(b).woken(),
    {
        let handle = b.add_sender_handle();
        Sender { channel: handle, marker: core::marker::PhantomData }
    }

    /// Gives the sender back. When it was the last one, every waiting subscriber gets a
    /// receive error.
    pub fn release(self, b: &mut Broadcast<T>)
        requires
            old(b).wf(),
            old(b).is_split(),
            old(b).senders() > 0,
        ensures
            final(b).wf(),
            final(b).is_split(),
            final(b).senders() == old(b).senders() - 1,
            final(b).receivers() == old(b).receivers(),
            final(b).keeps_links(*old(b)),
            old(b).senders() == 1 ==> {
                &&& final(b).waiting() == Seq::<usize>::empty()
                &&& forall|k: int| 0 <= k < old(b).waiting().len() ==> #[trigger] final(b).slot_of(old(b).waiting()[k])
                    == Some(Err::<T, ReceiveError>(ReceiveError))
            },
            old(b).senders() > 1 ==> final(b).waiting() == old(b).waiting(),
            final(b).wakes() == (if old(b).senders() == 1 {
                old(b).wakes() + old(b).waiting()
            } else {
                old(b).wakes()
            }),
            final(b).woken() == (if old(b).senders() == 1 {
                old(b).woken() + old(b).wakers_of(old(b).waiting())
            } else {
                old(b).woken()
            }),
    {
        b.drop_sender_handle(self.channel);
    }
}

impl<T> Subscriber<T> {
    /// A future that receives the next value published. It holds a subscriber handle of
    /// its own.
    pub fn subscribe(&self, b: &mut Broadcast<T>) -> (r: SubscribeFuture<T>)
        requires
            old(b).wf(),
            old(b).is_split(),
            old(b).receivers() < u32::MAX,
        ensures
            final(b).wf(),
            final(b).is_split(),
            final(b).receivers() == old(b).receivers() + 1,
            final(b).senders() == old(b).senders(),
            final(b).waiting() == old(b).waiting(),
            final(b).keeps_links(*old(b)),
            final(b).wakes() == old(b).wakes(),
            final(b).woken() == old(b).woken(),
            r.can_poll(*final(b)),
            !final(b).has_value(r.link_view()),
            !old(b).waiting().contains(r.link_view()),
            r.link_view() == old(b).arena().len() || old(b).arena().free_view().contains(r.link_view()),
            !final(b).arena().free_view().contains(r.link_view()),
    {
        let handle = b.add_receiver_handle();
        let ghost links0 = b.links;
        let node = Node::new(&mut b.links, WaitingReceiver { waker: None, value: None });
        proof {
            b.links.lemma_standing(node.link_view());
            assert forall|i: usize| #[trigger] old(b).is_sub_link(i) implies b.is_sub_link(i) by {
                if i != node.link_view() {
                    assert(b.links.owner_at(i) == links0.owner_at(i));
                }
            }
            assert(b.subscribers.view_in(b.links) == b.subscribers.view_in(links0));
            assert forall|k: int| 0 <= k < b.waiting().len() implies armed(#[trigger] b.links.owner_at(b.waiting()[k])) by {
                links0.lemma_members(b.subscribers.head_view().unwrap());
                links0.lemma_standing(b.waiting()[k]);
                assert(b.waiting()[k] != node.link_view());
                assert(b.links.owner_at(b.waiting()[k]) == links0.owner_at(b.waiting()[k]));
            }
            if old(b).waiting().contains(node.link_view()) {
                links0.lemma_members(b.subscribers.head_view().unwrap());
            }
        }
        SubscribeFuture { node, channel: handle }
    }

    /// One more subscriber of the same broadcast.
    pub fn clone(&self, b: &mut Broadcast<T>) -> (r: Self)
        requires
            old(b).wf(),
            old(b).is_split(),
            old(b).receivers() < u32::MAX,
        ensures
            final(b).wf(),
            final(b).is_split(),
            final(b).receivers() == old(b).receivers() + 1,
            final(b).senders() == old(b).senders(),
            final(b).waiting() == old(b).waiting(),
            final(b).keeps_links(*old(b)),
            final(b).wakes() == old(b).wakes(),
            final(b).woken() == old(b).woken(),
    {
        let handle = b.add_receiver_handle();
        Subscriber { channel: handle, marker: core::marker::PhantomData }
    }

    /// Gives the subscriber back.
    pub fn release(self, b: &mut Broadcast<T>)
        requires
            old(b).wf(),
            old(b).is_split(),
            old(b).receivers() > 0,
        ensures
            final(b).wf(),
            final(b).is_split(),
            final(b).receivers() == old(b).receivers() - 1,
            final(b).senders() == old(b).senders(),
            final(b).waiting() == old(b).waiting(),
            final(b).keeps_links(*old(b)),
            final(b).wakes() == old(b).wakes(),
            final(b).woken() == old(b).woken(),
    {
        b.drop_receiver_handle(self.channel);
    }
}

/// The future of `Subscriber::subscribe`.
pub struct SubscribeFuture<T> {
    node: Node<WaitingReceiver<T>>,
    channel: RcRef<()>,
}

impl<T> SubscribeFuture<T> {
    /// The link of the future's record.
    pub closed spec fn link_view(&self) -> usize {
        self.node.link_view()
    }

    /// The future may be polled on `b`.
    pub open spec fn can_poll(&self, b: Broadcast<T>) -> bool {
        &&& b.wf()
        &&& b.is_split()
        &&& b.is_sub_link(self.link_view())
    }

    /// Ready with what was delivered; ready with an error when nothing was and no sender
    /// is left; otherwise the future waits for the next value, woken through `waker`.
    pub fn poll(&mut self, b: &mut Broadcast<T>, waker: &core::task::Waker) -> (r: Poll<Result<T, ReceiveError>>)
        requires
            old(self).can_poll(*old(b)),
        ensures
            final(self).link_view() == old(self).link_view(),
            final(self).can_poll(*final(b)),
            final(b).same_handles(*old(b)),
            final(b).keeps_links(*old(b)),
            final(b).wakes() == old(b).wakes(),
            final(b).woken() == old(b).woken(),
            old(b).has_value(old(self).link_view()) ==> {
                &&& r == Poll::Ready(old(b).slot_of(old(self).link_view()).unwrap())
                &&& final(b).waiting() == old(b).waiting()
            },
            !old(b).has_value(old(self).link_view()) && old(b).senders() == 0 ==> {
                &&& r == Poll::Ready(Err::<T, ReceiveError>(ReceiveError))
                &&& final(b).waiting() == old(b).waiting()
            },
            !old(b).has_value(old(self).link_view()) && old(b).senders() > 0 ==> {
                &&& r == Poll::<Result<T, ReceiveError>>::Pending
                &&& final(b).waiting() == (if old(b).waiting().contains(old(self).link_view()) {
                    old(b).waiting()
                } else {
                    old(b).waiting().push(old(self).link_view())
                })
            },
    {
        b.poll_receive(self.node.link(), waker)
    }

    /// Takes the future's record out of the list, and gives back the subscriber handle the
    /// future holds.
    pub fn release(self, b: &mut Broadcast<T>)
        requires
            self.can_poll(*old(b)),
            old(b).receivers() > 0,
        ensures
            final(b).wf(),
            final(b).is_split(),
            final(b).receivers() == old(b).receivers() - 1,
            final(b).senders() == old(b).senders(),
            final(b).keeps_links_but(*old(b), self.link_view()),
            final(b).waiting() == crate::intrusive::double_list::without(old(b).waiting(), self.link_view()),
            final(b).wakes() == old(b).wakes(),
            final(b).woken() == old(b).woken(),
    {
        let l = self.node.link();
        b.unlink_subscriber(l);
        b.recycle_sub_link(l);
        b.drop_receiver_handle(self.channel);
    }
}

/// Publishing wakes every subscribe future that waits: when link `l` waits in `b0` and a
/// publish with a subscriber left leads to `b1`, the waker that future left is among those
/// woken, recorded under `l`.
pub proof fn law_publish_wakes_subscriber<T>(b0: Broadcast<T>, b1: Broadcast<T>, l: usize)
    requires
        b0.waiting().contains(l),
        b1.wakes() == b0.wakes() + b0.waiting(),
        b1.woken() == b0.woken() + b0.wakers_of(b0.waiting()),
    ensures
        b1.wakes().skip(b0.wakes().len() as int).contains(l),
        b1.woken().skip(b0.woken().len() as int).contains(b0.sub_waker(l)),
{
    let n = b0.wakes().len() as int;
    assert(b1.wakes().skip(n) =~= b0.waiting());
    let m = b0.woken().len() as int;
    let ws = b0.wakers_of(b0.waiting());
    assert(b1.woken().skip(m) =~= ws);
    let i = choose|i: int| 0 <= i < b0.waiting().len() && b0.waiting()[i] == l;
    assert(ws[i] == b0.sub_waker(l));
}

} // verus!
