//! A bounded channel between tasks of one thread.
//!
//! A `Channel` owns its buffer, the lists of waiting senders and receivers, and the
//! counts of sender and receiver handles. `Sender` and `Receiver` are tokens that are
//! handed the channel they act on; giving the last sender back closes the channel for
//! receivers once it is drained, and giving the last receiver back closes it for senders.
mod queue;
pub mod broadcast;

use vstd::prelude::*;
use crate::intrusive::double_list::{
    Links, List, all_owned, lists_ok, lemma_member_waits, lemma_pop_keeps, lemma_view_in, unlink_waiting, without,
};
use crate::intrusive::rc::{RcAnchor, RcRef};
use crate::task::{Poll, WakeLog, wake_by_ref, clone_waker};
use self::queue::Buffer;

verus! {

/// Error returned when trying to receive data from the channel.
#[derive(PartialEq, Eq, Debug)]
pub enum TryRecvError {
    /// No data is available, but there are senders that can send values in the future.
    Empty,
    /// No data is available and all senders have been dropped, so no value will come.
    Closed,
}

/// Error of a receive future: the channel is empty and every sender is gone.
#[derive(Debug)]
pub struct RecvError;

/// Error returned when trying to send; it hands the value back.
#[derive(PartialEq, Eq, Debug)]
pub enum TrySendError<T> {
    /// The buffer is full.
    Full(T),
    /// Every receiver is gone.
    Closed(T),
}

/// Error of a send future: every receiver is gone. It hands the value back.
#[derive(Debug)]
pub struct SendError<T>(pub T);

/// A receive future waiting for a value.
pub struct WaitingReceiver {
    waker: core::task::Waker,
}

/// A send future waiting for room.
pub struct WaitingSender {
    waker: core::task::Waker,
}

/// A bounded channel holding at most `N` values.
#[verifier::reject_recursive_types(T)]
pub struct Channel<T, const N: usize> {
    queue: Buffer<T, N>,
    receiver_links: Links<WaitingReceiver>,
    waiting_receivers: List<WaitingReceiver>,
    notified_receivers: List<WaitingReceiver>,
    sender_links: Links<WaitingSender>,
    waiting_senders: List<WaitingSender>,
    notified_senders: List<WaitingSender>,
    tx_rx_rc: Option<(RcAnchor<()>, RcAnchor<()>)>,
    receiver_wakes: WakeLog,
    sender_wakes: WakeLog,
}

impl<T, const N: usize> Channel<T, N> {
    /// The channel's invariant: each waiting future left its waker.
    pub closed spec fn wf(&self) -> bool {
        &&& self.queue.wf()
        &&& lists_ok(self.receiver_links, self.waiting_receivers, self.notified_receivers)
        &&& lists_ok(self.sender_links, self.waiting_senders, self.notified_senders)
        &&& all_owned(self.receiver_links, self.waiting_receivers)
        &&& all_owned(self.sender_links, self.waiting_senders)
    }

    /// The wakes made of receive futures, each recorded by the link it waits with,
    /// oldest first.
    pub closed spec fn receiver_wakes(&self) -> Seq<usize> {
        self.receiver_wakes.ids()
    }

    /// The wakes made of send futures, each recorded by the link it waits with, oldest
    /// first.
    pub closed spec fn sender_wakes(&self) -> Seq<usize> {
        self.sender_wakes.ids()
    }

    /// The waker that the receive future of link `l` left, while it waits.
    pub closed spec fn receiver_waker(&self, l: usize) -> core::task::Waker {
        self.receiver_links.owner_at(l).unwrap().waker
    }

    /// The waker that the send future of link `l` left, while it waits.
    pub closed spec fn sender_waker(&self, l: usize) -> core::task::Waker {
        self.sender_links.owner_at(l).unwrap().waker
    }

    /// The wakers of receive futures woken, oldest first (one for each of
    /// `receiver_wakes`).
    pub closed spec fn woken_receivers(&self) -> Seq<core::task::Waker> {
        self.receiver_wakes.wakers()
    }

    /// The wakers of send futures woken, oldest first (one for each of `sender_wakes`).
    pub closed spec fn woken_senders(&self) -> Seq<core::task::Waker> {
        self.sender_wakes.wakers()
    }

    /// The wakers that the receive futures of links `ls` left, in order.
    pub open spec fn receiver_wakers_of(&self, ls: Seq<usize>) -> Seq<core::task::Waker> {
        ls.map_values(|l: usize| self.receiver_waker(l))
    }

    /// The wakers that the send futures of links `ls` left, in order.
    pub open spec fn sender_wakers_of(&self, ls: Seq<usize>) -> Seq<core::task::Waker> {
        ls.map_values(|l: usize| self.sender_waker(l))
    }

    /// No future was woken since `old`.
    pub open spec fn no_wakes(&self, old: Self) -> bool {
        &&& self.receiver_wakes() == old.receiver_wakes()
        &&& self.sender_wakes() == old.sender_wakes()
        &&& self.woken_receivers() == old.woken_receivers()
        &&& self.woken_senders() == old.woken_senders()
    }

    /// The buffered values, oldest first.
    pub closed spec fn items(&self) -> Seq<T> {
        self.queue.view()
    }

    /// The channel has been split into a sender and a receiver.
    pub closed spec fn is_split(&self) -> bool {
        self.tx_rx_rc is Some
    }

    /// Number of sender handles alive.
    pub closed spec fn senders(&self) -> u32 {
        self.tx_rx_rc.unwrap().0.count()
    }

    /// Number of receiver handles alive.
    pub closed spec fn receivers(&self) -> u32 {
        self.tx_rx_rc.unwrap().1.count()
    }

    /// The links of the receive futures that wait for a value, first come first.
    pub closed spec fn waiting_receivers(&self) -> Seq<usize> {
        self.waiting_receivers.view_in(self.receiver_links)
    }

    /// The links of the send futures that wait for room, first come first.
    pub closed spec fn waiting_senders(&self) -> Seq<usize> {
        self.waiting_senders.view_in(self.sender_links)
    }

    /// `l` can serve as the link of a receive future.
    pub closed spec fn is_receiver_link(&self, l: usize) -> bool {
        l < self.receiver_links.len() && !self.receiver_links.is_sentinel(l)
    }

    /// `l` can serve as the link of a send future.
    pub closed spec fn is_sender_link(&self, l: usize) -> bool {
        l < self.sender_links.len() && !self.sender_links.is_sentinel(l)
    }

    /// The links that futures of `old` hold stay usable.
    pub open spec fn keeps_links(&self, old: Self) -> bool {
        &&& forall|l: usize| #[trigger] old.is_receiver_link(l) ==> self.is_receiver_link(l)
        &&& forall|l: usize| #[trigger] old.is_sender_link(l) ==> self.is_sender_link(l)
    }

    /// Everything but the buffer and the waiting lists is as in `old`.
    pub open spec fn same_handles(&self, old: Self) -> bool {
        &&& self.is_split() == old.is_split()
        &&& self.is_split() ==> self.senders() == old.senders() && self.receivers() == old.receivers()
    }

    /// Maximum number of buffered values.
    pub open spec fn capacity() -> int {
        N as int
    }

    /// `self` is `old` with `v` added behind the values it held; the receive futures
    /// that waited were woken, in order, and wait no more.
    pub open spec fn after_send(&self, old: Self, v: T) -> bool {
        &&& self.items() == old.items().push(v)
        &&& self.waiting_receivers() == Seq::<usize>::empty()
        &&& self.receiver_wakes() == old.receiver_wakes() + old.waiting_receivers()
        &&& self.woken_receivers() == old.woken_receivers() + old.receiver_wakers_of(old.waiting_receivers())
    }

    /// `self` is `old` with its oldest value, `v`, taken out; the send futures that
    /// waited were woken, in order, and wait no more.
    pub open spec fn after_receive(&self, old: Self, v: T) -> bool {
        &&& old.items().len() > 0
        &&& v == old.items()[0]
        &&& self.items() == old.items().drop_first()
        &&& self.waiting_senders() == Seq::<usize>::empty()
        &&& self.sender_wakes() == old.sender_wakes() + old.waiting_senders()
        &&& self.woken_senders() == old.woken_senders() + old.sender_wakers_of(old.waiting_senders())
    }

    /// Number of receiver handles alive.
    pub fn receiver_ref_count(&self) -> (r: u32)
        requires
            self.is_split(),
        ensures
            r == self.receivers(),
    {
        match &self.tx_rx_rc {
            Some((_, rx)) => rx.ref_count(),
            None => 0,
        }
    }

    /// Number of sender handles alive.
    pub fn sender_ref_count(&self) -> (r: u32)
        requires
            self.is_split(),
        ensures
            r == self.senders(),
    {
        match &self.tx_rx_rc {
            Some((tx, _)) => tx.ref_count(),
            None => 0,
        }
    }

    /// An empty channel, not yet split. `N` must not be 0.
    pub fn new() -> (r: Self)
        requires
            N > 0,
        ensures
            r.wf(),
            r.items() == Seq::<T>::empty(),
            !r.is_split(),
            r.waiting_receivers() == Seq::<usize>::empty(),
            r.waiting_senders() == Seq::<usize>::empty(),
    {
        Channel {
            queue: Buffer::new(),
            receiver_links: Links::new(),
            waiting_receivers: List::new(),
            notified_receivers: List::new(),
            sender_links: Links::new(),
            waiting_senders: List::new(),
            notified_senders: List::new(),
            tx_rx_rc: None,
            receiver_wakes: WakeLog::new(),
            sender_wakes: WakeLog::new(),
        }
    }

    /// Hands out the first sender and the first receiver. A channel is split once:
    /// later calls return `None`.
    pub fn split(&mut self) -> (r: Option<(Sender<T>, Receiver<T>)>)
        requires
            old(self).wf(),
        ensures
            final(self).wf(),
            final(self).items() == old(self).items(),
            final(self).waiting_receivers() == old(self).waiting_receivers(),
            final(self).waiting_senders() == old(self).waiting_senders(),
            final(self).keeps_links(*old(self)),
            final(self).no_wakes(*old(self)),
            final(self).is_split(),
            old(self).is_split() ==> r is None && final(self).same_handles(*old(self)),
            !old(self).is_split() ==> r is Some && final(self).senders() == 1 && final(self).receivers() == 1,
    {
        if self.tx_rx_rc.is_some() {
            None
        } else {
            let mut tx = RcAnchor::new(());
            let mut rx = RcAnchor::new(());
            let tx_ref = tx.get_ref();
            let rx_ref = rx.get_ref();
            self.tx_rx_rc = Some((tx, rx));
            Some((
                Sender { channel: tx_ref, marker: core::marker::PhantomData },
                Receiver { channel: rx_ref, marker: core::marker::PhantomData },
            ))
        }
    }

    /// Wakes every waiting receive future and empties the list of them.
    fn notify_waiting_receivers(&mut self)
        requires
            old(self).wf(),
        ensures
            final(self).wf(),
            final(self).items() == old(self).items(),
            final(self).tx_rx_rc == old(self).tx_rx_rc,
            final(self).waiting_receivers() == Seq::<usize>::empty(),
            final(self).waiting_senders() == old(self).waiting_senders(),
            final(self).keeps_links(*old(self)),
            final(self).receiver_wakes() == old(self).receiver_wakes() + old(self).waiting_receivers(),
            final(self).woken_receivers() == old(self).woken_receivers() + old(self).receiver_wakers_of(old(self).waiting_receivers()),
            final(self).woken_senders() == old(self).woken_senders(),
            final(self).sender_wakes() == old(self).sender_wakes(),
            final(self).woken_senders() == old(self).woken_senders(),
    {
        let ghost links0 = self.receiver_links;
        proof {
            lemma_view_in(links0, self.waiting_receivers);
        }
        self.waiting_receivers.move_to_front_of(&mut self.receiver_links, &mut self.notified_receivers);
        proof {
            assert forall|l: usize| old(self).is_receiver_link(l) implies #[trigger] self.is_receiver_link(l) by {
                assert(self.receiver_links.owner_at(l) == links0.owner_at(l));
            }
            let w0 = old(self).waiting_receivers();
            assert(self.notified_receivers.view_in(self.receiver_links) =~= w0);
            assert forall|k: int| 0 <= k < self.notified_receivers.view_in(self.receiver_links).len() implies (
            #[trigger] self.receiver_links.owner_at(self.notified_receivers.view_in(self.receiver_links)[k])) is Some by {
                assert(self.receiver_links.owner_at(w0[k]) == links0.owner_at(w0[k]));
            }
            assert(self.receiver_wakes() + self.notified_receivers.view_in(self.receiver_links) =~= old(self).receiver_wakes() + w0);
            assert forall|k: int| 0 <= k < w0.len() implies #[trigger] self.receiver_links.owner_at(w0[k]) == links0.owner_at(
                w0[k],
            ) by {}
            assert(self.woken_receivers() + old(self).receiver_wakers_of(self.notified_receivers.view_in(self.receiver_links))
                =~= old(self).woken_receivers() + old(self).receiver_wakers_of(w0));
        }
        loop
            invariant
                self.wf_notifying(),
                self.queue == old(self).queue,
                self.tx_rx_rc == old(self).tx_rx_rc,
                self.sender_links == old(self).sender_links,
                self.waiting_senders == old(self).waiting_senders,
                self.notified_senders == old(self).notified_senders,
                self.sender_wakes == old(self).sender_wakes,
                all_owned(self.sender_links, self.waiting_senders),
                self.waiting_receivers() == Seq::<usize>::empty(),
                forall|l: usize| #[trigger] old(self).is_receiver_link(l) ==> self.is_receiver_link(l),
                all_owned(self.receiver_links, self.notified_receivers),
                self.receiver_wakes() + self.notified_receivers.view_in(self.receiver_links) == old(self).receiver_wakes()
                    + old(self).waiting_receivers(),
                forall|k: int| 0 <= k < self.notified_receivers.view_in(self.receiver_links).len() ==> #[trigger] self.receiver_links.owner_at(
                    self.notified_receivers.view_in(self.receiver_links)[k],
                ) == old(self).receiver_links.owner_at(self.notified_receivers.view_in(self.receiver_links)[k]),
                self.woken_receivers() + old(self).receiver_wakers_of(self.notified_receivers.view_in(self.receiver_links))
                    == old(self).woken_receivers() + old(self).receiver_wakers_of(old(self).waiting_receivers()),
                self.sender_wakes == old(self).sender_wakes,
            ensures
                self.notified_receivers.view_in(self.receiver_links).len() == 0,
            decreases self.notified_receivers.view_in(self.receiver_links).len(),
        {
            let ghost links1 = self.receiver_links;
            let ghost n1 = self.notified_receivers.view_in(self.receiver_links);
            let ghost wakes1 = self.receiver_wakes();
            let ghost woken1 = self.woken_receivers();
            proof {
                links1.lemma_members(self.notified_receivers.head_view().unwrap());
            }
            let popped = self.notified_receivers.pop_front(&mut self.receiver_links);
            proof {
                lemma_pop_keeps(links1, self.receiver_links, self.notified_receivers.head_view().unwrap(), popped);
            }
            match popped {
                Some(r) => {
                    proof {
                        assert(r == n1[0]);
                        assert(links1.owner_at(n1[0]) is Some);
                        let n2 = self.notified_receivers.view_in(self.receiver_links);
                        assert forall|k: int| 0 <= k < n2.len() implies (#[trigger] self.receiver_links.owner_at(n2[k])) is Some by {
                            assert(n2[k] == n1[k + 1]);
                            assert(n1[k + 1] != n1[0]);
                            assert(self.receiver_links.owner_at(n1[k + 1]) == links1.owner_at(n1[k + 1]));
                        }
                        assert forall|k: int| 0 <= k < n2.len() implies #[trigger] self.receiver_links.owner_at(n2[k])
                            == old(self).receiver_links.owner_at(n2[k]) by {
                            assert(n2[k] == n1[k + 1]);
                            assert(n1[k + 1] != n1[0]);
                            assert(self.receiver_links.owner_at(n1[k + 1]) == links1.owner_at(n1[k + 1]));
                        }
                        assert(self.receiver_links.owner_at(r) == old(self).receiver_links.owner_at(r));
                    }
                    match self.receiver_links.owner(r) {
                        Some(w) => {
                            let woken = wake_by_ref(&w.waker);
                            self.receiver_wakes.record(woken, Ghost(r));
                        },
                        None => {
                            proof {
                                assert(false);
                            }
                        },
                    }
                    proof {
                        let n2 = self.notified_receivers.view_in(self.receiver_links);
                        assert(n1 =~= seq![r] + n2);
                        assert(self.receiver_wakes() + n2 =~= wakes1 + n1);
                        assert(old(self).receiver_wakers_of(n1) =~= seq![old(self).receiver_waker(r)] + old(self).receiver_wakers_of(n2));
                        assert(self.woken_receivers() =~= woken1.push(old(self).receiver_waker(r)));
                        assert(self.woken_receivers() + old(self).receiver_wakers_of(n2) =~= woken1 + old(self).receiver_wakers_of(n1));
                    }
                },
                None => {
                    break;
                },
            }
        }
        proof {
            assert(self.notified_receivers.view_in(self.receiver_links) =~= Seq::<usize>::empty());
            assert(old(self).receiver_wakers_of(self.notified_receivers.view_in(self.receiver_links)) =~= Seq::<core::task::Waker>::empty());
            assert(self.woken_receivers() =~= self.woken_receivers() + Seq::<core::task::Waker>::empty());
            assert(self.receiver_wakes() =~= self.receiver_wakes() + self.notified_receivers.view_in(self.receiver_links));
        }
    }

    /// Wakes every waiting send future and empties the list of them.
    fn notify_waiting_senders(&mut self)
        requires
            old(self).wf(),
        ensures
            final(self).wf(),
            final(self).items() == old(self).items(),
            final(self).tx_rx_rc == old(self).tx_rx_rc,
            final(self).waiting_senders() == Seq::<usize>::empty(),
            final(self).waiting_receivers() == old(self).waiting_receivers(),
            final(self).keeps_links(*old(self)),
            final(self).sender_wakes() == old(self).sender_wakes() + old(self).waiting_senders(),
            final(self).woken_senders() == old(self).woken_senders() + old(self).sender_wakers_of(old(self).waiting_senders()),
            final(self).woken_receivers() == old(self).woken_receivers(),
            final(self).receiver_wakes() == old(self).receiver_wakes(),
            final(self).woken_receivers() == old(self).woken_receivers(),
    {
        let ghost links0 = self.sender_links;
        proof {
            lemma_view_in(links0, self.waiting_senders);
        }
        self.waiting_senders.move_to_front_of(&mut self.sender_links, &mut self.notified_senders);
        proof {
            assert forall|l: usize| old(self).is_sender_link(l) implies #[trigger] self.is_sender_link(l) by {
                assert(self.sender_links.owner_at(l) == links0.owner_at(l));
            }
            let w0 = old(self).waiting_senders();
            assert(self.notified_senders.view_in(self.sender_links) =~= w0);
            assert forall|k: int| 0 <= k < self.notified_senders.view_in(self.sender_links).len() implies (
            #[trigger] self.sender_links.owner_at(self.notified_senders.view_in(self.sender_links)[k])) is Some by {
                assert(self.sender_links.owner_at(w0[k]) == links0.owner_at(w0[k]));
            }
            assert(self.sender_wakes() + self.notified_senders.view_in(self.sender_links) =~= old(self).sender_wakes() + w0);
            assert forall|k: int| 0 <= k < w0.len() implies #[trigger] self.sender_links.owner_at(w0[k]) == links0.owner_at(
                w0[k],
            ) by {}
            assert(self.woken_senders() + old(self).sender_wakers_of(self.notified_senders.view_in(self.sender_links))
                =~= old(self).woken_senders() + old(self).sender_wakers_of(w0));
        }
        loop
            invariant
                self.wf_notifying_senders(),
                self.queue == old(self).queue,
                self.tx_rx_rc == old(self).tx_rx_rc,
                self.receiver_links == old(self).receiver_links,
                self.waiting_receivers == old(self).waiting_receivers,
                self.notified_receivers == old(self).notified_receivers,
                self.receiver_wakes == old(self).receiver_wakes,
                all_owned(self.receiver_links, self.waiting_receivers),
                self.waiting_senders() == Seq::<usize>::empty(),
                forall|l: usize| #[trigger] old(self).is_sender_link(l) ==> self.is_sender_link(l),
                all_owned(self.sender_links, self.notified_senders),
                self.sender_wakes() + self.notified_senders.view_in(self.sender_links) == old(self).sender_wakes()
                    + old(self).waiting_senders(),
                forall|k: int| 0 <= k < self.notified_senders.view_in(self.sender_links).len() ==> #[trigger] self.sender_links.owner_at(
                    self.notified_senders.view_in(self.sender_links)[k],
                ) == old(self).sender_links.owner_at(self.notified_senders.view_in(self.sender_links)[k]),
                self.woken_senders() + old(self).sender_wakers_of(self.notified_senders.view_in(self.sender_links))
                    == old(self).woken_senders() + old(self).sender_wakers_of(old(self).waiting_senders()),
                self.receiver_wakes == old(self).receiver_wakes,
            ensures
                self.notified_senders.view_in(self.sender_links).len() == 0,
            decreases self.notified_senders.view_in(self.sender_links).len(),
        {
            let ghost links1 = self.sender_links;
            let ghost n1 = self.notified_senders.view_in(self.sender_links);
            let ghost wakes1 = self.sender_wakes();
            let ghost woken1 = self.woken_senders();
            proof {
                links1.lemma_members(self.notified_senders.head_view().unwrap());
            }
            let popped = self.notified_senders.pop_front(&mut self.sender_links);
            proof {
                lemma_pop_keeps(links1, self.sender_links, self.notified_senders.head_view().unwrap(), popped);
            }
            match popped {
                Some(r) => {
                    proof {
                        assert(r == n1[0]);
                        assert(links1.owner_at(n1[0]) is Some);
                        let n2 = self.notified_senders.view_in(self.sender_links);
                        assert forall|k: int| 0 <= k < n2.len() implies (#[trigger] self.sender_links.owner_at(n2[k])) is Some by {
                            assert(n2[k] == n1[k + 1]);
                            assert(n1[k + 1] != n1[0]);
                            assert(self.sender_links.owner_at(n1[k + 1]) == links1.owner_at(n1[k + 1]));
                        }
                        assert forall|k: int| 0 <= k < n2.len() implies #[trigger] self.sender_links.owner_at(n2[k])
                            == old(self).sender_links.owner_at(n2[k]) by {
                            assert(n2[k] == n1[k + 1]);
                            assert(n1[k + 1] != n1[0]);
                            assert(self.sender_links.owner_at(n1[k + 1]) == links1.owner_at(n1[k + 1]));
                        }
                        assert(self.sender_links.owner_at(r) == old(self).sender_links.owner_at(r));
                    }
                    match self.sender_links.owner(r) {
                        Some(w) => {
                            let woken = wake_by_ref(&w.waker);
                            self.sender_wakes.record(woken, Ghost(r));
                        },
                        None => {
                            proof {
                                assert(false);
                            }
                        },
                    }
                    proof {
                        let n2 = self.notified_senders.view_in(self.sender_links);
                        assert(n1 =~= seq![r] + n2);
                        assert(self.sender_wakes() + n2 =~= wakes1 + n1);
                        assert(old(self).sender_wakers_of(n1) =~= seq![old(self).sender_waker(r)] + old(self).sender_wakers_of(n2));
                        assert(self.woken_senders() =~= woken1.push(old(self).sender_waker(r)));
                        assert(self.woken_senders() + old(self).sender_wakers_of(n2) =~= woken1 + old(self).sender_wakers_of(n1));
                    }
                },
                None => {
                    break;
                },
            }
        }
        proof {
            assert(self.notified_senders.view_in(self.sender_links) =~= Seq::<usize>::empty());
            assert(old(self).sender_wakers_of(self.notified_senders.view_in(self.sender_links)) =~= Seq::<core::task::Waker>::empty());
            assert(self.woken_senders() =~= self.woken_senders() + Seq::<core::task::Waker>::empty());
            assert(self.sender_wakes() =~= self.sender_wakes() + self.notified_senders.view_in(self.sender_links));
        }
    }

    /// Buffers `value` if a receiver is left and there is room, and then wakes every
    /// waiting receive future.
    fn try_send(&mut self, value: T) -> (r: Result<(), TrySendError<T>>)
        requires
            old(self).wf(),
            old(self).is_split(),
        ensures
            final(self).wf(),
            final(self).keeps_links(*old(self)),
            final(self).tx_rx_rc == old(self).tx_rx_rc,
            final(self).waiting_senders() == old(self).waiting_senders(),
            final(self).sender_wakes() == old(self).sender_wakes(),
            final(self).woken_senders() == old(self).woken_senders(),
            old(self).receivers() == 0 ==> {
                &&& r == Err::<(), TrySendError<T>>(TrySendError::Closed(value))
                &&& final(self).items() == old(self).items()
                &&& final(self).waiting_receivers() == old(self).waiting_receivers()
                &&& final(self).receiver_wakes() == old(self).receiver_wakes()
                &&& final(self).woken_receivers() == old(self).woken_receivers()
            },
            old(self).receivers() > 0 && old(self).items().len() < Self::capacity() ==> {
                &&& r == Ok::<(), TrySendError<T>>(())
                &&& final(self).items() == old(self).items().push(value)
                &&& final(self).waiting_receivers() == Seq::<usize>::empty()
                &&& final(self).receiver_wakes() == old(self).receiver_wakes() + old(self).waiting_receivers()
                &&& final(self).woken_receivers() == old(self).woken_receivers() + old(self).receiver_wakers_of(old(self).waiting_receivers())
            },
            old(self).receivers() > 0 && old(self).items().len() >= Self::capacity() ==> {
                &&& r == Err::<(), TrySendError<T>>(TrySendError::Full(value))
                &&& final(self).items() == old(self).items()
                &&& final(self).waiting_receivers() == old(self).waiting_receivers()
                &&& final(self).receiver_wakes() == old(self).receiver_wakes()
                &&& final(self).woken_receivers() == old(self).woken_receivers()
            },
    {
        if self.receiver_ref_count() == 0 {
            Err(TrySendError::Closed(value))
        } else {
            match self.queue.enqueue(value) {
                Ok(_) => {
                    let ghost mid = *self;
                    self.notify_waiting_receivers();
                    proof {
                        assert forall|l: usize| #[trigger] old(self).is_receiver_link(l) implies self.is_receiver_link(l) by {
                            assert(mid.is_receiver_link(l));
                        }
                        assert forall|l: usize| #[trigger] old(self).is_sender_link(l) implies self.is_sender_link(l) by {
                            assert(mid.is_sender_link(l));
                        }
                    }
                    Ok(())
                },
                Err(v) => Err(TrySendError::Full(v)),
            }
        }
    }

    /// Takes the oldest value, and then wakes every waiting send future. Once every
    /// sender is gone, an empty channel is closed.
    fn try_recv(&mut self) -> (r: Result<T, TryRecvError>)
        requires
            old(self).wf(),
            old(self).is_split(),
        ensures
            final(self).wf(),
            final(self).keeps_links(*old(self)),
            final(self).tx_rx_rc == old(self).tx_rx_rc,
            final(self).waiting_receivers() == old(self).waiting_receivers(),
            old(self).items().len() == 0 ==> {
                &&& r == (if old(self).senders() == 0 {
                    Err::<T, TryRecvError>(TryRecvError::Closed)
                } else {
                    Err::<T, TryRecvError>(TryRecvError::Empty)
                })
                &&& final(self).items() == old(self).items()
                &&& final(self).waiting_senders() == old(self).waiting_senders()
                &&& final(self).sender_wakes() == old(self).sender_wakes()
                &&& final(self).woken_senders() == old(self).woken_senders()
            },
            old(self).items().len() > 0 ==> {
                &&& r == Ok::<T, TryRecvError>(old(self).items()[0])
                &&& final(self).items() == old(self).items().drop_first()
                &&& final(self).waiting_senders() == Seq::<usize>::empty()
                &&& final(self).sender_wakes() == old(self).sender_wakes() + old(self).waiting_senders()
                &&& final(self).woken_senders() == old(self).woken_senders() + old(self).sender_wakers_of(old(self).waiting_senders())
            },
            final(self).receiver_wakes() == old(self).receiver_wakes(),
            final(self).woken_receivers() == old(self).woken_receivers(),
    {
        if self.queue.is_empty() && self.sender_ref_count() == 0 {
            Err(TryRecvError::Closed)
        } else {
            match self.queue.dequeue() {
                Some(x) => {
                    let ghost mid = *self;
                    self.notify_waiting_senders();
                    proof {
                        assert forall|l: usize| #[trigger] old(self).is_receiver_link(l) implies self.is_receiver_link(l) by {
                            assert(mid.is_receiver_link(l));
                        }
                        assert forall|l: usize| #[trigger] old(self).is_sender_link(l) implies self.is_sender_link(l) by {
                            assert(mid.is_sender_link(l));
                        }
                    }
                    Ok(x)
                },
                None => Err(TryRecvError::Empty),
            }
        }
    }

    /// Takes the send future of link `l` out of the waiting senders.
    fn unlink_sender(&mut self, l: usize)
        requires
            old(self).wf(),
            old(self).is_sender_link(l),
        ensures
            final(self).wf(),
            final(self).keeps_links(*old(self)),
            final(self).items() == old(self).items(),
            final(self).tx_rx_rc == old(self).tx_rx_rc,
            final(self).waiting_receivers() == old(self).waiting_receivers(),
            final(self).waiting_senders() == without(old(self).waiting_senders(), l),
            final(self).no_wakes(*old(self)),
            final(self).receiver_links == old(self).receiver_links,
    {
        let ghost w0 = self.waiting_senders();
        let ghost links0 = self.sender_links;
        proof {
            lemma_view_in(links0, self.waiting_senders);
        }
        unlink_waiting(&mut self.sender_links, &self.waiting_senders, &self.notified_senders, l);
        proof {
            if w0.contains(l) {
                w0.remove_ensures(w0.index_of(l));
            }
            assert forall|k: int| 0 <= k < self.waiting_senders().len() implies (#[trigger] self.sender_links.owner_at(self.waiting_senders()[k])) is Some by {
                let j = if w0.contains(l) && k >= w0.index_of(l) { k + 1 } else { k };
                assert(self.waiting_senders()[k] == w0[j]);
                assert(self.sender_links.owner_at(w0[j]) == links0.owner_at(w0[j]));
            }
        }
    }

    /// Takes the receive future of link `l` out of the waiting receivers.
    fn unlink_receiver(&mut self, l: usize)
        requires
            old(self).wf(),
            old(self).is_receiver_link(l),
        ensures
            final(self).wf(),
            final(self).keeps_links(*old(self)),
            final(self).items() == old(self).items(),
            final(self).tx_rx_rc == old(self).tx_rx_rc,
            final(self).waiting_senders() == old(self).waiting_senders(),
            final(self).waiting_receivers() == without(old(self).waiting_receivers(), l),
            final(self).no_wakes(*old(self)),
            final(self).sender_links == old(self).sender_links,
    {
        let ghost w0 = self.waiting_receivers();
        let ghost links0 = self.receiver_links;
        proof {
            lemma_view_in(links0, self.waiting_receivers);
        }
        unlink_waiting(&mut self.receiver_links, &self.waiting_receivers, &self.notified_receivers, l);
        proof {
            if w0.contains(l) {
                w0.remove_ensures(w0.index_of(l));
            }
            assert forall|k: int| 0 <= k < self.waiting_receivers().len() implies (#[trigger] self.receiver_links.owner_at(self.waiting_receivers()[k])) is Some by {
                let j = if w0.contains(l) && k >= w0.index_of(l) { k + 1 } else { k };
                assert(self.waiting_receivers()[k] == w0[j]);
                assert(self.receiver_links.owner_at(w0[j]) == links0.owner_at(w0[j]));
            }
        }
    }


    /// Gives the link `l` of a send future that is gone back for reuse, once it is in no
    /// list.
    fn recycle_sender_link(&mut self, l: usize)
        requires
            old(self).wf(),
            old(self).is_sender_link(l),
        ensures
            final(self).wf(),
            final(self).keeps_links(*old(self)),
            final(self).items() == old(self).items(),
            final(self).tx_rx_rc == old(self).tx_rx_rc,
            final(self).waiting_receivers() == old(self).waiting_receivers(),
            final(self).waiting_senders() == old(self).waiting_senders(),
            final(self).no_wakes(*old(self)),
            final(self).receiver_links == old(self).receiver_links,
    {
        let ghost links0 = self.sender_links;
        proof {
            lemma_view_in(links0, self.waiting_senders);
        }
        self.sender_links.recycle(l);
        proof {
            assert forall|k: int| 0 <= k < self.waiting_senders().len() implies (#[trigger] self.sender_links.owner_at(
                self.waiting_senders()[k],
            )) is Some by {
                let x = self.waiting_senders()[k];
                links0.lemma_standing(x);
                if links0.is_detached(l) {
                    assert(x != l);
                }
                assert(self.sender_links.owner_at(x) == links0.owner_at(x));
            }
        }
    }

    /// Gives the link `l` of a receive future that is gone back for reuse, once it is in no
    /// list.
    fn recycle_receiver_link(&mut self, l: usize)
        requires
            old(self).wf(),
            old(self).is_receiver_link(l),
        ensures
            final(self).wf(),
            final(self).keeps_links(*old(self)),
            final(self).items() == old(self).items(),
            final(self).tx_rx_rc == old(self).tx_rx_rc,
            final(self).waiting_receivers() == old(self).waiting_receivers(),
            final(self).waiting_senders() == old(self).waiting_senders(),
            final(self).no_wakes(*old(self)),
            final(self).sender_links == old(self).sender_links,
    {
        let ghost links0 = self.receiver_links;
        proof {
            lemma_view_in(links0, self.waiting_receivers);
        }
        self.receiver_links.recycle(l);
        proof {
            assert forall|k: int| 0 <= k < self.waiting_receivers().len() implies (#[trigger] self.receiver_links.owner_at(
                self.waiting_receivers()[k],
            )) is Some by {
                let x = self.waiting_receivers()[k];
                links0.lemma_standing(x);
                if links0.is_detached(l) {
                    assert(x != l);
                }
                assert(self.receiver_links.owner_at(x) == links0.owner_at(x));
            }
        }
    }

    /// A new link for a send future.
    fn new_sender_link(&mut self) -> (l: usize)
        requires
            old(self).wf(),
        ensures
            final(self).wf(),
            final(self).is_sender_link(l),
            !final(self).waiting_senders().contains(l),
            final(self).keeps_links(*old(self)),
            final(self).items() == old(self).items(),
            final(self).tx_rx_rc == old(self).tx_rx_rc,
            final(self).waiting_receivers() == old(self).waiting_receivers(),
            final(self).waiting_senders() == old(self).waiting_senders(),
            final(self).no_wakes(*old(self)),
    {
        let ghost links0 = self.sender_links;
        proof {
            lemma_view_in(links0, self.waiting_senders);
        }
        let l = self.sender_links.add(crate::intrusive::double_list::Link::new());
        proof {
            assert forall|k: int| 0 <= k < self.waiting_senders().len() implies (#[trigger] self.sender_links.owner_at(self.waiting_senders()[k])) is Some by {
                let x = self.waiting_senders()[k];
                links0.lemma_standing(x);
                assert(x != l);
                assert(self.sender_links.owner_at(x) == links0.owner_at(x));
            }
            self.sender_links.lemma_standing(l);
            lemma_member_waits(self.sender_links, self.waiting_senders, self.notified_senders, l);
            assert forall|i: usize| old(self).is_sender_link(i) implies #[trigger] self.is_sender_link(i) by {
                if i != l {
                    assert(self.sender_links.owner_at(i) == links0.owner_at(i));
                }
            }
        }
        l
    }

    /// A new link for a receive future.
    fn new_receiver_link(&mut self) -> (l: usize)
        requires
            old(self).wf(),
        ensures
            final(self).wf(),
            final(self).is_receiver_link(l),
            !final(self).waiting_receivers().contains(l),
            final(self).keeps_links(*old(self)),
            final(self).items() == old(self).items(),
            final(self).tx_rx_rc == old(self).tx_rx_rc,
            final(self).waiting_receivers() == old(self).waiting_receivers(),
            final(self).waiting_senders() == old(self).waiting_senders(),
            final(self).no_wakes(*old(self)),
    {
        let ghost links0 = self.receiver_links;
        proof {
            lemma_view_in(links0, self.waiting_receivers);
        }
        let l = self.receiver_links.add(crate::intrusive::double_list::Link::new());
        proof {
            assert forall|k: int| 0 <= k < self.waiting_receivers().len() implies (#[trigger] self.receiver_links.owner_at(self.waiting_receivers()[k])) is Some by {
                let x = self.waiting_receivers()[k];
                links0.lemma_standing(x);
                assert(x != l);
                assert(self.receiver_links.owner_at(x) == links0.owner_at(x));
            }
            self.receiver_links.lemma_standing(l);
            lemma_member_waits(self.receiver_links, self.waiting_receivers, self.notified_receivers, l);
            assert forall|i: usize| old(self).is_receiver_link(i) implies #[trigger] self.is_receiver_link(i) by {
                if i != l {
                    assert(self.receiver_links.owner_at(i) == links0.owner_at(i));
                }
            }
        }
        l
    }

    /// Makes the send future of link `link` wait for room, woken through `waker`. A
    /// future already waiting keeps its place and takes the new waker.
    fn add_waiting_sender(&mut self, link: usize, waker: &core::task::Waker)
        requires
            old(self).wf(),
            old(self).is_sender_link(link),
        ensures
            final(self).wf(),
            final(self).keeps_links(*old(self)),
            final(self).items() == old(self).items(),
            final(self).tx_rx_rc == old(self).tx_rx_rc,
            final(self).waiting_receivers() == old(self).waiting_receivers(),
            final(self).waiting_senders() == (if old(self).waiting_senders().contains(link) {
                old(self).waiting_senders()
            } else {
                old(self).waiting_senders().push(link)
            }),
            final(self).no_wakes(*old(self)),
            cloned(*waker, final(self).sender_waker(link)),
    {
        let waiter = WaitingSender { waker: clone_waker(waker) };
        let ghost links0 = self.sender_links;
        let ghost w0 = self.waiting_senders();
        proof {
            lemma_member_waits(self.sender_links, self.waiting_senders, self.notified_senders, link);
            lemma_view_in(links0, self.waiting_senders);
        }
        if self.sender_links.is_linked(link) {
            self.sender_links.replace_owner(link, Some(waiter));
            proof {
                assert forall|k: int| 0 <= k < self.waiting_senders().len() implies (#[trigger] self.sender_links.owner_at(self.waiting_senders()[k])) is Some by {
                    assert(self.waiting_senders()[k] == w0[k]);
                    if w0[k] != link {
                        assert(self.sender_links.owner_at(w0[k]) == links0.owner_at(w0[k]));
                    }
                }
                assert forall|i: usize| old(self).is_sender_link(i) implies #[trigger] self.is_sender_link(i) by {
                    if i != link {
                        assert(self.sender_links.owner_at(i) == links0.owner_at(i));
                    }
                }
                assert(self.waiting_senders.view_in(self.sender_links) == self.waiting_senders.view_in(links0));
                assert(self.notified_senders.view_in(self.sender_links) == self.notified_senders.view_in(links0));
                assert(self.sender_links.wf());
                assert(self.waiting_senders.wf_in(self.sender_links));
                assert(self.notified_senders.wf_in(self.sender_links));
                assert(lists_ok(self.sender_links, self.waiting_senders, self.notified_senders));
            }
        } else {
            proof {
                links0.lemma_standing(link);
            }
            self.waiting_senders.push_link_back(&mut self.sender_links, waiter, link);
            proof {
                assert forall|k: int| 0 <= k < self.waiting_senders().len() implies (#[trigger] self.sender_links.owner_at(self.waiting_senders()[k])) is Some by {
                    if k < w0.len() {
                        assert(self.waiting_senders()[k] == w0[k]);
                        assert(w0[k] != link);
                        assert(self.sender_links.owner_at(w0[k]) == links0.owner_at(w0[k]));
                    }
                }
                self.sender_links.lemma_standing(link);
                assert forall|i: usize| old(self).is_sender_link(i) implies #[trigger] self.is_sender_link(i) by {
                    if i != link {
                        assert(self.sender_links.owner_at(i) == links0.owner_at(i));
                    }
                }
            }
        }
    }

    /// Makes the receive future of link `link` wait for a value, woken through `waker`.
    /// A future already waiting keeps its place and takes the new waker.
    fn add_waiting_receiver(&mut self, link: usize, waker: &core::task::Waker)
        requires
            old(self).wf(),
            old(self).is_receiver_link(link),
        ensures
            final(self).wf(),
            final(self).keeps_links(*old(self)),
            final(self).items() == old(self).items(),
            final(self).tx_rx_rc == old(self).tx_rx_rc,
            final(self).waiting_senders() == old(self).waiting_senders(),
            final(self).waiting_receivers() == (if old(self).waiting_receivers().contains(link) {
                old(self).waiting_receivers()
            } else {
                old(self).waiting_receivers().push(link)
            }),
            final(self).no_wakes(*old(self)),
            cloned(*waker, final(self).receiver_waker(link)),
    {
        let waiter = WaitingReceiver { waker: clone_waker(waker) };
        let ghost links0 = self.receiver_links;
        let ghost w0 = self.waiting_receivers();
        proof {
            lemma_member_waits(self.receiver_links, self.waiting_receivers, self.notified_receivers, link);
            lemma_view_in(links0, self.waiting_receivers);
        }
        if self.receiver_links.is_linked(link) {
            self.receiver_links.replace_owner(link, Some(waiter));
            proof {
                assert forall|k: int| 0 <= k < self.waiting_receivers().len() implies (#[trigger] self.receiver_links.owner_at(self.waiting_receivers()[k])) is Some by {
                    assert(self.waiting_receivers()[k] == w0[k]);
                    if w0[k] != link {
                        assert(self.receiver_links.owner_at(w0[k]) == links0.owner_at(w0[k]));
                    }
                }
                assert forall|i: usize| old(self).is_receiver_link(i) implies #[trigger] self.is_receiver_link(i) by {
                    if i != link {
                        assert(self.receiver_links.owner_at(i) == links0.owner_at(i));
                    }
                }
                assert(self.waiting_receivers.view_in(self.receiver_links) == self.waiting_receivers.view_in(links0));
                assert(self.notified_receivers.view_in(self.receiver_links) == self.notified_receivers.view_in(links0));
            }
        } else {
            proof {
                links0.lemma_standing(link);
            }
            self.waiting_receivers.push_link_back(&mut self.receiver_links, waiter, link);
            proof {
                assert forall|k: int| 0 <= k < self.waiting_receivers().len() implies (#[trigger] self.receiver_links.owner_at(self.waiting_receivers()[k])) is Some by {
                    if k < w0.len() {
                        assert(self.waiting_receivers()[k] == w0[k]);
                        assert(w0[k] != link);
                        assert(self.receiver_links.owner_at(w0[k]) == links0.owner_at(w0[k]));
                    }
                }
                self.receiver_links.lemma_standing(link);
                assert forall|i: usize| old(self).is_receiver_link(i) implies #[trigger] self.is_receiver_link(i) by {
                    if i != link {
                        assert(self.receiver_links.owner_at(i) == links0.owner_at(i));
                    }
                }
            }
        }
    }

    /// Number of buffered values.
    fn len(&self) -> (r: usize)
        requires
            self.wf(),
        ensures
            r == self.items().len(),
    {
        self.queue.len()
    }

    /// Counts one more sender handle.
    fn add_sender(&mut self) -> (r: RcRef<()>)
        requires
            old(self).wf(),
            old(self).is_split(),
            old(self).senders() < u32::MAX,
        ensures
            final(self).wf(),
            final(self).is_split(),
            final(self).senders() == old(self).senders() + 1,
            final(self).receivers() == old(self).receivers(),
            final(self).queue == old(self).queue,
            final(self).receiver_links == old(self).receiver_links,
            final(self).sender_links == old(self).sender_links,
            final(self).waiting_receivers == old(self).waiting_receivers,
            final(self).waiting_senders == old(self).waiting_senders,
            final(self).notified_receivers == old(self).notified_receivers,
            final(self).notified_senders == old(self).notified_senders,
            final(self).receiver_wakes == old(self).receiver_wakes,
            final(self).sender_wakes == old(self).sender_wakes,
    {
        let pair = self.tx_rx_rc.take();
        match pair {
            Some((mut tx, rx)) => {
                let r = tx.get_ref();
                self.tx_rx_rc = Some((tx, rx));
                r
            },
            None => {
                proof {
                    assert(false);
                }
                RcRef::dangling()
            },
        }
    }

    /// Counts one more receiver handle.
    fn add_receiver(&mut self) -> (r: RcRef<()>)
        requires
            old(self).wf(),
            old(self).is_split(),
            old(self).receivers() < u32::MAX,
        ensures
            final(self).wf(),
            final(self).is_split(),
            final(self).receivers() == old(self).receivers() + 1,
            final(self).senders() == old(self).senders(),
            final(self).queue == old(self).queue,
            final(self).receiver_links == old(self).receiver_links,
            final(self).sender_links == old(self).sender_links,
            final(self).waiting_receivers == old(self).waiting_receivers,
            final(self).waiting_senders == old(self).waiting_senders,
            final(self).notified_receivers == old(self).notified_receivers,
            final(self).notified_senders == old(self).notified_senders,
            final(self).receiver_wakes == old(self).receiver_wakes,
            final(self).sender_wakes == old(self).sender_wakes,
    {
        let pair = self.tx_rx_rc.take();
        match pair {
            Some((tx, mut rx)) => {
                let r = rx.get_ref();
                self.tx_rx_rc = Some((tx, rx));
                r
            },
            None => {
                proof {
                    assert(false);
                }
                RcRef::dangling()
            },
        }
    }

    /// Gives a sender handle back. The last one wakes every waiting receive future,
    /// so that it can see the channel closed.
    fn drop_sender(&mut self, handle: RcRef<()>)
        requires
            old(self).wf(),
            old(self).is_split(),
            old(self).senders() > 0,
        ensures
            final(self).wf(),
            final(self).is_split(),
            final(self).senders() == old(self).senders() - 1,
            final(self).receivers() == old(self).receivers(),
            final(self).items() == old(self).items(),
            final(self).keeps_links(*old(self)),
            final(self).waiting_senders() == old(self).waiting_senders(),
            final(self).waiting_receivers() == (if old(self).senders() == 1 {
                Seq::<usize>::empty()
            } else {
                old(self).waiting_receivers()
            }),
            final(self).receiver_wakes() == (if old(self).senders() == 1 {
                old(self).receiver_wakes() + old(self).waiting_receivers()
            } else {
                old(self).receiver_wakes()
            }),
            final(self).woken_receivers() == (if old(self).senders() == 1 {
                old(self).woken_receivers() + old(self).receiver_wakers_of(old(self).waiting_receivers())
            } else {
                old(self).woken_receivers()
            }),
            final(self).sender_wakes() == old(self).sender_wakes(),
            final(self).woken_senders() == old(self).woken_senders(),
    {
        if self.sender_ref_count() == 1 {
            self.notify_waiting_receivers();
        }
        let ghost mid = *self;
        let pair = self.tx_rx_rc.take();
        match pair {
            Some((mut tx, rx)) => {
                handle.release(&mut tx);
                self.tx_rx_rc = Some((tx, rx));
            },
            None => {
                proof {
                    assert(false);
                }
            },
        }
        proof {
            assert forall|l: usize| #[trigger] old(self).is_receiver_link(l) implies self.is_receiver_link(l) by {
                assert(mid.is_receiver_link(l));
            }
            assert forall|l: usize| #[trigger] old(self).is_sender_link(l) implies self.is_sender_link(l) by {
                assert(mid.is_sender_link(l));
            }
        }
    }

    /// Gives a receiver handle back. The last one wakes every waiting send future, so
    /// that it can see the channel closed.
    fn drop_receiver(&mut self, handle: RcRef<()>)
        requires
            old(self).wf(),
            old(self).is_split(),
            old(self).receivers() > 0,
        ensures
            final(self).wf(),
            final(self).is_split(),
            final(self).receivers() == old(self).receivers() - 1,
            final(self).senders() == old(self).senders(),
            final(self).items() == old(self).items(),
            final(self).keeps_links(*old(self)),
            final(self).waiting_receivers() == old(self).waiting_receivers(),
            final(self).waiting_senders() == (if old(self).receivers() == 1 {
                Seq::<usize>::empty()
            } else {
                old(self).waiting_senders()
            }),
            final(self).sender_wakes() == (if old(self).receivers() == 1 {
                old(self).sender_wakes() + old(self).waiting_senders()
            } else {
                old(self).sender_wakes()
            }),
            final(self).woken_senders() == (if old(self).receivers() == 1 {
                old(self).woken_senders() + old(self).sender_wakers_of(old(self).waiting_senders())
            } else {
                old(self).woken_senders()
            }),
            final(self).receiver_wakes() == old(self).receiver_wakes(),
            final(self).woken_receivers() == old(self).woken_receivers(),
    {
        if self.receiver_ref_count() == 1 {
            self.notify_waiting_senders();
        }
        let ghost mid = *self;
        let pair = self.tx_rx_rc.take();
        match pair {
            Some((tx, mut rx)) => {
                handle.release(&mut rx);
                self.tx_rx_rc = Some((tx, rx));
            },
            None => {
                proof {
                    assert(false);
                }
            },
        }
        proof {
            assert forall|l: usize| #[trigger] old(self).is_receiver_link(l) implies self.is_receiver_link(l) by {
                assert(mid.is_receiver_link(l));
            }
            assert forall|l: usize| #[trigger] old(self).is_sender_link(l) implies self.is_sender_link(l) by {
                assert(mid.is_sender_link(l));
            }
        }
    }

    spec fn wf_notifying(&self) -> bool {
        &&& self.queue.wf()
        &&& self.receiver_links.wf()
        &&& self.waiting_receivers.wf_in(self.receiver_links)
        &&& self.notified_receivers.wf_in(self.receiver_links)
        &&& self.waiting_receivers.head_view() is Some
        &&& self.notified_receivers.head_view() is Some
        &&& self.waiting_receivers.head_view() != self.notified_receivers.head_view()
        &&& forall|g: usize| #[trigger] self.receiver_links.has_list(g) ==> Some(g) == self.waiting_receivers.head_view()
            || Some(g) == self.notified_receivers.head_view()
        &&& lists_ok(self.sender_links, self.waiting_senders, self.notified_senders)
    }

    spec fn wf_notifying_senders(&self) -> bool {
        &&& self.queue.wf()
        &&& self.sender_links.wf()
        &&& self.waiting_senders.wf_in(self.sender_links)
        &&& self.notified_senders.wf_in(self.sender_links)
        &&& self.waiting_senders.head_view() is Some
        &&& self.notified_senders.head_view() is Some
        &&& self.waiting_senders.head_view() != self.notified_senders.head_view()
        &&& forall|g: usize| #[trigger] self.sender_links.has_list(g) ==> Some(g) == self.waiting_senders.head_view()
            || Some(g) == self.notified_senders.head_view()
        &&& lists_ok(self.receiver_links, self.waiting_receivers, self.notified_receivers)
    }
}

/// The sending half of a channel.
pub struct Sender<T> {
    channel: RcRef<()>,
    marker: core::marker::PhantomData<T>,
}

/// The receiving half of a channel.
pub struct Receiver<T> {
    channel: RcRef<()>,
    marker: core::marker::PhantomData<T>,
}

impl<T> Sender<T> {
    /// Sends `value` if a receiver is left and the buffer has room; on success every
    /// waiting receive future is woken.
    pub fn try_send<const N: usize>(&self, chan: &mut Channel<T, N>, value: T) -> (r: Result<(), TrySendError<T>>)
        requires
            old(chan).wf(),
            old(chan).is_split(),
        ensures
            final(chan).wf(),
            final(chan).keeps_links(*old(chan)),
            final(chan).same_handles(*old(chan)),
            final(chan).waiting_senders() == old(chan).waiting_senders(),
            final(chan).sender_wakes() == old(chan).sender_wakes(),
            final(chan).woken_senders() == old(chan).woken_senders(),
            old(chan).receivers() == 0 ==> {
                &&& r == Err::<(), TrySendError<T>>(TrySendError::Closed(value))
                &&& final(chan).items() == old(chan).items()
                &&& final(chan).waiting_receivers() == old(chan).waiting_receivers()
                &&& final(chan).receiver_wakes() == old(chan).receiver_wakes()
                &&& final(chan).woken_receivers() == old(chan).woken_receivers()
            },
            old(chan).receivers() > 0 && old(chan).items().len() < Channel::<T, N>::capacity() ==> {
                &&& r == Ok::<(), TrySendError<T>>(())
                &&& final(chan).items() == old(chan).items().push(value)
                &&& final(chan).waiting_receivers() == Seq::<usize>::empty()
                &&& final(chan).receiver_wakes() == old(chan).receiver_wakes() + old(chan).waiting_receivers()
                &&& final(chan).woken_receivers() == old(chan).woken_receivers() + old(chan).receiver_wakers_of(old(chan).waiting_receivers())
            },
            r is Ok ==> final(chan).after_send(*old(chan), value),
            old(chan).receivers() > 0 && old(chan).items().len() >= Channel::<T, N>::capacity() ==> {
                &&& r == Err::<(), TrySendError<T>>(TrySendError::Full(value))
                &&& final(chan).items() == old(chan).items()
                &&& final(chan).waiting_receivers() == old(chan).waiting_receivers()
                &&& final(chan).receiver_wakes() == old(chan).receiver_wakes()
                &&& final(chan).woken_receivers() == old(chan).woken_receivers()
            },
    {
        chan.try_send(value)
    }

    /// A future that sends `value`, waiting for room while the buffer is full. The
    /// future holds a sender handle of its own.
    pub fn send<const N: usize>(&self, chan: &mut Channel<T, N>, value: T) -> (r: SendFuture<T>)
        requires
            old(chan).wf(),
            old(chan).is_split(),
            old(chan).senders() < u32::MAX,
        ensures
            final(chan).wf(),
            final(chan).is_split(),
            final(chan).senders() == old(chan).senders() + 1,
            final(chan).receivers() == old(chan).receivers(),
            final(chan).items() == old(chan).items(),
            final(chan).keeps_links(*old(chan)),
            final(chan).waiting_receivers() == old(chan).waiting_receivers(),
            final(chan).waiting_senders() == old(chan).waiting_senders(),
            final(chan).no_wakes(*old(chan)),
            r.pending_value() == Some(value),
            r.link_view() is None,
    {
        let handle = chan.add_sender();
        SendFuture {
            value: Some(value),
            link: None,
            channel: Sender { channel: handle, marker: core::marker::PhantomData },
        }
    }

    /// Number of buffered values.
    pub fn len<const N: usize>(&self, chan: &Channel<T, N>) -> (r: usize)
        requires
            chan.wf(),
        ensures
            r == chan.items().len(),
    {
        chan.len()
    }

    /// One more sender of the same channel.
    pub fn clone<const N: usize>(&self, chan: &mut Channel<T, N>) -> (r: Self)
        requires
            old(chan).wf(),
            old(chan).is_split(),
            old(chan).senders() < u32::MAX,
        ensures
            final(chan).wf(),
            final(chan).is_split(),
            final(chan).senders() == old(chan).senders() + 1,
            final(chan).receivers() == old(chan).receivers(),
            final(chan).items() == old(chan).items(),
            final(chan).keeps_links(*old(chan)),
            final(chan).waiting_receivers() == old(chan).waiting_receivers(),
            final(chan).waiting_senders() == old(chan).waiting_senders(),
            final(chan).no_wakes(*old(chan)),
    {
        let handle = chan.add_sender();
        Sender { channel: handle, marker: core::marker::PhantomData }
    }

    /// Gives the sender back. When it was the last one, every waiting receive future is
    /// woken.
    pub fn release<const N: usize>(self, chan: &mut Channel<T, N>)
        requires
            old(chan).wf(),
            old(chan).is_split(),
            old(chan).senders() > 0,
        ensures
            final(chan).wf(),
            final(chan).is_split(),
            final(chan).senders() == old(chan).senders() - 1,
            final(chan).receivers() == old(chan).receivers(),
            final(chan).items() == old(chan).items(),
            final(chan).keeps_links(*old(chan)),
            final(chan).waiting_senders() == old(chan).waiting_senders(),
            final(chan).waiting_receivers() == (if old(chan).senders() == 1 {
                Seq::<usize>::empty()
            } else {
                old(chan).waiting_receivers()
            }),
            final(chan).receiver_wakes() == (if old(chan).senders() == 1 {
                old(chan).receiver_wakes() + old(chan).waiting_receivers()
            } else {
                old(chan).receiver_wakes()
            }),
            final(chan).woken_receivers() == (if old(chan).senders() == 1 {
                old(chan).woken_receivers() + old(chan).receiver_wakers_of(old(chan).waiting_receivers())
            } else {
                old(chan).woken_receivers()
            }),
            final(chan).sender_wakes() == old(chan).sender_wakes(),
            final(chan).woken_senders() == old(chan).woken_senders(),
    {
        chan.drop_sender(self.channel);
    }
}

impl<T> Receiver<T> {
    /// Receives the oldest buffered value; on success every waiting send future is
    /// woken. An empty channel with no sender left is closed.
    pub fn try_recv<const N: usize>(&self, chan: &mut Channel<T, N>) -> (r: Result<T, TryRecvError>)
        requires
            old(chan).wf(),
            old(chan).is_split(),
        ensures
            final(chan).wf(),
            final(chan).keeps_links(*old(chan)),
            final(chan).same_handles(*old(chan)),
            final(chan).waiting_receivers() == old(chan).waiting_receivers(),
            old(chan).items().len() == 0 ==> {
                &&& r == (if old(chan).senders() == 0 {
                    Err::<T, TryRecvError>(TryRecvError::Closed)
                } else {
                    Err::<T, TryRecvError>(TryRecvError::Empty)
                })
                &&& final(chan).items() == old(chan).items()
                &&& final(chan).waiting_senders() == old(chan).waiting_senders()
                &&& final(chan).sender_wakes() == old(chan).sender_wakes()
                &&& final(chan).woken_senders() == old(chan).woken_senders()
            },
            old(chan).items().len() > 0 ==> {
                &&& r == Ok::<T, TryRecvError>(old(chan).items()[0])
                &&& final(chan).items() == old(chan).items().drop_first()
                &&& final(chan).waiting_senders() == Seq::<usize>::empty()
                &&& final(chan).sender_wakes() == old(chan).sender_wakes() + old(chan).waiting_senders()
                &&& final(chan).woken_senders() == old(chan).woken_senders() + old(chan).sender_wakers_of(old(chan).waiting_senders())
            },
            final(chan).receiver_wakes() == old(chan).receiver_wakes(),
            final(chan).woken_receivers() == old(chan).woken_receivers(),
            r matches Ok(v) ==> final(chan).after_receive(*old(chan), v),
    {
        chan.try_recv()
    }

    /// A future that receives a value, waiting while the channel is empty. The future
    /// holds a receiver handle of its own.
    pub fn recv<const N: usize>(&self, chan: &mut Channel<T, N>) -> (r: ReceiveFuture<T>)
        requires
            old(chan).wf(),
            old(chan).is_split(),
            old(chan).receivers() < u32::MAX,
        ensures
            final(chan).wf(),
            final(chan).is_split(),
            final(chan).receivers() == old(chan).receivers() + 1,
            final(chan).senders() == old(chan).senders(),
            final(chan).items() == old(chan).items(),
            final(chan).keeps_links(*old(chan)),
            final(chan).waiting_receivers() == old(chan).waiting_receivers(),
            final(chan).waiting_senders() == old(chan).waiting_senders(),
            final(chan).no_wakes(*old(chan)),
            r.link_view() is None,
    {
        let handle = chan.add_receiver();
        ReceiveFuture { link: None, channel: Receiver { channel: handle, marker: core::marker::PhantomData } }
    }

    /// Number of buffered values.
    pub fn len<const N: usize>(&self, chan: &Channel<T, N>) -> (r: usize)
        requires
            chan.wf(),
        ensures
            r == chan.items().len(),
    {
        chan.len()
    }

    /// One more receiver of the same channel.
    pub fn clone<const N: usize>(&self, chan: &mut Channel<T, N>) -> (r: Self)
        requires
            old(chan).wf(),
            old(chan).is_split(),
            old(chan).receivers() < u32::MAX,
        ensures
            final(chan).wf(),
            final(chan).is_split(),
            final(chan).receivers() == old(chan).receivers() + 1,
            final(chan).senders() == old(chan).senders(),
            final(chan).items() == old(chan).items(),
            final(chan).keeps_links(*old(chan)),
            final(chan).waiting_receivers() == old(chan).waiting_receivers(),
            final(chan).waiting_senders() == old(chan).waiting_senders(),
            final(chan).no_wakes(*old(chan)),
    {
        let handle = chan.add_receiver();
        Receiver { channel: handle, marker: core::marker::PhantomData }
    }

    /// Gives the receiver back. When it was the last one, every waiting send future is
    /// woken.
    pub fn release<const N: usize>(self, chan: &mut Channel<T, N>)
        requires
            old(chan).wf(),
            old(chan).is_split(),
            old(chan).receivers() > 0,
        ensures
            final(chan).wf(),
            final(chan).is_split(),
            final(chan).receivers() == old(chan).receivers() - 1,
            final(chan).senders() == old(chan).senders(),
            final(chan).items() == old(chan).items(),
            final(chan).keeps_links(*old(chan)),
            final(chan).waiting_receivers() == old(chan).waiting_receivers(),
            final(chan).waiting_senders() == (if old(chan).receivers() == 1 {
                Seq::<usize>::empty()
            } else {
                old(chan).waiting_senders()
            }),
            final(chan).sender_wakes() == (if old(chan).receivers() == 1 {
                old(chan).sender_wakes() + old(chan).waiting_senders()
            } else {
                old(chan).sender_wakes()
            }),
            final(chan).woken_senders() == (if old(chan).receivers() == 1 {
                old(chan).woken_senders() + old(chan).sender_wakers_of(old(chan).waiting_senders())
            } else {
                old(chan).woken_senders()
            }),
            final(chan).receiver_wakes() == old(chan).receiver_wakes(),
            final(chan).woken_receivers() == old(chan).woken_receivers(),
    {
        chan.drop_receiver(self.channel);
    }
}

/// The future of `Sender::send`.
pub struct SendFuture<T> {
    value: Option<T>,
    link: Option<usize>,
    channel: Sender<T>,
}

impl<T> SendFuture<T> {
    /// The value not yet sent.
    pub closed spec fn pending_value(&self) -> Option<T> {
        self.value
    }

    /// The link the future waits with, once it has waited.
    pub closed spec fn link_view(&self) -> Option<usize> {
        self.link
    }

    /// The future may be polled on `chan`.
    pub open spec fn can_poll<const N: usize>(&self, chan: Channel<T, N>) -> bool {
        &&& chan.wf()
        &&& chan.is_split()
        &&& self.pending_value() is Some
        &&& self.link_view() is Some ==> chan.is_sender_link(self.link_view().unwrap())
    }

    /// Tries to send. When the buffer is full the future waits for room, woken through
    /// `waker`, and keeps its value.
    pub fn poll<const N: usize>(&mut self, chan: &mut Channel<T, N>, waker: &core::task::Waker) -> (r: Poll<
        Result<(), SendError<T>>,
    >)
        requires
            old(self).can_poll(*old(chan)),
        ensures
            final(chan).wf(),
            final(chan).keeps_links(*old(chan)),
            final(chan).same_handles(*old(chan)),
            old(chan).receivers() == 0 ==> {
                &&& r == Poll::Ready(Err::<(), SendError<T>>(SendError(old(self).pending_value().unwrap())))
                &&& final(self).pending_value() is None
                &&& final(chan).items() == old(chan).items()
                &&& final(chan).waiting_receivers() == old(chan).waiting_receivers()
                &&& final(chan).waiting_senders() == old(chan).waiting_senders()
                &&& final(chan).no_wakes(*old(chan))
            },
            old(chan).receivers() > 0 && old(chan).items().len() < Channel::<T, N>::capacity() ==> {
                &&& r == Poll::Ready(Ok::<(), SendError<T>>(()))
                &&& final(self).pending_value() is None
                &&& final(chan).items() == old(chan).items().push(old(self).pending_value().unwrap())
                &&& final(chan).waiting_receivers() == Seq::<usize>::empty()
                &&& final(chan).waiting_senders() == old(chan).waiting_senders()
                &&& final(chan).receiver_wakes() == old(chan).receiver_wakes() + old(chan).waiting_receivers()
                &&& final(chan).woken_receivers() == old(chan).woken_receivers() + old(chan).receiver_wakers_of(old(chan).waiting_receivers())
                &&& final(chan).sender_wakes() == old(chan).sender_wakes()
                &&& final(chan).woken_senders() == old(chan).woken_senders()
            },
            old(chan).receivers() > 0 && old(chan).items().len() >= Channel::<T, N>::capacity() ==> {
                &&& r == Poll::<Result<(), SendError<T>>>::Pending
                &&& final(self).pending_value() == old(self).pending_value()
                &&& final(self).can_poll(*final(chan))
                &&& final(self).link_view() is Some
                &&& (old(self).link_view() is Some ==> final(self).link_view() == old(self).link_view())
                &&& final(chan).items() == old(chan).items()
                &&& final(chan).no_wakes(*old(chan))
                &&& final(chan).waiting_receivers() == old(chan).waiting_receivers()
                &&& final(chan).waiting_senders() == (if old(chan).waiting_senders().contains(
                    final(self).link_view().unwrap(),
                ) {
                    old(chan).waiting_senders()
                } else {
                    old(chan).waiting_senders().push(final(self).link_view().unwrap())
                })
                &&& old(self).link_view() is None ==> final(chan).waiting_senders() == old(chan).waiting_senders().push(
                    final(self).link_view().unwrap(),
                )
                &&& cloned(*waker, final(chan).sender_waker(final(self).link_view().unwrap()))
            },
    {
        let value = match self.value.take() {
            Some(v) => v,
            None => {
                proof {
                    assert(false);
                }
                return Poll::Pending;
            },
        };
        match chan.try_send(value) {
            Ok(()) => Poll::Ready(Ok(())),
            Err(TrySendError::Closed(v)) => Poll::Ready(Err(SendError(v))),
            Err(TrySendError::Full(v)) => {
                self.value = Some(v);
                let ghost c0 = *chan;
                let link = match self.link {
                    Some(l) => l,
                    None => {
                        let l = chan.new_sender_link();
                        self.link = Some(l);
                        l
                    },
                };
                let ghost c1 = *chan;
                chan.add_waiting_sender(link, waker);
                proof {
                    assert forall|l: usize| #[trigger] old(chan).is_receiver_link(l) implies chan.is_receiver_link(l) by {
                        assert(c0.is_receiver_link(l));
                        assert(c1.is_receiver_link(l));
                    }
                    assert forall|l: usize| #[trigger] old(chan).is_sender_link(l) implies chan.is_sender_link(l) by {
                        assert(c0.is_sender_link(l));
                        assert(c1.is_sender_link(l));
                    }
                    assert(c1.is_sender_link(link));
                }
                Poll::Pending
            },
        }
    }

    /// Gives the future back: its link leaves the waiting senders, and the sender handle
    /// it holds is given back.
    pub fn release<const N: usize>(self, chan: &mut Channel<T, N>)
        requires
            old(chan).wf(),
            old(chan).is_split(),
            old(chan).senders() > 0,
            self.link_view() is Some ==> old(chan).is_sender_link(self.link_view().unwrap()),
        ensures
            final(chan).wf(),
            final(chan).is_split(),
            final(chan).senders() == old(chan).senders() - 1,
            final(chan).receivers() == old(chan).receivers(),
            final(chan).items() == old(chan).items(),
            final(chan).keeps_links(*old(chan)),
            final(chan).waiting_senders() == (match self.link_view() {
                Some(l) => without(old(chan).waiting_senders(), l),
                None => old(chan).waiting_senders(),
            }),
            final(chan).waiting_receivers() == (if old(chan).senders() == 1 {
                Seq::<usize>::empty()
            } else {
                old(chan).waiting_receivers()
            }),
            final(chan).receiver_wakes() == (if old(chan).senders() == 1 {
                old(chan).receiver_wakes() + old(chan).waiting_receivers()
            } else {
                old(chan).receiver_wakes()
            }),
            final(chan).woken_receivers() == (if old(chan).senders() == 1 {
                old(chan).woken_receivers() + old(chan).receiver_wakers_of(old(chan).waiting_receivers())
            } else {
                old(chan).woken_receivers()
            }),
            final(chan).sender_wakes() == old(chan).sender_wakes(),
            final(chan).woken_senders() == old(chan).woken_senders(),
    {
        let ghost c0 = *chan;
        match self.link {
            Some(l) => {
                chan.unlink_sender(l);
                chan.recycle_sender_link(l);
            },
            None => {},
        }
        let ghost c1 = *chan;
        self.channel.release(chan);
        proof {
            assert forall|l: usize| #[trigger] c0.is_receiver_link(l) implies chan.is_receiver_link(l) by {
                assert(c1.is_receiver_link(l));
            }
            assert forall|l: usize| #[trigger] c0.is_sender_link(l) implies chan.is_sender_link(l) by {
                assert(c1.is_sender_link(l));
            }
        }
    }
}

/// The future of `Receiver::recv`.
pub struct ReceiveFuture<T> {
    link: Option<usize>,
    channel: Receiver<T>,
}

impl<T> ReceiveFuture<T> {
    /// The link the future waits with, once it has waited.
    pub closed spec fn link_view(&self) -> Option<usize> {
        self.link
    }

    /// The future may be polled on `chan`.
    pub open spec fn can_poll<const N: usize>(&self, chan: Channel<T, N>) -> bool {
        &&& chan.wf()
        &&& chan.is_split()
        &&& self.link_view() is Some ==> chan.is_receiver_link(self.link_view().unwrap())
    }

    /// Tries to receive. While the channel is empty and a sender is left, the future
    /// waits for a value, woken through `waker`.
    pub fn poll<const N: usize>(&mut self, chan: &mut Channel<T, N>, waker: &core::task::Waker) -> (r: Poll<
        Result<T, RecvError>,
    >)
        requires
            old(self).can_poll(*old(chan)),
        ensures
            final(chan).wf(),
            final(chan).keeps_links(*old(chan)),
            final(chan).same_handles(*old(chan)),
            final(self).can_poll(*final(chan)),
            old(chan).items().len() > 0 ==> {
                &&& r == Poll::Ready(Ok::<T, RecvError>(old(chan).items()[0]))
                &&& final(chan).items() == old(chan).items().drop_first()
                &&& final(chan).waiting_senders() == Seq::<usize>::empty()
                &&& final(chan).waiting_receivers() == old(chan).waiting_receivers()
                &&& final(chan).sender_wakes() == old(chan).sender_wakes() + old(chan).waiting_senders()
                &&& final(chan).woken_senders() == old(chan).woken_senders() + old(chan).sender_wakers_of(old(chan).waiting_senders())
                &&& final(chan).receiver_wakes() == old(chan).receiver_wakes()
                &&& final(chan).woken_receivers() == old(chan).woken_receivers()
            },
            old(chan).items().len() == 0 && old(chan).senders() == 0 ==> {
                &&& r == Poll::Ready(Err::<T, RecvError>(RecvError))
                &&& final(chan).items() == old(chan).items()
                &&& final(chan).waiting_senders() == old(chan).waiting_senders()
                &&& final(chan).waiting_receivers() == old(chan).waiting_receivers()
                &&& final(chan).no_wakes(*old(chan))
            },
            old(chan).items().len() == 0 && old(chan).senders() > 0 ==> {
                &&& r == Poll::<Result<T, RecvError>>::Pending
                &&& final(self).link_view() is Some
                &&& (old(self).link_view() is Some ==> final(self).link_view() == old(self).link_view())
                &&& final(chan).items() == old(chan).items()
                &&& final(chan).no_wakes(*old(chan))
                &&& final(chan).waiting_senders() == old(chan).waiting_senders()
                &&& final(chan).waiting_receivers() == (if old(chan).waiting_receivers().contains(
                    final(self).link_view().unwrap(),
                ) {
                    old(chan).waiting_receivers()
                } else {
                    old(chan).waiting_receivers().push(final(self).link_view().unwrap())
                })
                &&& old(self).link_view() is None ==> final(chan).waiting_receivers() == old(chan).waiting_receivers().push(
                    final(self).link_view().unwrap(),
                )
                &&& cloned(*waker, final(chan).receiver_waker(final(self).link_view().unwrap()))
            },
    {
        match chan.try_recv() {
            Ok(value) => Poll::Ready(Ok(value)),
            Err(TryRecvError::Closed) => Poll::Ready(Err(RecvError)),
            Err(TryRecvError::Empty) => {
                let ghost c0 = *chan;
                let link = match self.link {
                    Some(l) => l,
                    None => {
                        let l = chan.new_receiver_link();
                        self.link = Some(l);
                        l
                    },
                };
                let ghost c1 = *chan;
                chan.add_waiting_receiver(link, waker);
                proof {
                    assert forall|l: usize| #[trigger] old(chan).is_receiver_link(l) implies chan.is_receiver_link(l) by {
                        assert(c0.is_receiver_link(l));
                        assert(c1.is_receiver_link(l));
                    }
                    assert forall|l: usize| #[trigger] old(chan).is_sender_link(l) implies chan.is_sender_link(l) by {
                        assert(c0.is_sender_link(l));
                        assert(c1.is_sender_link(l));
                    }
                    assert(c1.is_receiver_link(link));
                }
                Poll::Pending
            },
        }
    }

    /// Gives the future back: its link leaves the waiting receivers, and the receiver
    /// handle it holds is given back.
    pub fn release<const N: usize>(self, chan: &mut Channel<T, N>)
        requires
            old(chan).wf(),
            old(chan).is_split(),
            old(chan).receivers() > 0,
            self.link_view() is Some ==> old(chan).is_receiver_link(self.link_view().unwrap()),
        ensures
            final(chan).wf(),
            final(chan).is_split(),
            final(chan).receivers() == old(chan).receivers() - 1,
            final(chan).senders() == old(chan).senders(),
            final(chan).items() == old(chan).items(),
            final(chan).keeps_links(*old(chan)),
            final(chan).waiting_receivers() == (match self.link_view() {
                Some(l) => without(old(chan).waiting_receivers(), l),
                None => old(chan).waiting_receivers(),
            }),
            final(chan).waiting_senders() == (if old(chan).receivers() == 1 {
                Seq::<usize>::empty()
            } else {
                old(chan).waiting_senders()
            }),
            final(chan).sender_wakes() == (if old(chan).receivers() == 1 {
                old(chan).sender_wakes() + old(chan).waiting_senders()
            } else {
                old(chan).sender_wakes()
            }),
            final(chan).woken_senders() == (if old(chan).receivers() == 1 {
                old(chan).woken_senders() + old(chan).sender_wakers_of(old(chan).waiting_senders())
            } else {
                old(chan).woken_senders()
            }),
            final(chan).receiver_wakes() == old(chan).receiver_wakes(),
            final(chan).woken_receivers() == old(chan).woken_receivers(),
    {
        let ghost c0 = *chan;
        match self.link {
            Some(l) => {
                chan.unlink_receiver(l);
                chan.recycle_receiver_link(l);
            },
            None => {},
        }
        let ghost c1 = *chan;
        self.channel.release(chan);
        proof {
            assert forall|l: usize| #[trigger] c0.is_receiver_link(l) implies chan.is_receiver_link(l) by {
                assert(c1.is_receiver_link(l));
            }
            assert forall|l: usize| #[trigger] c0.is_sender_link(l) implies chan.is_sender_link(l) by {
                assert(c1.is_sender_link(l));
            }
        }
    }
}

/// A receive future that waits is woken by the next value sent: when link `l` waits in
/// `c0` and a send leads to `c1`, the send woke the waker that future left, recorded under
/// `l`, and the future waits no more.
pub proof fn law_send_wakes_receiver<T, const N: usize>(c0: Channel<T, N>, c1: Channel<T, N>, v: T, l: usize)
    requires
        c0.waiting_receivers().contains(l),
        c1.after_send(c0, v),
    ensures
        c1.receiver_wakes().skip(c0.receiver_wakes().len() as int).contains(l),
        c1.woken_receivers().skip(c0.woken_receivers().len() as int).contains(c0.receiver_waker(l)),
        !c1.waiting_receivers().contains(l),
{
    let n = c0.receiver_wakes().len() as int;
    assert(c1.receiver_wakes().skip(n) =~= c0.waiting_receivers());
    let m = c0.woken_receivers().len() as int;
    let ws = c0.receiver_wakers_of(c0.waiting_receivers());
    assert(c1.woken_receivers().skip(m) =~= ws);
    let i = choose|i: int| 0 <= i < c0.waiting_receivers().len() && c0.waiting_receivers()[i] == l;
    assert(ws[i] == c0.receiver_waker(l));
}

/// A send future that waits is woken by the next value received: when link `l` waits in
/// `c0` and a receive leads to `c1`, the receive woke the waker that future left,
/// recorded under `l`, and the future waits no more.
pub proof fn law_receive_wakes_sender<T, const N: usize>(c0: Channel<T, N>, c1: Channel<T, N>, v: T, l: usize)
    requires
        c0.waiting_senders().contains(l),
        c1.after_receive(c0, v),
    ensures
        c1.sender_wakes().skip(c0.sender_wakes().len() as int).contains(l),
        c1.woken_senders().skip(c0.woken_senders().len() as int).contains(c0.sender_waker(l)),
        !c1.waiting_senders().contains(l),
{
    let n = c0.sender_wakes().len() as int;
    assert(c1.sender_wakes().skip(n) =~= c0.waiting_senders());
    let m = c0.woken_senders().len() as int;
    let ws = c0.sender_wakers_of(c0.waiting_senders());
    assert(c1.woken_senders().skip(m) =~= ws);
    let i = choose|i: int| 0 <= i < c0.waiting_senders().len() && c0.waiting_senders()[i] == l;
    assert(ws[i] == c0.sender_waker(l));
}

/// A channel never holds more values than its capacity.
pub proof fn law_bounded<T, const N: usize>(c: Channel<T, N>)
    requires
        c.wf(),
    ensures
        c.items().len() <= Channel::<T, N>::capacity(),
{
    c.queue.lemma_bounded();
}

/// Sending the values `ins` one after the other adds them behind the values the channel
/// held, in order. `cs` are the channel's states, before and after each send.
pub proof fn law_send_run<T, const N: usize>(cs: Seq<Channel<T, N>>, ins: Seq<T>)
    requires
        cs.len() == ins.len() + 1,
        forall|i: int| 0 <= i < ins.len() ==> cs[i + 1].after_send(cs[i], #[trigger] ins[i]),
    ensures
        cs.last().items() == cs[0].items() + ins,
    decreases ins.len(),
{
    if ins.len() == 0 {
        assert(cs[0].items() + ins =~= cs[0].items());
    } else {
        let n = ins.len() - 1;
        let cs0 = cs.drop_last();
        let ins0 = ins.drop_last();
        assert forall|i: int| 0 <= i < ins0.len() implies cs0[i + 1].after_send(cs0[i], #[trigger] ins0[i]) by {
            assert(ins0[i] == ins[i]);
            assert(cs[i + 1].after_send(cs[i], ins[i]));
        }
        law_send_run(cs0, ins0);
        assert(cs[n + 1].after_send(cs[n], ins[n]));
        assert(cs[0].items() + ins =~= (cs[0].items() + ins0).push(ins[n]));
    }
}

/// Receiving `outs.len()` times gives the oldest values the channel held, in order, and
/// leaves the rest. `cs` are the channel's states, before and after each receive.
pub proof fn law_receive_run<T, const N: usize>(cs: Seq<Channel<T, N>>, outs: Seq<T>)
    requires
        cs.len() == outs.len() + 1,
        forall|i: int| 0 <= i < outs.len() ==> cs[i + 1].after_receive(cs[i], #[trigger] outs[i]),
    ensures
        outs.len() <= cs[0].items().len(),
        outs == cs[0].items().take(outs.len() as int),
        cs.last().items() == cs[0].items().skip(outs.len() as int),
    decreases outs.len(),
{
    if outs.len() == 0 {
        assert(cs[0].items().skip(0) =~= cs[0].items());
        assert(cs[0].items().take(0) =~= outs);
    } else {
        let n = outs.len() - 1;
        let cs0 = cs.drop_last();
        let outs0 = outs.drop_last();
        assert forall|i: int| 0 <= i < outs0.len() implies cs0[i + 1].after_receive(cs0[i], #[trigger] outs0[i]) by {
            assert(outs0[i] == outs[i]);
            assert(cs[i + 1].after_receive(cs[i], outs[i]));
        }
        law_receive_run(cs0, outs0);
        assert(cs[n + 1].after_receive(cs[n], outs[n]));
        let s = cs[0].items();
        assert(cs[n].items() == s.skip(n));
        assert(s.skip(n).drop_first() =~= s.skip(n + 1));
        assert(outs =~= s.take(n + 1));
    }
}

/// Values leave a channel in the order they entered it: after the values `ins` are sent
/// into an empty channel, as many receives give back exactly `ins`, in order, and leave
/// the channel empty.
pub proof fn law_fifo<T, const N: usize>(
    sends: Seq<Channel<T, N>>,
    ins: Seq<T>,
    receives: Seq<Channel<T, N>>,
    outs: Seq<T>,
)
    requires
        sends.len() == ins.len() + 1,
        forall|i: int| 0 <= i < ins.len() ==> sends[i + 1].after_send(sends[i], #[trigger] ins[i]),
        sends[0].items().len() == 0,
        receives.len() == outs.len() + 1,
        receives[0] == sends.last(),
        forall|i: int| 0 <= i < outs.len() ==> receives[i + 1].after_receive(receives[i], #[trigger] outs[i]),
        outs.len() == ins.len(),
    ensures
        outs == ins,
        receives.last().items().len() == 0,
{
    law_send_run(sends, ins);
    law_receive_run(receives, outs);
    assert(sends[0].items() + ins =~= ins);
    assert(ins.take(ins.len() as int) =~= ins);
}

} // verus!
