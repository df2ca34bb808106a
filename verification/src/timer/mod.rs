//! A timer service on top of a hardware timer backend.
//!
//! A `Timer` keeps the delays that are running. Its `TimerTask` must be polled for the
//! delays to be serviced: each poll pauses the backend, counts the elapsed time off every
//! sleeping delay, wakes the delays that ran out, takes in the delays that were started
//! since, and restarts the backend for the shortest time left. `TimerHandle`s start
//! delays.
use vstd::prelude::*;
use crate::intrusive::double_list::{Links, List, Node, without};
use crate::intrusive::rc::{RcAnchor, RcRef};
use crate::task::{Poll, WakeLog, wake, wake_by_ref, clone_waker};

verus! {

/// A length of time, counted in ticks of some unit.
pub trait Duration: Copy + Sized {
    /// The length in ticks.
    spec fn ticks(&self) -> nat;

    /// No time at all.
    fn zero() -> (r: Self)
        ensures
            r.ticks() == 0,
    ;

    /// Whether the length is zero.
    fn is_zero(&self) -> (r: bool)
        ensures
            r == (self.ticks() == 0),
    ;

    /// This length less `rhs`, or zero when `rhs` is longer.
    fn saturating_sub(&self, rhs: &Self) -> (r: Self)
        ensures
            r.ticks() == sat_sub(self.ticks(), rhs.ticks()),
    ;

    /// The shorter of the two lengths.
    fn min(&self, rhs: &Self) -> (r: Self)
        ensures
            r.ticks() == min_nat(self.ticks(), rhs.ticks()),
    ;
}

/// `a - b`, or zero when `b` exceeds `a`.
pub open spec fn sat_sub(a: nat, b: nat) -> nat {
    if a >= b {
        (a - b) as nat
    } else {
        0
    }
}

/// The smaller of two naturals.
pub open spec fn min_nat(a: nat, b: nat) -> nat {
    if a <= b {
        a
    } else {
        b
    }
}

impl Duration for u32 {
    open spec fn ticks(&self) -> nat {
        *self as nat
    }

    fn zero() -> (r: Self) {
        0
    }

    fn is_zero(&self) -> (r: bool) {
        *self == 0
    }

    fn saturating_sub(&self, rhs: &Self) -> (r: Self) {
        if *self >= *rhs {
            *self - *rhs
        } else {
            0
        }
    }

    fn min(&self, rhs: &Self) -> (r: Self) {
        if *self <= *rhs {
            *self
        } else {
            *rhs
        }
    }
}

impl Duration for u64 {
    open spec fn ticks(&self) -> nat {
        *self as nat
    }

    fn zero() -> (r: Self) {
        0
    }

    fn is_zero(&self) -> (r: bool) {
        *self == 0
    }

    fn saturating_sub(&self, rhs: &Self) -> (r: Self) {
        if *self >= *rhs {
            *self - *rhs
        } else {
            0
        }
    }

    fn min(&self, rhs: &Self) -> (r: Self) {
        if *self <= *rhs {
            *self
        } else {
            *rhs
        }
    }
}

/// The hardware side of a timer, implemented by the user.
pub trait TimerBackend {
    /// The unit the backend counts in.
    type Duration: Duration;

    /// Starts the timer. The backend must call `waker.wake()` or `waker.wake_by_ref()`
    /// once `dur` has elapsed.
    fn wake_in(&mut self, waker: core::task::Waker, dur: Self::Duration);

    /// Pauses the timer, which then must not call wake, and returns the time since it
    /// was started. A paused timer may return zero.
    fn pause(&mut self) -> Self::Duration;
}

/// A running delay: the time it still has to wait, and the waker of its task.
pub struct WaitingTimer<D> {
    time_until_timeout: D,
    waker: Option<core::task::Waker>,
}

impl<D: Duration> WaitingTimer<D> {
    /// The time still to wait.
    pub closed spec fn time(&self) -> nat {
        self.time_until_timeout.ticks()
    }

    /// The delay has a waker.
    pub closed spec fn has_waker(&self) -> bool {
        self.waker is Some
    }

    /// The waker of the delay's task, if it has one.
    pub closed spec fn stored_waker(&self) -> Option<core::task::Waker> {
        self.waker
    }
}

/// The waker that the delay of link `l` holds.
pub open spec fn waker_in<D: Duration>(links: Links<WaitingTimer<D>>, l: usize) -> core::task::Waker {
    links.owner_at(l).unwrap().stored_waker().unwrap()
}

/// The wakers that the delays of links `ids` hold, in order.
pub open spec fn wakers_in<D: Duration>(links: Links<WaitingTimer<D>>, ids: Seq<usize>) -> Seq<core::task::Waker> {
    ids.map_values(|l: usize| waker_in(links, l))
}

/// The delays in `expired` are among `ids`.
pub proof fn lemma_expired_sub<D: Duration>(links: Links<WaitingTimer<D>>, ids: Seq<usize>, e: nat)
    ensures
        forall|x: usize| #[trigger] expired(links, ids, e).contains(x) ==> ids.contains(x),
    decreases ids.len(),
{
    if ids.len() > 0 {
        let d = ids.drop_last();
        lemma_expired_sub(links, d, e);
        assert forall|x: usize| #[trigger] expired(links, ids, e).contains(x) implies ids.contains(x) by {
            if expired(links, d, e).contains(x) {
                let k = choose|k: int| 0 <= k < d.len() && d[k] == x;
                assert(ids[k] == x);
            } else {
                assert(ids[ids.len() - 1] == x);
            }
        }
    }
}

/// A delay among `ids` that waits no longer than `e` is in `expired`.
pub proof fn lemma_expired_has<D: Duration>(links: Links<WaitingTimer<D>>, ids: Seq<usize>, e: nat, j: int)
    requires
        0 <= j < ids.len(),
        time_in(links, ids[j]) <= e,
    ensures
        expired(links, ids, e).contains(ids[j]),
    decreases ids.len(),
{
    let d = ids.drop_last();
    if j == ids.len() - 1 {
        assert(expired(links, ids, e).last() == ids[j]);
    } else {
        lemma_expired_has(links, d, e, j);
        assert(d[j] == ids[j]);
        let r = expired(links, d, e);
        let k = choose|k: int| 0 <= k < r.len() && r[k] == ids[j];
        if time_in(links, ids.last()) <= e {
            assert(expired(links, ids, e)[k] == ids[j]);
        } else {
            assert(expired(links, ids, e) == r);
        }
    }
}

/// The time still to wait of the delay of link `l`.
pub open spec fn time_in<D: Duration>(links: Links<WaitingTimer<D>>, l: usize) -> nat {
    match links.owner_at(l) {
        Some(w) => w.time(),
        None => 0,
    }
}

/// The smallest of `a` and `b`, where `a` may be missing.
pub open spec fn min_opt(a: Option<nat>, b: nat) -> Option<nat> {
    match a {
        Some(x) => Some(min_nat(x, b)),
        None => Some(b),
    }
}

/// The smaller of two lengths that may each be missing.
pub open spec fn min_both(a: Option<nat>, b: Option<nat>) -> Option<nat> {
    match b {
        Some(y) => min_opt(a, y),
        None => a,
    }
}

/// The shortest time still to wait among the delays `ids`, if there is any.
pub open spec fn min_time<D: Duration>(links: Links<WaitingTimer<D>>, ids: Seq<usize>) -> Option<nat>
    decreases ids.len(),
{
    if ids.len() == 0 {
        None
    } else {
        min_opt(min_time(links, ids.drop_last()), time_in(links, ids.last()))
    }
}

/// The delays among `ids` that wait longer than `e`, in order.
pub open spec fn kept<D: Duration>(links: Links<WaitingTimer<D>>, ids: Seq<usize>, e: nat) -> Seq<usize>
    decreases ids.len(),
{
    if ids.len() == 0 {
        Seq::empty()
    } else {
        let rest = kept(links, ids.drop_last(), e);
        if time_in(links, ids.last()) > e {
            rest.push(ids.last())
        } else {
            rest
        }
    }
}

/// The delays among `ids` that wait no longer than `e`, in order.
pub open spec fn expired<D: Duration>(links: Links<WaitingTimer<D>>, ids: Seq<usize>, e: nat) -> Seq<usize>
    decreases ids.len(),
{
    if ids.len() == 0 {
        Seq::empty()
    } else {
        let rest = expired(links, ids.drop_last(), e);
        if time_in(links, ids.last()) <= e {
            rest.push(ids.last())
        } else {
            rest
        }
    }
}

/// The length in ticks, if there is one.
pub open spec fn opt_ticks<D: Duration>(d: Option<D>) -> Option<nat> {
    match d {
        Some(x) => Some(x.ticks()),
        None => None,
    }
}

/// `min_time` only reads the times of the delays it is given.
pub proof fn lemma_min_time_frame<D: Duration>(a: Links<WaitingTimer<D>>, b: Links<WaitingTimer<D>>, ids: Seq<usize>)
    requires
        forall|k: int| 0 <= k < ids.len() ==> #[trigger] time_in(a, ids[k]) == time_in(b, ids[k]),
    ensures
        min_time(a, ids) == min_time(b, ids),
    decreases ids.len(),
{
    if ids.len() > 0 {
        let d = ids.drop_last();
        assert forall|k: int| 0 <= k < d.len() implies #[trigger] time_in(a, d[k]) == time_in(b, d[k]) by {
            assert(d[k] == ids[k]);
        }
        lemma_min_time_frame(a, b, d);
        assert(time_in(a, ids[ids.len() - 1]) == time_in(b, ids[ids.len() - 1]));
    }
}

/// `kept` only keeps delays it is given.
pub proof fn lemma_kept_sub<D: Duration>(links: Links<WaitingTimer<D>>, ids: Seq<usize>, e: nat)
    ensures
        forall|x: usize| #[trigger] kept(links, ids, e).contains(x) ==> ids.contains(x),
        kept(links, ids, e).len() <= ids.len(),
        ids.no_duplicates() ==> kept(links, ids, e).no_duplicates(),
    decreases ids.len(),
{
    if ids.len() > 0 {
        let d = ids.drop_last();
        lemma_kept_sub(links, d, e);
        assert forall|x: usize| #[trigger] kept(links, ids, e).contains(x) implies ids.contains(x) by {
            if kept(links, d, e).contains(x) {
                let k = choose|k: int| 0 <= k < d.len() && d[k] == x;
                assert(ids[k] == x);
            } else {
                assert(ids[ids.len() - 1] == x);
            }
        }
        if ids.no_duplicates() {
            assert(d.no_duplicates()) by {
                assert forall|i: int, j: int| 0 <= i < d.len() && 0 <= j < d.len() && i != j implies d[i] != d[j] by {
                    assert(ids[i] != ids[j]);
                }
            }
            if time_in(links, ids.last()) > e {
                let r = kept(links, d, e);
                assert(!r.contains(ids.last())) by {
                    if r.contains(ids.last()) {
                        let k = choose|k: int| 0 <= k < d.len() && d[k] == ids.last();
                        assert(ids[k] == ids[ids.len() - 1]);
                    }
                }
                assert(r.push(ids.last()).no_duplicates()) by {
                    let p = r.push(ids.last());
                    assert forall|i: int, j: int| 0 <= i < p.len() && 0 <= j < p.len() && i != j implies p[i] != p[j] by {
                        if i < r.len() && j < r.len() {
                            assert(r[i] != r[j]);
                        } else if i < r.len() {
                            assert(r.contains(r[i]));
                        } else if j < r.len() {
                            assert(r.contains(r[j]));
                        }
                    }
                }
            }
        }
    }
}

/// A delay is kept exactly when it waits longer than `e`.
pub proof fn lemma_kept_keeps<D: Duration>(links: Links<WaitingTimer<D>>, ids: Seq<usize>, e: nat, j: int)
    requires
        0 <= j < ids.len(),
        ids.no_duplicates(),
    ensures
        kept(links, ids, e).contains(ids[j]) <==> time_in(links, ids[j]) > e,
    decreases ids.len(),
{
    let d = ids.drop_last();
    lemma_kept_sub(links, d, e);
    if j == ids.len() - 1 {
        if kept(links, d, e).contains(ids[j]) {
            let k = choose|k: int| 0 <= k < d.len() && d[k] == ids[j];
            assert(ids[k] == ids[j]);
        }
        if time_in(links, ids[j]) > e {
            assert(kept(links, ids, e).last() == ids[j]);
        }
    } else {
        assert(d.no_duplicates()) by {
            assert forall|a: int, b: int| 0 <= a < d.len() && 0 <= b < d.len() && a != b implies d[a] != d[b] by {
                assert(ids[a] != ids[b]);
            }
        }
        lemma_kept_keeps(links, d, e, j);
        assert(d[j] == ids[j]);
        assert(ids[j] != ids.last());
        if kept(links, d, e).contains(ids[j]) {
            let k = choose|k: int| 0 <= k < kept(links, d, e).len() && kept(links, d, e)[k] == ids[j];
            if time_in(links, ids.last()) > e {
                assert(kept(links, ids, e)[k] == ids[j]);
            }
        }
    }
}

/// `kept` and `expired` only read the times of the delays they are given.
pub proof fn lemma_kept_frame<D: Duration>(a: Links<WaitingTimer<D>>, b: Links<WaitingTimer<D>>, ids: Seq<usize>, e: nat)
    requires
        forall|k: int| 0 <= k < ids.len() ==> #[trigger] time_in(a, ids[k]) == time_in(b, ids[k]),
    ensures
        kept(a, ids, e) == kept(b, ids, e),
        expired(a, ids, e) == expired(b, ids, e),
    decreases ids.len(),
{
    if ids.len() > 0 {
        let d = ids.drop_last();
        assert forall|k: int| 0 <= k < d.len() implies #[trigger] time_in(a, d[k]) == time_in(b, d[k]) by {
            assert(d[k] == ids[k]);
        }
        lemma_kept_frame(a, b, d, e);
        assert(time_in(a, ids[ids.len() - 1]) == time_in(b, ids[ids.len() - 1]));
    }
}

/// The shortest time of two runs of delays is the shorter of their shortest times.
pub proof fn lemma_min_time_concat<D: Duration>(links: Links<WaitingTimer<D>>, a: Seq<usize>, b: Seq<usize>)
    ensures
        min_time(links, a + b) == min_both(min_time(links, a), min_time(links, b)),
    decreases b.len(),
{
    if b.len() == 0 {
        assert(a + b =~= a);
    } else {
        let d = b.drop_last();
        lemma_min_time_concat(links, a, d);
        assert((a + b).drop_last() =~= a + d);
        assert((a + b).last() == b.last());
        let x = min_time(links, a);
        let y = min_time(links, d);
        let z = time_in(links, b.last());
        match x {
            Some(xv) => match y {
                Some(yv) => {
                    assert(min_nat(min_nat(xv, yv), z) == min_nat(xv, min_nat(yv, z)));
                },
                None => {},
            },
            None => {},
        }
    }
}

/// The sleeping delays once `e` ticks have passed: all of them when no time passed,
/// else those that wait longer than `e`.
pub open spec fn after_elapsed<D: Duration>(links: Links<WaitingTimer<D>>, ids: Seq<usize>, e: nat) -> Seq<usize> {
    if e == 0 {
        ids
    } else {
        kept(links, ids, e)
    }
}

/// Two list heads that are not the same list.
pub open spec fn apart(a: Option<usize>, b: Option<usize>) -> bool {
    a is Some && b is Some ==> a != b
}

/// The timer state shared by its task and its handles.
pub struct Timer<B: TimerBackend> {
    backend: Option<B>,
    waker: Option<core::task::Waker>,
    links: Links<WaitingTimer<B::Duration>>,
    sleeping_timers: List<WaitingTimer<B::Duration>>,
    new_timers: List<WaitingTimer<B::Duration>>,
    scratch: List<WaitingTimer<B::Duration>>,
    rc: Option<(RcAnchor<()>, RcAnchor<()>)>,
    wakes: WakeLog,
    runner_wakes: WakeLog,
    requested: Ghost<Option<nat>>,
    reported: Ghost<nat>,
}

impl<B: TimerBackend> Timer<B> {
    /// The timer's invariant.
    pub closed spec fn wf(&self) -> bool {
        &&& self.links.wf()
        &&& self.sleeping_timers.wf_in(self.links)
        &&& self.new_timers.wf_in(self.links)
        &&& self.scratch.wf_in(self.links)
        &&& self.scratch.view_in(self.links).len() == 0
        &&& apart(self.sleeping_timers.head_view(), self.new_timers.head_view())
        &&& apart(self.sleeping_timers.head_view(), self.scratch.head_view())
        &&& apart(self.new_timers.head_view(), self.scratch.head_view())
        &&& forall|g: usize| #[trigger] self.links.has_list(g) ==> Some(g) == self.sleeping_timers.head_view()
            || Some(g) == self.new_timers.head_view() || Some(g) == self.scratch.head_view()
        &&& forall|k: int| 0 <= k < self.sleeping().len() ==> #[trigger] self.links.owner_at(self.sleeping()[k]) is Some
        &&& forall|k: int| 0 <= k < self.new_timers().len() ==> #[trigger] self.links.owner_at(self.new_timers()[k]) is Some
        &&& forall|k: int| 0 <= k < self.sleeping().len() ==> (#[trigger] self.links.owner_at(self.sleeping()[k])).unwrap().has_waker()
        &&& forall|k: int| 0 <= k < self.new_timers().len() ==> (#[trigger] self.links.owner_at(self.new_timers()[k])).unwrap().has_waker()
    }

    /// The wakes made of delay futures, each recorded by the delay's link, oldest first.
    pub closed spec fn delay_wakes(&self) -> Seq<usize> {
        self.wakes.ids()
    }

    /// The wakers of delay futures woken, oldest first (one for each of `delay_wakes`).
    pub closed spec fn delay_woken(&self) -> Seq<core::task::Waker> {
        self.wakes.wakers()
    }

    /// The wakers of the task woken, oldest first (one for each of `runner_wakes`).
    pub closed spec fn runner_woken(&self) -> Seq<core::task::Waker> {
        self.runner_wakes.wakers()
    }

    /// The waker that the delay of link `l` holds, if any.
    pub closed spec fn stored_waker(&self, l: usize) -> Option<core::task::Waker> {
        match self.links.owner_at(l) {
            Some(w) => w.stored_waker(),
            None => None,
        }
    }

    /// The wakes made of the task's waker, oldest first: each recorded by the link of
    /// the delay whose start woke it, or by 0 when the last handle went.
    pub closed spec fn runner_wakes(&self) -> Seq<usize> {
        self.runner_wakes.ids()
    }

    /// No delay and no task was woken since `old`.
    pub open spec fn no_wakes(&self, old: Self) -> bool {
        &&& self.delay_wakes() == old.delay_wakes()
        &&& self.runner_wakes() == old.runner_wakes()
        &&& self.delay_woken() == old.delay_woken()
        &&& self.runner_woken() == old.runner_woken()
    }

    /// The wakes once `old` gave a handle back: the task, when it left a waker, is woken
    /// if that handle was the last.
    pub open spec fn handle_dropped(&self, old: Self) -> bool {
        &&& self.delay_wakes() == old.delay_wakes()
        &&& self.runner_wakes() == (if old.handles() == 1 && old.runner_waker() is Some {
            old.runner_wakes().push(0)
        } else {
            old.runner_wakes()
        })
        &&& self.delay_woken() == old.delay_woken()
        &&& self.runner_woken() == (if old.handles() == 1 && old.runner_waker() is Some {
            old.runner_woken().push(old.runner_waker().unwrap())
        } else {
            old.runner_woken()
        })
    }

    /// The delays the task services, in the order they were taken in.
    pub closed spec fn sleeping(&self) -> Seq<usize> {
        self.sleeping_timers.view_in(self.links)
    }

    /// The delays started since the task last ran, in the order they were started.
    pub closed spec fn new_timers(&self) -> Seq<usize> {
        self.new_timers.view_in(self.links)
    }

    /// The arena of the delays' links.
    pub closed spec fn delays(&self) -> Links<WaitingTimer<B::Duration>> {
        self.links
    }

    /// The time still to wait of the delay of link `l`.
    pub open spec fn time_of(&self, l: usize) -> nat {
        time_in(self.delays(), l)
    }

    /// The delay of link `l` has a waker.
    pub closed spec fn has_waker(&self, l: usize) -> bool {
        self.links.owner_at(l) matches Some(w) && w.has_waker()
    }

    /// The timer has a backend.
    pub closed spec fn has_backend(&self) -> bool {
        self.backend is Some
    }

    /// The timer has been split into its task and a handle.
    pub closed spec fn is_split(&self) -> bool {
        self.rc is Some
    }

    /// Number of timer handles alive (handles and delay futures).
    pub closed spec fn handles(&self) -> u32 {
        self.rc.unwrap().0.count()
    }

    /// Number of tasks alive.
    pub closed spec fn tasks(&self) -> u32 {
        self.rc.unwrap().1.count()
    }

    /// Number of timer handles alive.
    pub fn handle_ref_count(&self) -> (r: u32)
        requires
            self.is_split(),
        ensures
            r == self.handles(),
    {
        match &self.rc {
            Some(pair) => pair.0.ref_count(),
            None => 0,
        }
    }

    /// `l` can serve as the link of a delay future.
    pub closed spec fn is_delay_link(&self, l: usize) -> bool {
        &&& l < self.links.len()
        &&& !self.links.is_sentinel(l)
        &&& self.links.owner_at(l) is Some
    }

    /// The links that delay futures of `old` hold stay usable.
    pub open spec fn keeps_links(&self, old: Self) -> bool {
        forall|l: usize| #[trigger] old.is_delay_link(l) ==> self.is_delay_link(l)
    }

    /// The links that delay futures of `old` hold, but `gone`, stay usable.
    pub open spec fn keeps_links_but(&self, old: Self, gone: usize) -> bool {
        forall|l: usize| #[trigger] old.is_delay_link(l) && l != gone ==> self.is_delay_link(l)
    }

    /// `self` is `old` after one round of the task in which `e` ticks were counted off:
    /// the sleeping delays lost `e`; those that ran out were woken and left the sleeping
    /// list; the others stayed, in order, followed by the delays started since that have
    /// time left.
    pub open spec fn after_round(&self, old: Self, e: nat) -> bool {
        &&& self.wf()
        &&& self.keeps_links(old)
        &&& self.new_timers() == Seq::<usize>::empty()
        &&& self.sleeping() == after_elapsed(old.delays(), old.sleeping(), e) + kept(old.delays(), old.new_timers(), 0)
        &&& forall|k: int| 0 <= k < old.sleeping().len() ==> #[trigger] self.time_of(old.sleeping()[k]) == sat_sub(
            old.time_of(old.sleeping()[k]),
            e,
        )
        &&& forall|k: int| 0 <= k < old.new_timers().len() ==> #[trigger] self.time_of(old.new_timers()[k])
            == old.time_of(old.new_timers()[k])
        &&& forall|k: int|
            0 <= k < old.sleeping().len() && e > 0 && old.time_of(old.sleeping()[k]) <= e ==> !#[trigger] self.has_waker(
                old.sleeping()[k],
            )
        &&& self.delay_wakes() == old.delay_wakes() + old.round_wakes(e)
        &&& self.delay_woken() == old.delay_woken() + wakers_in(old.delays(), old.round_wakes(e))
        &&& self.runner_wakes() == old.runner_wakes()
        &&& self.runner_woken() == old.runner_woken()
    }

    /// The delays that a round counting off `e` ticks wakes, in order: the sleeping ones
    /// that ran out, then those started since with no time to wait.
    pub open spec fn round_wakes(&self, e: nat) -> Seq<usize> {
        (if e == 0 {
            Seq::<usize>::empty()
        } else {
            expired(self.delays(), self.sleeping(), e)
        }) + expired(self.delays(), self.new_timers(), 0)
    }

    /// The wait the backend was asked for in the task's last poll, in ticks; `None` when
    /// that poll asked for none.
    pub closed spec fn round_request(&self) -> Option<nat> {
        self.requested@
    }

    /// The time, in ticks, the backend reported as elapsed when the task last paused it.
    pub closed spec fn reported_elapsed(&self) -> nat {
        self.reported@
    }

    /// The backend, the task's waker and the handle counts are those of `old`.
    pub open spec fn same_state(&self, old: Self) -> bool {
        &&& self.has_backend() == old.has_backend()
        &&& self.runner_waker() == old.runner_waker()
        &&& self.is_split() == old.is_split()
        &&& self.handles() == old.handles()
        &&& self.tasks() == old.tasks()
    }

    /// The task has left a waker to be woken when a delay starts.
    pub closed spec fn runner_waker(&self) -> Option<core::task::Waker> {
        self.waker
    }

    /// A timer over `backend`, not yet split, with no delay.
    pub fn new(backend: B) -> (r: Self)
        ensures
            r.wf(),
            r.has_backend(),
            r.backend() == Some(backend),
            !r.is_split(),
            r.sleeping() == Seq::<usize>::empty(),
            r.new_timers() == Seq::<usize>::empty(),
    {
        Timer {
            backend: Some(backend),
            waker: None,
            links: Links::new(),
            sleeping_timers: List::new(),
            new_timers: List::new(),
            scratch: List::new(),
            rc: None,
            wakes: WakeLog::new(),
            runner_wakes: WakeLog::new(),
            requested: Ghost(None),
            reported: Ghost(0),
        }
    }

    /// Hands out the task and the first handle. A timer is split once: later calls
    /// return `None`.
    pub fn split(&mut self) -> (r: Option<(TimerTask<B>, TimerHandle<B>)>)
        requires
            old(self).wf(),
        ensures
            final(self).wf(),
            final(self).is_split(),
            final(self).sleeping() == old(self).sleeping(),
            final(self).new_timers() == old(self).new_timers(),
            final(self).delays() == old(self).delays(),
            final(self).has_backend() == old(self).has_backend(),
            old(self).is_split() ==> r is None && final(self).handles() == old(self).handles()
                && final(self).tasks() == old(self).tasks(),
            !old(self).is_split() ==> r is Some && final(self).handles() == 1 && final(self).tasks() == 1,
            final(self).no_wakes(*old(self)),
    {
        if self.rc.is_none() {
            let mut delays = RcAnchor::new(());
            let mut runner = RcAnchor::new(());
            let d = delays.get_ref();
            let t = runner.get_ref();
            self.rc = Some((delays, runner));
            Some((
                TimerTask { timer: t, marker: core::marker::PhantomData },
                TimerHandle { timer: d, marker: core::marker::PhantomData },
            ))
        } else {
            None
        }
    }

    /// The backend, while the timer has one.
    pub closed spec fn backend(&self) -> Option<B> {
        self.backend
    }

    /// Takes the backend out of the timer.
    pub fn consume(self) -> (r: Option<B>)
        ensures
            r == self.backend(),
    {
        let mut me = self;
        me.backend.take()
    }

    /// Takes the backend out of the timer of `task`, and gives the task back.
    pub fn consume_task(task: TimerTask<B>, timer: &mut Timer<B>) -> (r: Option<B>)
        requires
            old(timer).wf(),
            old(timer).is_split(),
            old(timer).tasks() > 0,
        ensures
            r == old(timer).backend(),
            final(timer).backend() is None,
            final(timer).wf(),
            final(timer).is_split(),
            final(timer).tasks() == old(timer).tasks() - 1,
            final(timer).handles() == old(timer).handles(),
            final(timer).sleeping() == old(timer).sleeping(),
            final(timer).new_timers() == old(timer).new_timers(),
            final(timer).delays() == old(timer).delays(),
    {
        let b = timer.backend.take();
        task.release(timer);
        b
    }

    /// Counts `elapsed` off every sleeping delay. The delays that ran out are woken and
    /// leave the sleeping list; the others stay, in order. Returns the shortest time
    /// left, if any delay stays.
    fn update_sleeping_timers(&mut self, elapsed: &B::Duration) -> (r: Option<B::Duration>)
        requires
            old(self).wf(),
        ensures
            final(self).wf(),
            final(self).backend == old(self).backend,
            final(self).waker == old(self).waker,
            final(self).rc == old(self).rc,
            final(self).keeps_links(*old(self)),
            final(self).new_timers() == old(self).new_timers(),
            final(self).sleeping() == kept(old(self).delays(), old(self).sleeping(), elapsed.ticks()),
            final(self).delays().len() >= old(self).delays().len(),
            forall|k: int| 0 <= k < old(self).sleeping().len() ==> #[trigger] final(self).time_of(old(self).sleeping()[k])
                == sat_sub(old(self).time_of(old(self).sleeping()[k]), elapsed.ticks()),
            forall|k: int|
                0 <= k < old(self).sleeping().len() && old(self).time_of(old(self).sleeping()[k]) <= elapsed.ticks()
                    ==> !#[trigger] final(self).has_waker(old(self).sleeping()[k]),
            forall|i: usize| i < old(self).delays().len() && !old(self).sleeping().contains(i)
                ==> #[trigger] final(self).delays().owner_at(i) == old(self).delays().owner_at(i),
            opt_ticks(r) == min_time(final(self).delays(), final(self).sleeping()),
            final(self).delay_wakes() == old(self).delay_wakes() + expired(old(self).delays(), old(self).sleeping(), elapsed.ticks()),
            final(self).delay_woken() == old(self).delay_woken() + wakers_in(
                old(self).delays(),
                expired(old(self).delays(), old(self).sleeping(), elapsed.ticks()),
            ),
            final(self).runner_wakes == old(self).runner_wakes,
            final(self).requested == old(self).requested,
            final(self).reported == old(self).reported,
    {
        let ghost links0 = self.links;
        let ghost s = self.sleeping();
        let ghost e = elapsed.ticks();
        let ghost old_self = *self;
        proof {
            if self.sleeping_timers.head_view() is Some {
                links0.lemma_members(self.sleeping_timers.head_view().unwrap());
            }
        }
        self.sleeping_timers.move_to_front_of(&mut self.links, &mut self.scratch);
        let ghost links1 = self.links;
        proof {
            if old_self.new_timers.head_view() is Some {
                let g = old_self.new_timers.head_view().unwrap();
                assert(links0.has_list(g));
                assert(g != self.sleeping_timers.head_view().unwrap());
                assert(g != self.scratch.head_view().unwrap());
                assert(self.links.members(g) == links0.members(g));
            }
            assert(self.scratch.view_in(self.links) =~= s);
            assert(self.sleeping_timers.view_in(self.links).len() == 0);
            assert(self.new_timers.view_in(self.links) == old_self.new_timers());
            assert(kept(links0, s.take(0), e) =~= Seq::<usize>::empty());
            assert(expired(links0, s.take(0), e) =~= Seq::<usize>::empty());
            assert(self.wakes.ids() =~= old_self.wakes.ids() + expired(links0, s.take(0), e));
            assert(self.wakes.wakers() =~= old_self.wakes.wakers() + wakers_in(links0, expired(links0, s.take(0), e)));
            assert(s.skip(0) =~= s);
        }
        let mut next: Option<B::Duration> = None;
        let ghost mut k: int = 0;
        loop
            invariant
                self.links.wf(),
                self.sleeping_timers.wf_in(self.links),
                self.new_timers.wf_in(self.links),
                self.scratch.wf_in(self.links),
                self.sleeping_timers.head_view() is Some,
                self.scratch.head_view() is Some,
                apart(self.sleeping_timers.head_view(), self.new_timers.head_view()),
                apart(self.sleeping_timers.head_view(), self.scratch.head_view()),
                apart(self.new_timers.head_view(), self.scratch.head_view()),
                forall|g: usize| #[trigger] self.links.has_list(g) ==> Some(g) == self.sleeping_timers.head_view()
                    || Some(g) == self.new_timers.head_view() || Some(g) == self.scratch.head_view(),
                self.backend == old(self).backend,
                self.waker == old(self).waker,
                self.rc == old(self).rc,
                s == old_self.sleeping(),
                e == elapsed.ticks(),
                s.no_duplicates(),
                forall|j: int| 0 <= j < s.len() ==> #[trigger] s[j] < links0.len(),
                forall|j: int| 0 <= j < s.len() ==> #[trigger] links0.owner_at(s[j]) is Some,
                self.links.len() >= links0.len(),
                0 <= k <= s.len(),
                self.scratch.view_in(self.links) == s.skip(k),
                self.sleeping_timers.view_in(self.links) == kept(links0, s.take(k), e),
                self.new_timers.view_in(self.links) == old_self.new_timers(),
                forall|j: int| 0 <= j < k ==> #[trigger] time_in(self.links, s[j]) == sat_sub(time_in(links0, s[j]), e),
                forall|j: int| 0 <= j < k ==> #[trigger] self.links.owner_at(s[j]) is Some,
                forall|j: int| 0 <= j < k && time_in(links0, s[j]) <= e ==> !(#[trigger] self.links.owner_at(s[j])).unwrap().has_waker(),
                forall|j: int| 0 <= j < k && time_in(links0, s[j]) > e ==> (#[trigger] self.links.owner_at(s[j])).unwrap().has_waker(),
                forall|j: int| 0 <= j < s.len() ==> (#[trigger] links0.owner_at(s[j])).unwrap().has_waker(),
                forall|j: int| k <= j < s.len() ==> #[trigger] self.links.owner_at(s[j]) == links0.owner_at(s[j]),
                forall|i: usize| i < links0.len() && !s.contains(i) ==> #[trigger] self.links.owner_at(i) == links0.owner_at(i),
                forall|l: usize| #[trigger] old_self.is_delay_link(l) ==> l < self.links.len() && !self.links.is_sentinel(l)
                    && self.links.owner_at(l) is Some,
                opt_ticks(next) == min_time(self.links, self.sleeping_timers.view_in(self.links)),
                self.wakes.ids() == old_self.wakes.ids() + expired(links0, s.take(k), e),
                self.wakes.wakers() == old_self.wakes.wakers() + wakers_in(links0, expired(links0, s.take(k), e)),
                self.runner_wakes == old(self).runner_wakes,
                self.requested == old(self).requested,
                self.reported == old(self).reported,
            ensures
                k == s.len(),
                self.scratch.view_in(self.links).len() == 0,
            decreases s.len() - k,
        {
            let ghost lk = self.links;
            let popped = self.scratch.pop_front(&mut self.links);
            match popped {
                None => {
                    proof {
                        assert(self.links == lk);
                        assert forall|j: int| 0 <= j < k implies #[trigger] time_in(self.links, s[j]) == sat_sub(
                            time_in(links0, s[j]),
                            e,
                        ) by {
                            assert(time_in(lk, s[j]) == sat_sub(time_in(links0, s[j]), e));
                        }
                        assert forall|j: int| 0 <= j < k implies #[trigger] self.links.owner_at(s[j]) is Some by {
                            assert(lk.owner_at(s[j]) is Some);
                        }
                        if k < s.len() {
                            assert(s.skip(k).len() > 0);
                        }
                    }
                    break;
                },
                Some(x) => {
                    proof {
                        assert(x == s[k]);
                        self.links.lemma_standing(x);
                    }
                    let ghost lp = self.links;
                    let owner = self.links.replace_owner(x, None);
                    let mut w = match owner {
                        Some(w) => w,
                        None => {
                            proof {
                                assert(lk.owner_at(s[k]) == links0.owner_at(s[k]));
                                assert(false);
                            }
                            break;
                        },
                    };
                    let ghost w0 = w;
                    proof {
                        assert(lk.owner_at(s[k]) == links0.owner_at(s[k]));
                        assert(Some(w0) == links0.owner_at(x));
                        assert(time_in(links0, x) == w0.time());
                    }
                    let ghost t0 = w.time_until_timeout;
                    let left = w.time_until_timeout.saturating_sub(elapsed);
                    proof {
                        assert(left.ticks() == sat_sub(t0.ticks(), e));
                    }
                    w.time_until_timeout = left;
                    if !w.time_until_timeout.is_zero() {
                        let t = w.time_until_timeout;
                        proof {
                            assert(t.ticks() != 0);
                            assert(t0.ticks() > e);
                        }
                        let ghost lq = self.links;
                        proof {
                            lq.lemma_standing(x);
                        }
                        self.sleeping_timers.push_link_back(&mut self.links, w, x);
                        next = match next {
                            Some(c) => Some(c.min(&t)),
                            None => Some(t),
                        };
                        proof {
                            let kk = kept(links0, s.take(k), e);
                            assert(s.take(k + 1).drop_last() =~= s.take(k));
                            assert(s.take(k + 1).last() == x);
                            assert(lk.owner_at(x) == links0.owner_at(x));
                            assert(time_in(links0, x) > e);
                            assert(kept(links0, s.take(k + 1), e) == kk.push(x));
                            assert(expired(links0, s.take(k + 1), e) == expired(links0, s.take(k), e));
                            assert(wakers_in(links0, expired(links0, s.take(k + 1), e)) == wakers_in(
                                links0,
                                expired(links0, s.take(k), e),
                            ));
                            lemma_kept_sub(links0, s.take(k), e);
                            assert forall|j: int| 0 <= j < kk.len() implies #[trigger] time_in(self.links, kk[j])
                                == time_in(lk, kk[j]) by {
                                assert(kk.contains(kk[j]));
                                assert(s.take(k).contains(kk[j]));
                                let jj = choose|jj: int| 0 <= jj < k && s.take(k)[jj] == kk[j];
                                assert(s[jj] != s[k]);
                                assert(self.links.owner_at(kk[j]) == lq.owner_at(kk[j]));
                            }
                            lemma_min_time_frame(self.links, lk, kk);
                            assert(kk.push(x).drop_last() =~= kk);
                            assert(self.sleeping_timers.view_in(self.links) == kk.push(x));
                            assert forall|j: int| 0 <= j < k + 1 implies #[trigger] time_in(self.links, s[j]) == sat_sub(
                                time_in(links0, s[j]),
                                e,
                            ) by {
                                if j < k {
                                    assert(s[j] != s[k]);
                                    assert(self.links.owner_at(s[j]) == lk.owner_at(s[j]));
                                    assert(time_in(lk, s[j]) == sat_sub(time_in(links0, s[j]), e));
                                }
                            }
                            assert forall|j: int| 0 <= j < k + 1 implies #[trigger] self.links.owner_at(s[j]) is Some by {
                                if j < k {
                                    assert(s[j] != s[k]);
                                    assert(self.links.owner_at(s[j]) == lk.owner_at(s[j]));
                                    assert(lk.owner_at(s[j]) is Some);
                                }
                            }
                            assert forall|j: int| 0 <= j < k + 1 && time_in(links0, s[j]) <= e implies !(
                            #[trigger] self.links.owner_at(s[j])).unwrap().has_waker() by {
                                assert(j < k);
                                assert(s[j] != s[k]);
                                assert(self.links.owner_at(s[j]) == lk.owner_at(s[j]));
                                assert(!lk.owner_at(s[j]).unwrap().has_waker());
                            }
                            assert forall|j: int| k + 1 <= j < s.len() implies #[trigger] self.links.owner_at(s[j])
                                == links0.owner_at(s[j]) by {
                                assert(s[j] != s[k]);
                                assert(self.links.owner_at(s[j]) == lk.owner_at(s[j]));
                            }
                            assert forall|i: usize| i < links0.len() && !s.contains(i) implies #[trigger] self.links.owner_at(
                                i,
                            ) == links0.owner_at(i) by {
                                assert(i != s[k]);
                                assert(self.links.owner_at(i) == lk.owner_at(i));
                            }
                            assert forall|l: usize| #[trigger] old_self.is_delay_link(l) implies l < self.links.len()
                                && !self.links.is_sentinel(l) && self.links.owner_at(l) is Some by {
                                if l != x {
                                    assert(self.links.owner_at(l) == lk.owner_at(l));
                                }
                                self.links.lemma_standing(x);
                            }
                            assert(self.scratch.view_in(self.links) == s.skip(k + 1)) by {
                                assert(s.skip(k).drop_first() =~= s.skip(k + 1));
                            }
                        }
                    } else {
                        match w.waker.take() {
                            Some(wk) => {
                                let woken = wake(wk);
                                self.wakes.record(woken, Ghost(x));
                            },
                            None => {
                                proof {
                                    assert(links0.owner_at(s[k]).unwrap().has_waker());
                                    assert(false);
                                }
                            },
                        }
                        self.links.replace_owner(x, Some(w));
                        proof {
                            let kk = kept(links0, s.take(k), e);
                            assert(s.take(k + 1).drop_last() =~= s.take(k));
                            assert(s.take(k + 1).last() == x);
                            assert(lk.owner_at(x) == links0.owner_at(x));
                            assert(time_in(links0, x) <= e);
                            assert(kept(links0, s.take(k + 1), e) == kk);
                            assert(expired(links0, s.take(k + 1), e) == expired(links0, s.take(k), e).push(x));
                            assert(self.wakes.ids() =~= old_self.wakes.ids() + expired(links0, s.take(k + 1), e));
                            assert(wakers_in(links0, expired(links0, s.take(k + 1), e)) =~= wakers_in(
                                links0,
                                expired(links0, s.take(k), e),
                            ).push(waker_in(links0, x)));
                            assert(self.wakes.wakers() =~= old_self.wakes.wakers() + wakers_in(
                                links0,
                                expired(links0, s.take(k + 1), e),
                            ));
                            lemma_kept_sub(links0, s.take(k), e);
                            assert forall|j: int| 0 <= j < kk.len() implies #[trigger] time_in(self.links, kk[j])
                                == time_in(lk, kk[j]) by {
                                assert(kk.contains(kk[j]));
                                assert(s.take(k).contains(kk[j]));
                                let jj = choose|jj: int| 0 <= jj < k && s.take(k)[jj] == kk[j];
                                assert(s[jj] != s[k]);
                            }
                            lemma_min_time_frame(self.links, lk, kk);
                            assert forall|j: int| 0 <= j < k + 1 implies #[trigger] time_in(self.links, s[j]) == sat_sub(
                                time_in(links0, s[j]),
                                e,
                            ) by {
                                if j < k {
                                    assert(s[j] != s[k]);
                                    assert(time_in(lk, s[j]) == sat_sub(time_in(links0, s[j]), e));
                                }
                            }
                            assert forall|j: int| 0 <= j < k + 1 implies #[trigger] self.links.owner_at(s[j]) is Some by {
                                if j < k {
                                    assert(s[j] != s[k]);
                                    assert(lk.owner_at(s[j]) is Some);
                                }
                            }
                            assert forall|j: int| 0 <= j < k + 1 && time_in(links0, s[j]) <= e implies !(
                            #[trigger] self.links.owner_at(s[j])).unwrap().has_waker() by {
                                if j < k {
                                    assert(s[j] != s[k]);
                                    assert(!lk.owner_at(s[j]).unwrap().has_waker());
                                }
                            }
                            assert forall|j: int| k + 1 <= j < s.len() implies #[trigger] self.links.owner_at(s[j])
                                == links0.owner_at(s[j]) by {
                                assert(s[j] != s[k]);
                            }
                            assert forall|i: usize| i < links0.len() && !s.contains(i) implies #[trigger] self.links.owner_at(
                                i,
                            ) == links0.owner_at(i) by {
                                assert(i != s[k]);
                            }
                            assert forall|l: usize| #[trigger] old_self.is_delay_link(l) implies l < self.links.len()
                                && !self.links.is_sentinel(l) && self.links.owner_at(l) is Some by {
                                if l == x {
                                    lp.lemma_standing(x);
                                }
                            }
                            assert(self.scratch.view_in(self.links) == s.skip(k + 1)) by {
                                assert(s.skip(k).drop_first() =~= s.skip(k + 1));
                            }
                        }
                    }
                    proof {
                        k = k + 1;
                    }
                },
            }
        }
        proof {
            assert(s.take(k) =~= s);
            assert forall|l: usize| #[trigger] old_self.is_delay_link(l) implies self.is_delay_link(l) by {}
            let kk = kept(links0, s, e);
            lemma_kept_sub(links0, s, e);
            assert forall|m: int| 0 <= m < self.sleeping().len() implies #[trigger] self.links.owner_at(
                self.sleeping()[m],
            ) is Some by {
                assert(kk.contains(kk[m]));
                let jj = choose|jj: int| 0 <= jj < s.len() && s[jj] == kk[m];
                assert(self.links.owner_at(s[jj]) is Some);
            }
            assert forall|m: int| 0 <= m < self.sleeping().len() implies (#[trigger] self.links.owner_at(
                self.sleeping()[m],
            )).unwrap().has_waker() by {
                assert(kk.contains(kk[m]));
                let jj = choose|jj: int| 0 <= jj < s.len() && s[jj] == kk[m];
                lemma_kept_keeps(links0, s, e, jj);
                assert(time_in(links0, s[jj]) > e);
                assert((self.links.owner_at(s[jj])).unwrap().has_waker());
            }
            let n = old_self.new_timers();
            assert forall|m: int| 0 <= m < self.new_timers().len() implies #[trigger] self.links.owner_at(
                self.new_timers()[m],
            ) is Some && self.links.owner_at(self.new_timers()[m]).unwrap().has_waker() by {
                assert(links0.owner_at(n[m]) is Some);
                assert(links0.owner_at(n[m]).unwrap().has_waker());
                links0.lemma_members(old_self.new_timers.head_view().unwrap());
                assert(links0.is_member(n[m]));
                links0.lemma_standing(n[m]);
                assert(old_self.is_delay_link(n[m]));
                assert(!s.contains(n[m])) by {
                    if s.contains(n[m]) {
                        let jj = choose|jj: int| 0 <= jj < s.len() && s[jj] == n[m];
                        links0.lemma_members(old_self.sleeping_timers.head_view().unwrap());
                    }
                }
                assert(self.links.owner_at(n[m]) == links0.owner_at(n[m]));
            }
        }
        next
    }

    /// Takes in the delays started since the task last ran: each one with time left joins
    /// the back of the sleeping list, in order; one with no time left is woken and dropped
    /// from the lists. Returns the shortest time left among those taken in, if any.
    fn append_new_timers(&mut self) -> (r: Option<B::Duration>)
        requires
            old(self).wf(),
        ensures
            final(self).wf(),
            final(self).backend == old(self).backend,
            final(self).waker == old(self).waker,
            final(self).rc == old(self).rc,
            final(self).keeps_links(*old(self)),
            final(self).new_timers() == Seq::<usize>::empty(),
            final(self).sleeping() == old(self).sleeping() + kept(old(self).delays(), old(self).new_timers(), 0),
            forall|i: usize| i < old(self).delays().len() ==> #[trigger] final(self).delays().owner_at(i)
                == old(self).delays().owner_at(i),
            opt_ticks(r) == min_time(old(self).delays(), kept(old(self).delays(), old(self).new_timers(), 0)),
            final(self).delay_wakes() == old(self).delay_wakes() + expired(old(self).delays(), old(self).new_timers(), 0),
            final(self).delay_woken() == old(self).delay_woken() + wakers_in(
                old(self).delays(),
                expired(old(self).delays(), old(self).new_timers(), 0),
            ),
            final(self).runner_wakes == old(self).runner_wakes,
            final(self).requested == old(self).requested,
            final(self).reported == old(self).reported,
    {
        let ghost links0 = self.links;
        let ghost n = self.new_timers();
        let ghost s0 = self.sleeping();
        let ghost old_self = *self;
        proof {
            if self.new_timers.head_view() is Some {
                links0.lemma_members(self.new_timers.head_view().unwrap());
            }
        }
        self.new_timers.move_to_front_of(&mut self.links, &mut self.scratch);
        proof {
            if old_self.sleeping_timers.head_view() is Some {
                let g = old_self.sleeping_timers.head_view().unwrap();
                assert(links0.has_list(g));
                assert(g != self.new_timers.head_view().unwrap());
                assert(g != self.scratch.head_view().unwrap());
                assert(self.links.members(g) == links0.members(g));
            }
            assert(self.scratch.view_in(self.links) =~= n);
            assert(self.new_timers.view_in(self.links).len() == 0);
            assert(self.sleeping_timers.view_in(self.links) == s0);
            assert(kept(links0, n.take(0), 0) =~= Seq::<usize>::empty());
            assert(expired(links0, n.take(0), 0) =~= Seq::<usize>::empty());
            assert(self.wakes.ids() =~= old_self.wakes.ids() + expired(links0, n.take(0), 0));
            assert(self.wakes.wakers() =~= old_self.wakes.wakers() + wakers_in(links0, expired(links0, n.take(0), 0)));
            assert(s0 + Seq::<usize>::empty() =~= s0);
            assert forall|l: usize| #[trigger] old_self.is_delay_link(l) implies l < self.links.len()
                && !self.links.is_sentinel(l) by {
                assert(l < links0.len());
                assert(self.links.owner_at(l) == links0.owner_at(l));
            }
            assert(n.skip(0) =~= n);
        }
        let mut next: Option<B::Duration> = None;
        let ghost mut k: int = 0;
        loop
            invariant
                self.links.wf(),
                self.sleeping_timers.wf_in(self.links),
                self.new_timers.wf_in(self.links),
                self.scratch.wf_in(self.links),
                self.new_timers.head_view() is Some,
                self.scratch.head_view() is Some,
                apart(self.sleeping_timers.head_view(), self.new_timers.head_view()),
                apart(self.sleeping_timers.head_view(), self.scratch.head_view()),
                apart(self.new_timers.head_view(), self.scratch.head_view()),
                forall|g: usize| #[trigger] self.links.has_list(g) ==> Some(g) == self.sleeping_timers.head_view()
                    || Some(g) == self.new_timers.head_view() || Some(g) == self.scratch.head_view(),
                self.backend == old(self).backend,
                self.waker == old(self).waker,
                self.rc == old(self).rc,
                n == old_self.new_timers(),
                s0 == old_self.sleeping(),
                links0 == old_self.delays(),
                n.no_duplicates(),
                forall|j: int| 0 <= j < n.len() ==> #[trigger] n[j] < links0.len(),
                forall|j: int| 0 <= j < n.len() ==> #[trigger] links0.owner_at(n[j]) is Some,
                forall|j: int| 0 <= j < s0.len() ==> #[trigger] links0.owner_at(s0[j]) is Some,
                self.links.len() >= links0.len(),
                0 <= k <= n.len(),
                self.scratch.view_in(self.links) == n.skip(k),
                self.sleeping_timers.view_in(self.links) == s0 + kept(links0, n.take(k), 0),
                self.new_timers.view_in(self.links).len() == 0,
                forall|i: usize| i < links0.len() ==> #[trigger] self.links.owner_at(i) == links0.owner_at(i),
                forall|l: usize| #[trigger] old_self.is_delay_link(l) ==> l < self.links.len() && !self.links.is_sentinel(l),
                opt_ticks(next) == min_time(links0, kept(links0, n.take(k), 0)),
                forall|j: int| 0 <= j < n.len() ==> (#[trigger] links0.owner_at(n[j])).unwrap().has_waker(),
                self.wakes.ids() == old_self.wakes.ids() + expired(links0, n.take(k), 0),
                self.wakes.wakers() == old_self.wakes.wakers() + wakers_in(links0, expired(links0, n.take(k), 0)),
                self.runner_wakes == old(self).runner_wakes,
                self.requested == old(self).requested,
                self.reported == old(self).reported,
            ensures
                k == n.len(),
                self.scratch.view_in(self.links).len() == 0,
            decreases n.len() - k,
        {
            let ghost lk = self.links;
            let popped = self.scratch.pop_front(&mut self.links);
            match popped {
                None => {
                    proof {
                        assert(self.links == lk);
                        if k < n.len() {
                            assert(n.skip(k).len() > 0);
                        }
                    }
                    break;
                },
                Some(x) => {
                    proof {
                        assert(x == n[k]);
                        self.links.lemma_standing(x);
                        assert(self.links.owner_at(x) == links0.owner_at(x));
                    }
                    let t = match self.links.owner(x) {
                        Some(w) => w.time_until_timeout,
                        None => {
                            proof {
                                assert(false);
                            }
                            break;
                        },
                    };
                    let ghost lp = self.links;
                    proof {
                        assert(t.ticks() == time_in(links0, x));
                        assert(s0 + kept(links0, n.take(k), 0) == self.sleeping_timers.view_in(lp));
                        assert(n.take(k + 1).drop_last() =~= n.take(k));
                        assert(n.take(k + 1).last() == x);
                        assert(n.skip(k).drop_first() =~= n.skip(k + 1));
                    }
                    if !t.is_zero() {
                        let owner = self.links.replace_owner(x, None);
                        let w = match owner {
                            Some(w) => w,
                            None => {
                                proof {
                                    assert(false);
                                }
                                break;
                            },
                        };
                        let ghost lq = self.links;
                        proof {
                            lq.lemma_standing(x);
                        }
                        self.sleeping_timers.push_link_back(&mut self.links, w, x);
                        next = match next {
                            Some(c) => Some(c.min(&t)),
                            None => Some(t),
                        };
                        proof {
                            let kk = kept(links0, n.take(k), 0);
                            assert(kept(links0, n.take(k + 1), 0) == kk.push(x));
                            assert(expired(links0, n.take(k + 1), 0) == expired(links0, n.take(k), 0));
                            assert(wakers_in(links0, expired(links0, n.take(k + 1), 0)) == wakers_in(
                                links0,
                                expired(links0, n.take(k), 0),
                            ));
                            assert(kk.push(x).drop_last() =~= kk);
                            assert(s0 + kk.push(x) =~= (s0 + kk).push(x));
                            assert forall|i: usize| i < links0.len() implies #[trigger] self.links.owner_at(i)
                                == links0.owner_at(i) by {
                                if i != x {
                                    assert(self.links.owner_at(i) == lq.owner_at(i));
                                    assert(lq.owner_at(i) == lp.owner_at(i));
                                }
                            }
                            assert forall|l: usize| #[trigger] old_self.is_delay_link(l) implies l < self.links.len()
                                && !self.links.is_sentinel(l) by {
                                if l != x {
                                    assert(l < links0.len());
                                    assert(!lk.is_sentinel(l));
                                    assert(lp.owner_at(l) == lk.owner_at(l));
                                    assert(lp.is_sentinel(l) == lk.is_sentinel(l));
                                    assert(lq.is_sentinel(l) == lp.is_sentinel(l));
                                    assert(self.links.owner_at(l) == lq.owner_at(l));
                                    assert(self.links.is_sentinel(l) == lq.is_sentinel(l));
                                }
                                self.links.lemma_standing(x);
                            }
                        }
                    } else {
                        match self.links.owner(x) {
                            Some(w) => {
                                match &w.waker {
                                    Some(wk) => {
                                        let woken = wake_by_ref(wk);
                                        self.wakes.record(woken, Ghost(x));
                                    },
                                    None => {
                                        proof {
                                            assert(links0.owner_at(n[k]).unwrap().has_waker());
                                            assert(false);
                                        }
                                    },
                                }
                            },
                            None => {
                                proof {
                                    assert(false);
                                }
                            },
                        }
                        proof {
                            let kk = kept(links0, n.take(k), 0);
                            assert(kept(links0, n.take(k + 1), 0) == kk);
                            assert(expired(links0, n.take(k + 1), 0) == expired(links0, n.take(k), 0).push(x));
                            assert(self.wakes.ids() =~= old_self.wakes.ids() + expired(links0, n.take(k + 1), 0));
                            assert(wakers_in(links0, expired(links0, n.take(k + 1), 0)) =~= wakers_in(
                                links0,
                                expired(links0, n.take(k), 0),
                            ).push(waker_in(links0, x)));
                            assert(self.wakes.wakers() =~= old_self.wakes.wakers() + wakers_in(
                                links0,
                                expired(links0, n.take(k + 1), 0),
                            ));
                            assert forall|l: usize| #[trigger] old_self.is_delay_link(l) implies l < self.links.len()
                                && !self.links.is_sentinel(l) by {
                                lp.lemma_standing(x);
                                if l != x {
                                    assert(lp.owner_at(l) == lk.owner_at(l));
                                }
                            }
                        }
                    }
                    proof {
                        k = k + 1;
                    }
                },
            }
        }
        proof {
            assert(n.take(k) =~= n);
            let kk = kept(links0, n, 0);
            lemma_kept_sub(links0, n, 0);
            assert forall|l: usize| #[trigger] old_self.is_delay_link(l) implies self.is_delay_link(l) by {
                assert(self.links.owner_at(l) == links0.owner_at(l));
            }
            assert forall|m: int| 0 <= m < self.sleeping().len() implies #[trigger] self.links.owner_at(
                self.sleeping()[m],
            ) is Some by {
                let sl = self.sleeping();
                if m < s0.len() {
                    assert(sl[m] == s0[m]);
                    links0.lemma_members(old_self.sleeping_timers.head_view().unwrap());
                    assert(s0[m] < links0.len());
                    assert(links0.owner_at(s0[m]) is Some);
                    assert(self.links.owner_at(s0[m]) == links0.owner_at(s0[m]));
                } else {
                    assert(sl[m] == kk[m - s0.len()]);
                    assert(kk.contains(kk[m - s0.len()]));
                    let jj = choose|jj: int| 0 <= jj < n.len() && n[jj] == kk[m - s0.len()];
                    assert(links0.owner_at(n[jj]) is Some);
                    assert(self.links.owner_at(n[jj]) == links0.owner_at(n[jj]));
                }
            }
            assert forall|m: int| 0 <= m < self.sleeping().len() implies (#[trigger] self.links.owner_at(
                self.sleeping()[m],
            )).unwrap().has_waker() by {
                let sl = self.sleeping();
                if m < s0.len() {
                    assert(sl[m] == s0[m]);
                    links0.lemma_members(old_self.sleeping_timers.head_view().unwrap());
                    assert(s0[m] < links0.len());
                    assert(links0.owner_at(s0[m]).unwrap().has_waker());
                    assert(self.links.owner_at(s0[m]) == links0.owner_at(s0[m]));
                } else {
                    assert(sl[m] == kk[m - s0.len()]);
                    assert(kk.contains(kk[m - s0.len()]));
                    let jj = choose|jj: int| 0 <= jj < n.len() && n[jj] == kk[m - s0.len()];
                    assert(links0.owner_at(n[jj]).unwrap().has_waker());
                    assert(self.links.owner_at(n[jj]) == links0.owner_at(n[jj]));
                }
            }
        }
        next
    }

    /// The shortest time still to wait among the sleeping delays, if there is any.
    fn min_sleeping(&self) -> (r: Option<B::Duration>)
        requires
            self.wf(),
        ensures
            opt_ticks(r) == min_time(self.delays(), self.sleeping()),
    {
        let ghost s = self.sleeping();
        let mut it = self.sleeping_timers.iter(&self.links);
        let mut next: Option<B::Duration> = None;
        let ghost mut k: int = 0;
        proof {
            assert(s.take(0) =~= Seq::<usize>::empty());
            assert(s.skip(0) =~= s);
        }
        loop
            invariant
                self.wf(),
                s == self.sleeping(),
                it.valid_for(self.links),
                0 <= k <= s.len(),
                it.remaining() == s.skip(k),
                opt_ticks(next) == min_time(self.links, s.take(k)),
            ensures
                k == s.len(),
            decreases s.len() - k,
        {
            match it.next(&self.links) {
                None => {
                    proof {
                        if k < s.len() {
                            assert(s.skip(k).len() > 0);
                        }
                    }
                    break;
                },
                Some(x) => {
                    proof {
                        assert(x == s[k]);
                        if self.sleeping_timers.head_view() is Some {
                            self.links.lemma_members(self.sleeping_timers.head_view().unwrap());
                        }
                        assert(self.links.owner_at(s[k]) is Some);
                    }
                    match self.links.owner(x) {
                        Some(w) => {
                            let t = w.time_until_timeout;
                            next = match next {
                                Some(c) => Some(c.min(&t)),
                                None => Some(t),
                            };
                        },
                        None => {
                            proof {
                                assert(false);
                            }
                        },
                    }
                    proof {
                        assert(s.take(k + 1).drop_last() =~= s.take(k));
                        assert(s.take(k + 1).last() == x);
                        assert(s.skip(k).drop_first() =~= s.skip(k + 1));
                        k = k + 1;
                    }
                },
            }
        }
        proof {
            assert(s.take(k) =~= s);
        }
        next
    }

    /// One round of the timer task after the backend reported `elapsed`: the sleeping
    /// delays lose `elapsed`, those that ran out are woken and dropped, and the delays
    /// started since join the back of the sleeping list. Returns the shortest time left
    /// among the sleeping delays, which the backend is to wait next.
    pub fn process(&mut self, elapsed: B::Duration) -> (r: Option<B::Duration>)
        requires
            old(self).wf(),
        ensures
            final(self).same_state(*old(self)),
            final(self).after_round(*old(self), elapsed.ticks()),
            final(self).reported_elapsed() == old(self).reported_elapsed(),
            opt_ticks(r) == min_time(final(self).delays(), final(self).sleeping()),
            elapsed.ticks() > 0 ==> forall|k: int|
                0 <= k < final(self).sleeping().len() ==> #[trigger] final(self).time_of(final(self).sleeping()[k]) > 0,
    {
        let ghost l0 = self.links;
        let ghost s = self.sleeping();
        let ghost n = self.new_timers();
        let ghost e = elapsed.ticks();
        let ghost old_self = *self;
        proof {
            if self.sleeping_timers.head_view() is Some {
                l0.lemma_members(self.sleeping_timers.head_view().unwrap());
            }
            if self.new_timers.head_view() is Some {
                l0.lemma_members(self.new_timers.head_view().unwrap());
            }
            assert forall|i: int, j: int| 0 <= i < s.len() && 0 <= j < n.len() implies s[i] != n[j] by {
                if s[i] == n[j] {
                    assert(l0.list_of(s[i]) == self.sleeping_timers.head_view().unwrap());
                }
            }
        }
        let next = if !elapsed.is_zero() {
            self.update_sleeping_timers(&elapsed)
        } else {
            self.min_sleeping()
        };
        let ghost l1 = self.links;
        let ghost t1 = *self;
        let ghost a = self.sleeping();
        proof {
            assert(a == after_elapsed(l0, s, e));
            assert(self.new_timers() == n);
            assert forall|k: int| 0 <= k < n.len() implies #[trigger] time_in(l1, n[k]) == time_in(l0, n[k]) by {
                assert(!s.contains(n[k]));
                assert(l1.owner_at(n[k]) == l0.owner_at(n[k]));
            }
            lemma_kept_frame(l1, l0, n, 0);
            if self.sleeping_timers.head_view() is Some {
                l1.lemma_members(self.sleeping_timers.head_view().unwrap());
            }
            let x0 = expired(l0, n, 0);
            lemma_expired_sub(l0, n, 0);
            assert forall|k: int| 0 <= k < x0.len() implies #[trigger] waker_in(l1, x0[k]) == waker_in(l0, x0[k]) by {
                assert(x0.contains(x0[k]));
                let j = choose|j: int| 0 <= j < n.len() && n[j] == x0[k];
                assert(!s.contains(n[j]));
                assert(l1.owner_at(n[j]) == l0.owner_at(n[j]));
            }
            assert(wakers_in(l1, x0) =~= wakers_in(l0, x0));
            if e == 0 {
                assert(old_self.delay_wakes() + Seq::<usize>::empty() =~= old_self.delay_wakes());
            }
        }
        let fresh = self.append_new_timers();
        let ghost l2 = self.links;
        let ghost b = kept(l0, n, 0);
        proof {
            assert(self.delay_wakes() =~= old_self.delay_wakes() + old_self.round_wakes(e));
            let rs = if e == 0 {
                Seq::<usize>::empty()
            } else {
                expired(l0, s, e)
            };
            assert(old_self.round_wakes(e) == rs + expired(l0, n, 0));
            assert(wakers_in(l0, rs + expired(l0, n, 0)) =~= wakers_in(l0, rs) + wakers_in(l0, expired(l0, n, 0)));
            assert(self.delay_woken() =~= old_self.delay_woken() + wakers_in(l0, old_self.round_wakes(e)));
            lemma_kept_sub(l0, n, 0);
            assert forall|k: int| 0 <= k < a.len() implies #[trigger] time_in(l2, a[k]) == time_in(l1, a[k]) by {
                assert(l2.owner_at(a[k]) == l1.owner_at(a[k]));
            }
            lemma_min_time_frame(l2, l1, a);
            assert forall|k: int| 0 <= k < b.len() implies #[trigger] time_in(l2, b[k]) == time_in(l1, b[k]) by {
                assert(b.contains(b[k]));
                let jj = choose|jj: int| 0 <= jj < n.len() && n[jj] == b[k];
                assert(l2.owner_at(n[jj]) == l1.owner_at(n[jj]));
            }
            lemma_min_time_frame(l2, l1, b);
            lemma_min_time_concat(l2, a, b);
            assert forall|k: int| 0 <= k < s.len() implies #[trigger] time_in(l2, s[k]) == sat_sub(time_in(l0, s[k]), e) by {
                assert(l2.owner_at(s[k]) == l1.owner_at(s[k]));
                if e > 0 {
                    assert(t1.time_of(s[k]) == sat_sub(old_self.time_of(s[k]), e));
                }
            }
            assert forall|k: int| 0 <= k < n.len() implies #[trigger] time_in(l2, n[k]) == time_in(l0, n[k]) by {
                assert(!s.contains(n[k]));
                assert(l1.owner_at(n[k]) == l0.owner_at(n[k]));
                assert(l2.owner_at(n[k]) == l1.owner_at(n[k]));
            }
            if e > 0 {
                let fin = self.sleeping();
                assert(fin == a + b);
                assert forall|m: int| 0 <= m < fin.len() implies #[trigger] time_in(l2, fin[m]) > 0 by {
                    if m < a.len() {
                        lemma_kept_sub(l0, s, e);
                        assert(a.contains(a[m]));
                        let jj = choose|jj: int| 0 <= jj < s.len() && s[jj] == a[m];
                        lemma_kept_keeps(l0, s, e, jj);
                        assert(time_in(l2, s[jj]) == sat_sub(time_in(l0, s[jj]), e));
                    } else {
                        let mb = m - a.len();
                        assert(fin[m] == b[mb]);
                        assert(b.contains(b[mb]));
                        let jj = choose|jj: int| 0 <= jj < n.len() && n[jj] == b[mb];
                        lemma_kept_keeps(l0, n, 0, jj);
                        assert(time_in(l2, n[jj]) == time_in(l0, n[jj]));
                    }
                }
            }
            assert forall|k: int|
                0 <= k < s.len() && e > 0 && time_in(l0, s[k]) <= e implies !#[trigger] self.has_waker(s[k]) by {
                assert(l2.owner_at(s[k]) == l1.owner_at(s[k]));
                assert(old_self.time_of(s[k]) <= e);
                assert(!t1.has_waker(s[k]));
            }
        }
        match next {
            Some(x) => match fresh {
                Some(y) => Some(x.min(&y)),
                None => Some(x),
            },
            None => fresh,
        }
    }

    fn pause_backend(&mut self) -> (r: B::Duration)
        requires
            old(self).has_backend(),
        ensures
            final(self).has_backend(),
            final(self).links == old(self).links,
            final(self).sleeping_timers == old(self).sleeping_timers,
            final(self).new_timers == old(self).new_timers,
            final(self).scratch == old(self).scratch,
            final(self).rc == old(self).rc,
            final(self).waker == old(self).waker,
            final(self).requested == old(self).requested,
            final(self).wakes == old(self).wakes,
            final(self).runner_wakes == old(self).runner_wakes,
            final(self).reported_elapsed() == r.ticks(),
    {
        let elapsed = match &mut self.backend {
            Some(b) => b.pause(),
            None => {
                proof {
                    assert(false);
                }
                B::Duration::zero()
            },
        };
        self.reported = Ghost(elapsed.ticks());
        elapsed
    }

    /// Starts the backend: it is to wake `waker` once `dur` has elapsed. The request is
    /// recorded.
    fn start_backend(&mut self, waker: core::task::Waker, dur: B::Duration)
        requires
            old(self).has_backend(),
        ensures
            final(self).round_request() == Some(dur.ticks()),
            final(self).has_backend(),
            final(self).links == old(self).links,
            final(self).sleeping_timers == old(self).sleeping_timers,
            final(self).new_timers == old(self).new_timers,
            final(self).scratch == old(self).scratch,
            final(self).rc == old(self).rc,
            final(self).waker == old(self).waker,
            final(self).wakes == old(self).wakes,
            final(self).runner_wakes == old(self).runner_wakes,
            final(self).reported == old(self).reported,
    {
        match &mut self.backend {
            Some(b) => b.wake_in(waker, dur),
            None => {
                proof {
                    assert(false);
                }
            },
        }
        self.requested = Ghost(Some(dur.ticks()));
    }
}

impl<B: TimerBackend> Timer<B> {
    /// Counts one more handle.
    fn add_handle(&mut self) -> (r: RcRef<()>)
        requires
            old(self).wf(),
            old(self).is_split(),
            old(self).handles() < u32::MAX,
        ensures
            final(self).wf(),
            final(self).is_split(),
            final(self).handles() == old(self).handles() + 1,
            final(self).tasks() == old(self).tasks(),
            final(self).has_backend() == old(self).has_backend(),
            final(self).runner_waker() == old(self).runner_waker(),
            final(self).links == old(self).links,
            final(self).sleeping_timers == old(self).sleeping_timers,
            final(self).new_timers == old(self).new_timers,
            final(self).scratch == old(self).scratch,
            final(self).wakes == old(self).wakes,
            final(self).runner_wakes == old(self).runner_wakes,
            final(self).backend == old(self).backend,
    {
        match &mut self.rc {
            Some(pair) => pair.0.get_ref(),
            None => {
                proof {
                    assert(false);
                }
                RcRef::dangling()
            },
        }
    }

    /// Counts one handle less. When it was the last, the task is woken so that it can
    /// finish.
    fn drop_handle(&mut self, handle: RcRef<()>)
        requires
            old(self).wf(),
            old(self).is_split(),
            old(self).handles() > 0,
        ensures
            final(self).wf(),
            final(self).is_split(),
            final(self).handles() == old(self).handles() - 1,
            final(self).tasks() == old(self).tasks(),
            final(self).has_backend() == old(self).has_backend(),
            final(self).runner_waker() == old(self).runner_waker(),
            final(self).links == old(self).links,
            final(self).sleeping_timers == old(self).sleeping_timers,
            final(self).new_timers == old(self).new_timers,
            final(self).scratch == old(self).scratch,
            final(self).handle_dropped(*old(self)),
            final(self).backend == old(self).backend,
    {
        match &mut self.rc {
            Some(pair) => {
                if handle.ref_count(&pair.0) == 1 {
                    match &self.waker {
                        Some(w) => {
                            let woken = wake_by_ref(w);
                            self.runner_wakes.record(woken, Ghost(0));
                        },
                        None => {},
                    }
                }
                handle.release(&mut pair.0);
            },
            None => {
                proof {
                    assert(false);
                }
            },
        }
    }

    /// Gives the link `l` of a delay future that is gone back for reuse, once it is in no
    /// list.
    fn recycle_delay_link(&mut self, l: usize)
        requires
            old(self).wf(),
            l < old(self).links.len(),
        ensures
            final(self).wf(),
            final(self).keeps_links_but(*old(self), l),
            final(self).sleeping() == old(self).sleeping(),
            final(self).new_timers() == old(self).new_timers(),
            forall|i: usize| i < old(self).delays().len() && i != l ==> #[trigger] final(self).time_of(i) == old(self).time_of(i),
            final(self).backend == old(self).backend,
            final(self).waker == old(self).waker,
            final(self).rc == old(self).rc,
            final(self).wakes == old(self).wakes,
            final(self).runner_wakes == old(self).runner_wakes,
            final(self).requested == old(self).requested,
            final(self).reported == old(self).reported,
    {
        let ghost links0 = self.links;
        proof {
            if self.sleeping_timers.head_view() is Some {
                links0.lemma_members(self.sleeping_timers.head_view().unwrap());
            }
            if self.new_timers.head_view() is Some {
                links0.lemma_members(self.new_timers.head_view().unwrap());
            }
        }
        self.links.recycle(l);
        proof {
            assert forall|k: int| 0 <= k < self.sleeping().len() implies #[trigger] self.links.owner_at(self.sleeping()[k])
                == links0.owner_at(self.sleeping()[k]) by {
                let x = self.sleeping()[k];
                links0.lemma_standing(x);
                if links0.is_detached(l) {
                    assert(x != l);
                }
            }
            assert forall|k: int| 0 <= k < self.new_timers().len() implies #[trigger] self.links.owner_at(
                self.new_timers()[k],
            ) == links0.owner_at(self.new_timers()[k]) by {
                let x = self.new_timers()[k];
                links0.lemma_standing(x);
                if links0.is_detached(l) {
                    assert(x != l);
                }
            }
            assert forall|i: usize| #[trigger] old(self).is_delay_link(i) && i != l implies self.is_delay_link(i) by {
                assert(self.links.owner_at(i) == links0.owner_at(i));
            }
            assert forall|i: usize| i < links0.len() && i != l implies #[trigger] self.time_of(i) == old(self).time_of(i) by {
                assert(self.links.owner_at(i) == links0.owner_at(i));
            }
        }
    }

    /// A sleeping delay holds a waker, the one `waker_in` names.
    pub proof fn lemma_stored_waker(&self, l: usize)
        requires
            self.wf(),
            self.sleeping().contains(l),
        ensures
            self.stored_waker(l) is Some,
            self.stored_waker(l).unwrap() == waker_in(self.delays(), l),
    {
        let k = choose|k: int| 0 <= k < self.sleeping().len() && self.sleeping()[k] == l;
        assert(self.links.owner_at(self.sleeping()[k]) is Some);
        assert(self.links.owner_at(self.sleeping()[k]).unwrap().has_waker());
    }

    /// A delay without a waker is in none of the timer's lists.
    pub proof fn lemma_idle_not_listed(&self, l: usize)
        requires
            self.wf(),
            self.is_delay_link(l),
            !self.has_waker(l),
        ensures
            !self.sleeping().contains(l),
            !self.new_timers().contains(l),
    {
        if self.sleeping().contains(l) {
            let k = choose|k: int| 0 <= k < self.sleeping().len() && self.sleeping()[k] == l;
            assert(self.links.owner_at(self.sleeping()[k]).unwrap().has_waker());
        }
        if self.new_timers().contains(l) {
            let k = choose|k: int| 0 <= k < self.new_timers().len() && self.new_timers()[k] == l;
            assert(self.links.owner_at(self.new_timers()[k]).unwrap().has_waker());
        }
    }

    /// A member of the timer's lists is a sleeping or a new delay.
    proof fn lemma_member_listed(&self, l: usize)
        requires
            self.wf(),
            self.links.is_member(l),
        ensures
            self.sleeping().contains(l) || self.new_timers().contains(l),
            self.sleeping().contains(l) ==> self.links.list_of(l) == self.sleeping_timers.head_view().unwrap(),
            self.new_timers().contains(l) ==> self.links.list_of(l) == self.new_timers.head_view().unwrap(),
            !(self.sleeping().contains(l) && self.new_timers().contains(l)),
    {
        self.links.lemma_member_in_list(l);
        let g = self.links.list_of(l);
        if Some(g) == self.scratch.head_view() {
            assert(self.links.members(g).len() == 0);
        }
        if self.sleeping_timers.head_view() is Some {
            let h = self.sleeping_timers.head_view().unwrap();
            self.links.lemma_members(h);
            if self.sleeping().contains(l) {
                let k = choose|k: int| 0 <= k < self.sleeping().len() && self.sleeping()[k] == l;
                assert(self.links.list_of(self.links.members(h)[k]) == h);
            }
        }
        if self.new_timers.head_view() is Some {
            let h = self.new_timers.head_view().unwrap();
            self.links.lemma_members(h);
            if self.new_timers().contains(l) {
                let k = choose|k: int| 0 <= k < self.new_timers().len() && self.new_timers()[k] == l;
                assert(self.links.list_of(self.links.members(h)[k]) == h);
            }
        }
    }
}

/// The ticks counted off in a run of rounds, in total.
pub open spec fn total(es: Seq<nat>) -> nat
    decreases es.len(),
{
    if es.len() == 0 {
        0
    } else {
        total(es.drop_last()) + es.last()
    }
}

impl<B: TimerBackend> Timer<B> {
    /// The delay of link `l` is sleeping; its position in the list is `k`.
    proof fn lemma_sleeping_at(&self, l: usize) -> (k: int)
        requires
            self.wf(),
            self.sleeping().contains(l),
        ensures
            0 <= k < self.sleeping().len(),
            self.sleeping()[k] == l,
            self.sleeping().no_duplicates(),
            !self.new_timers().contains(l),
    {
        let h = self.sleeping_timers.head_view().unwrap();
        self.links.lemma_members(h);
        let k = choose|k: int| 0 <= k < self.sleeping().len() && self.sleeping()[k] == l;
        assert(self.links.is_member(self.sleeping()[k]));
        self.lemma_member_listed(l);
        k
    }
}

/// A sleeping delay stays asleep, its time left going down by the ticks counted off, as
/// long as fewer ticks than it had left have been counted off in total; in the round in
/// which the total reaches its time left it is woken and leaves the sleeping list. `ts`
/// are the timer's states before and after each round, `es` the ticks each round counted
/// off.
pub proof fn law_delay_runs_out<B: TimerBackend>(ts: Seq<Timer<B>>, es: Seq<nat>, l: usize)
    requires
        ts.len() == es.len() + 1,
        ts[0].wf(),
        ts[0].sleeping().contains(l),
        forall|i: int| 0 <= i < es.len() ==> ts[i + 1].after_round(ts[i], #[trigger] es[i]),
    ensures
        total(es) < ts[0].time_of(l) ==> ts.last().sleeping().contains(l) && ts.last().time_of(l) == ts[0].time_of(l)
            - total(es),
        es.len() > 0 && es.last() > 0 && total(es.drop_last()) < ts[0].time_of(l) <= total(es) ==> !ts.last().sleeping().contains(
            l,
        ) && !ts.last().has_waker(l),
    decreases es.len(),
{
    if es.len() > 0 {
        let n = es.len() - 1;
        let ts0 = ts.drop_last();
        let es0 = es.drop_last();
        assert forall|i: int| 0 <= i < es0.len() implies ts0[i + 1].after_round(ts0[i], #[trigger] es0[i]) by {
            assert(es0[i] == es[i]);
            assert(ts[i + 1].after_round(ts[i], es[i]));
        }
        law_delay_runs_out(ts0, es0, l);
        let t0 = ts[0].time_of(l);
        let prev = ts[n];
        let next = ts[n + 1];
        let e = es[n];
        assert(next.after_round(prev, e));
        assert(total(es) == total(es0) + e);
        if total(es0) < t0 {
            assert(prev.sleeping().contains(l));
            assert(prev.time_of(l) == t0 - total(es0));
            if n > 0 {
                assert(ts[n].after_round(ts[n - 1], es[n - 1]));
            }
            assert(prev.wf());
            let s = prev.sleeping();
            let k = prev.lemma_sleeping_at(l);
            assert(next.time_of(s[k]) == sat_sub(prev.time_of(s[k]), e));
            let a = after_elapsed(prev.delays(), s, e);
            let b = kept(prev.delays(), prev.new_timers(), 0);
            assert(next.sleeping() == a + b);
            if total(es) < t0 {
                if e > 0 {
                    lemma_kept_keeps(prev.delays(), s, e, k);
                }
                assert(a.contains(l));
                let j = choose|j: int| 0 <= j < a.len() && a[j] == l;
                assert((a + b)[j] == l);
            } else if e > 0 {
                assert(!next.has_waker(s[k]));
                lemma_kept_keeps(prev.delays(), s, e, k);
                assert(!a.contains(l));
                lemma_kept_sub(prev.delays(), prev.new_timers(), 0);
                assert(!b.contains(l));
                if (a + b).contains(l) {
                    let j = choose|j: int| 0 <= j < (a + b).len() && (a + b)[j] == l;
                    if j < a.len() {
                        assert(a[j] == l);
                    } else {
                        assert(b[j - a.len()] == l);
                    }
                }
            }
        }
    }
}

/// The task half of a timer.
pub struct TimerTask<B: TimerBackend> {
    timer: RcRef<()>,
    marker: core::marker::PhantomData<B>,
}

impl<B: TimerBackend> TimerTask<B> {
    /// One poll of the timer task. Once no handle is left the task is done. Otherwise it
    /// keeps `waker` to be woken when a delay starts, pauses the backend, counts the
    /// time the backend reports off the sleeping delays (see `Timer::process`) and
    /// starts the backend again for the shortest time left, if any delay sleeps. The
    /// task is then pending: it never finishes while handles are left.
    pub fn poll(&self, timer: &mut Timer<B>, waker: &core::task::Waker) -> (r: Poll<()>)
        requires
            old(timer).wf(),
            old(timer).is_split(),
            old(timer).handles() > 0 ==> old(timer).has_backend(),
        ensures
            final(timer).wf(),
            final(timer).keeps_links(*old(timer)),
            old(timer).handles() == 0 ==> r == Poll::Ready(()) && *final(timer) == *old(timer),
            old(timer).handles() > 0 ==> {
                &&& r == Poll::<()>::Pending
                &&& final(timer).runner_waker() is Some
                &&& (final(timer).runner_waker() matches Some(w) && cloned(*waker, w))
                &&& final(timer).has_backend()
                &&& final(timer).is_split()
                &&& final(timer).handles() == old(timer).handles()
                &&& final(timer).tasks() == old(timer).tasks()
                &&& final(timer).after_round(*old(timer), final(timer).reported_elapsed())
                &&& final(timer).round_request() == min_time(final(timer).delays(), final(timer).sleeping())
            },
    {
        let count = match &timer.rc {
            Some(pair) => pair.0.ref_count(),
            None => 0,
        };
        if count == 0 {
            return Poll::Ready(());
        }
        timer.waker = Some(clone_waker(waker));
        let elapsed = timer.pause_backend();
        let ghost mid = *timer;
        let next = timer.process(elapsed);
        let ghost after = *timer;
        timer.requested = Ghost(None);
        match next {
            Some(d) => timer.start_backend(clone_waker(waker), d),
            None => {},
        }
        proof {
            assert(mid.delays() == old(timer).delays());
            assert(mid.sleeping() == old(timer).sleeping());
            assert(mid.new_timers() == old(timer).new_timers());
            assert(mid.delay_wakes() == old(timer).delay_wakes());
            assert(mid.runner_wakes() == old(timer).runner_wakes());
            assert forall|l: usize| #[trigger] old(timer).is_delay_link(l) implies timer.is_delay_link(l) by {
                assert(mid.is_delay_link(l));
                assert(after.is_delay_link(l));
            }
            let e = elapsed.ticks();
            assert forall|k: int| 0 <= k < old(timer).sleeping().len() implies #[trigger] timer.time_of(
                old(timer).sleeping()[k],
            ) == sat_sub(old(timer).time_of(old(timer).sleeping()[k]), e) by {
                assert(after.time_of(mid.sleeping()[k]) == sat_sub(mid.time_of(mid.sleeping()[k]), e));
            }
            assert forall|k: int| 0 <= k < old(timer).new_timers().len() implies #[trigger] timer.time_of(
                old(timer).new_timers()[k],
            ) == old(timer).time_of(old(timer).new_timers()[k]) by {
                assert(after.time_of(mid.new_timers()[k]) == mid.time_of(mid.new_timers()[k]));
            }
            assert forall|k: int|
                0 <= k < old(timer).sleeping().len() && e > 0 && old(timer).time_of(old(timer).sleeping()[k]) <= e
                    implies !#[trigger] timer.has_waker(old(timer).sleeping()[k]) by {
                assert(!after.has_waker(mid.sleeping()[k]));
            }
            assert(timer.after_round(*old(timer), e));
        }
        Poll::Pending
    }

    /// Gives the task back.
    pub fn release(self, timer: &mut Timer<B>)
        requires
            old(timer).wf(),
            old(timer).is_split(),
            old(timer).tasks() > 0,
        ensures
            final(timer).wf(),
            final(timer).tasks() == old(timer).tasks() - 1,
            final(timer).handles() == old(timer).handles(),
            final(timer).is_split(),
            final(timer).has_backend() == old(timer).has_backend(),
            final(timer).sleeping() == old(timer).sleeping(),
            final(timer).new_timers() == old(timer).new_timers(),
            final(timer).delays() == old(timer).delays(),
            final(timer).no_wakes(*old(timer)),
    {
        match &mut timer.rc {
            Some(pair) => self.timer.release(&mut pair.1),
            None => {
                proof {
                    assert(false);
                }
            },
        }
    }
}

/// A handle that starts delays on a timer.
pub struct TimerHandle<B: TimerBackend> {
    timer: RcRef<()>,
    marker: core::marker::PhantomData<B>,
}

impl<B: TimerBackend> TimerHandle<B> {
    /// A future that waits `duration`. It holds a handle of its own and a new link of the
    /// timer, in no list until it is first polled.
    pub fn delay(&self, timer: &mut Timer<B>, duration: B::Duration) -> (r: DelayFuture<B>)
        requires
            old(timer).wf(),
            old(timer).is_split(),
            old(timer).handles() < u32::MAX,
        ensures
            final(timer).wf(),
            final(timer).is_split(),
            final(timer).handles() == old(timer).handles() + 1,
            final(timer).tasks() == old(timer).tasks(),
            final(timer).has_backend() == old(timer).has_backend(),
            final(timer).runner_waker() == old(timer).runner_waker(),
            final(timer).keeps_links(*old(timer)),
            final(timer).sleeping() == old(timer).sleeping(),
            final(timer).new_timers() == old(timer).new_timers(),
            forall|l: usize| l < old(timer).delays().len() && l != r.link_view() ==> #[trigger] final(timer).time_of(l)
                == old(timer).time_of(l),
            r.link_view() < old(timer).delays().len() ==> !old(timer).delays().is_member(r.link_view()),
            final(timer).is_delay_link(r.link_view()),
            final(timer).time_of(r.link_view()) == duration.ticks(),
            !final(timer).has_waker(r.link_view()),
            !final(timer).delays().is_member(r.link_view()),
            final(timer).no_wakes(*old(timer)),
            final(timer).backend() == old(timer).backend(),
            r.link_view() == old(timer).delays().len() || old(timer).delays().free_view().contains(r.link_view()),
            !final(timer).delays().free_view().contains(r.link_view()),
    {
        let handle = timer.add_handle();
        let ghost l0 = timer.links;
        let node = Node::new(&mut timer.links, WaitingTimer { time_until_timeout: duration, waker: None });
        proof {
            let l1 = timer.links;
            l1.lemma_standing(node.link_view());
            assert(timer.sleeping() == l0.members(timer.sleeping_timers.head_view().unwrap()) || timer.sleeping_timers.head_view() is None);
            if timer.sleeping_timers.head_view() is Some {
                l0.lemma_members(timer.sleeping_timers.head_view().unwrap());
                assert forall|k: int| 0 <= k < timer.sleeping().len() implies #[trigger] l1.owner_at(timer.sleeping()[k])
                    == l0.owner_at(timer.sleeping()[k]) by {
                    l0.lemma_standing(timer.sleeping()[k]);
                }
            }
            if timer.new_timers.head_view() is Some {
                l0.lemma_members(timer.new_timers.head_view().unwrap());
                assert forall|k: int| 0 <= k < timer.new_timers().len() implies #[trigger] l1.owner_at(timer.new_timers()[k])
                    == l0.owner_at(timer.new_timers()[k]) by {
                    l0.lemma_standing(timer.new_timers()[k]);
                }
            }
            assert forall|l: usize| l < l0.len() && l != node.link_view() implies #[trigger] l1.owner_at(l) == l0.owner_at(l) by {}
        }
        DelayFuture { timer: TimerHandle { timer: handle, marker: core::marker::PhantomData }, node }
    }

    /// One more handle on the same timer.
    pub fn clone(&self, timer: &mut Timer<B>) -> (r: Self)
        requires
            old(timer).wf(),
            old(timer).is_split(),
            old(timer).handles() < u32::MAX,
        ensures
            final(timer).wf(),
            final(timer).is_split(),
            final(timer).handles() == old(timer).handles() + 1,
            final(timer).tasks() == old(timer).tasks(),
            final(timer).has_backend() == old(timer).has_backend(),
            final(timer).runner_waker() == old(timer).runner_waker(),
            final(timer).sleeping() == old(timer).sleeping(),
            final(timer).new_timers() == old(timer).new_timers(),
            final(timer).delays() == old(timer).delays(),
            final(timer).no_wakes(*old(timer)),
            final(timer).backend() == old(timer).backend(),
    {
        let handle = timer.add_handle();
        TimerHandle { timer: handle, marker: core::marker::PhantomData }
    }

    /// Gives the handle back. When it was the last, the task is woken so that it can
    /// finish.
    pub fn release(self, timer: &mut Timer<B>)
        requires
            old(timer).wf(),
            old(timer).is_split(),
            old(timer).handles() > 0,
        ensures
            final(timer).wf(),
            final(timer).is_split(),
            final(timer).handles() == old(timer).handles() - 1,
            final(timer).tasks() == old(timer).tasks(),
            final(timer).has_backend() == old(timer).has_backend(),
            final(timer).runner_waker() == old(timer).runner_waker(),
            final(timer).handle_dropped(*old(timer)),
            final(timer).sleeping() == old(timer).sleeping(),
            final(timer).new_timers() == old(timer).new_timers(),
            final(timer).delays() == old(timer).delays(),
            final(timer).backend() == old(timer).backend(),
    {
        timer.drop_handle(self.timer);
    }
}

/// The future of `TimerHandle::delay`.
pub struct DelayFuture<B: TimerBackend> {
    timer: TimerHandle<B>,
    node: Node<WaitingTimer<B::Duration>>,
}

impl<B: TimerBackend> DelayFuture<B> {
    /// The timer link of the delay.
    pub closed spec fn link_view(&self) -> usize {
        self.node.link_view()
    }

    /// The future may be polled on `timer`.
    pub open spec fn can_poll(&self, timer: Timer<B>) -> bool {
        &&& timer.wf()
        &&& timer.is_split()
        &&& timer.is_delay_link(self.link_view())
    }

    /// A delay with a waker is running: pending. One with time left is started: it joins
    /// the delays for the task to take in, keeps `waker`, wakes the task, and is pending.
    /// One with no time left is over: ready.
    pub fn poll(&mut self, timer: &mut Timer<B>, waker: &core::task::Waker) -> (r: Poll<()>)
        requires
            old(self).can_poll(*old(timer)),
        ensures
            final(self).can_poll(*final(timer)),
            final(self).link_view() == old(self).link_view(),
            final(timer).keeps_links(*old(timer)),
            final(timer).same_state(*old(timer)),
            final(timer).sleeping() == old(timer).sleeping(),
            forall|l: usize| l < old(timer).delays().len() ==> #[trigger] final(timer).time_of(l) == old(timer).time_of(l),
            old(timer).has_waker(old(self).link_view()) ==> r == Poll::<()>::Pending && *final(timer) == *old(timer),
            !old(timer).has_waker(old(self).link_view()) && old(timer).time_of(old(self).link_view()) > 0 ==> {
                &&& r == Poll::<()>::Pending
                &&& final(timer).new_timers() == old(timer).new_timers().push(old(self).link_view())
                &&& final(timer).has_waker(old(self).link_view())
                &&& (final(timer).stored_waker(old(self).link_view()) matches Some(s) && cloned(*waker, s))
                &&& final(timer).delay_wakes() == old(timer).delay_wakes()
                &&& final(timer).runner_wakes() == (if old(timer).runner_waker() is Some {
                    old(timer).runner_wakes().push(old(self).link_view())
                } else {
                    old(timer).runner_wakes()
                })
                &&& final(timer).delay_woken() == old(timer).delay_woken()
                &&& final(timer).runner_woken() == (if old(timer).runner_waker() is Some {
                    old(timer).runner_woken().push(old(timer).runner_waker().unwrap())
                } else {
                    old(timer).runner_woken()
                })
            },
            !old(timer).has_waker(old(self).link_view()) && old(timer).time_of(old(self).link_view()) == 0 ==> r
                == Poll::Ready(()) && *final(timer) == *old(timer),
            final(timer).backend() == old(timer).backend(),
    {
        let l = self.node.link();
        let (armed, zero) = match timer.links.owner(l) {
            Some(w) => (w.waker.is_some(), w.time_until_timeout.is_zero()),
            None => {
                proof {
                    assert(false);
                }
                (true, true)
            },
        };
        if armed {
            return Poll::Pending;
        }
        if zero {
            return Poll::Ready(());
        }
        let ghost t0 = *timer;
        proof {
            timer.links.lemma_standing(l);
            if timer.links.is_member(l) {
                timer.lemma_member_listed(l);
                if timer.sleeping().contains(l) {
                    let k = choose|k: int| 0 <= k < timer.sleeping().len() && timer.sleeping()[k] == l;
                    assert(timer.links.owner_at(timer.sleeping()[k]).unwrap().has_waker());
                } else {
                    let k = choose|k: int| 0 <= k < timer.new_timers().len() && timer.new_timers()[k] == l;
                    assert(timer.links.owner_at(timer.new_timers()[k]).unwrap().has_waker());
                }
            }
            assert(timer.links.is_detached(l));
        }
        let owner = timer.links.replace_owner(l, None);
        let mut w = match owner {
            Some(w) => w,
            None => {
                proof {
                    assert(false);
                }
                return Poll::Pending;
            },
        };
        w.waker = Some(clone_waker(waker));
        timer.links.replace_owner(l, Some(w));
        let ghost t1 = *timer;
        proof {
            assert(timer.sleeping() == t0.sleeping());
            assert(timer.new_timers() == t0.new_timers());
        }
        timer.new_timers.push_node_back(&mut timer.links, &self.node);
        match &timer.waker {
            Some(x) => {
                let woken = wake_by_ref(x);
                timer.runner_wakes.record(woken, Ghost(l));
            },
            None => {},
        }
        proof {
            let lk = timer.links;
            lk.lemma_standing(l);
            let nh = timer.new_timers.head_view().unwrap();
            if t1.sleeping_timers.head_view() is Some {
                let g = t1.sleeping_timers.head_view().unwrap();
                assert(t1.links.has_list(g));
                assert(g != nh);
                assert(lk.members(g) == t1.links.members(g));
                t1.links.lemma_members(g);
            }
            if t1.scratch.head_view() is Some {
                let g = t1.scratch.head_view().unwrap();
                assert(t1.links.has_list(g));
                assert(g != nh);
                assert(lk.members(g) == t1.links.members(g));
            }
            if t1.new_timers.head_view() is Some {
                t1.links.lemma_members(t1.new_timers.head_view().unwrap());
            }
            assert forall|i: usize| i < t1.links.len() && i != l implies #[trigger] lk.owner_at(i) == t1.links.owner_at(i) by {}
            assert forall|k: int| 0 <= k < timer.sleeping().len() implies #[trigger] lk.owner_at(timer.sleeping()[k])
                == t0.links.owner_at(timer.sleeping()[k]) by {
                assert(timer.sleeping()[k] != l);
            }
            assert forall|k: int| 0 <= k < timer.new_timers().len() implies (#[trigger] lk.owner_at(
                timer.new_timers()[k],
            )) is Some && lk.owner_at(timer.new_timers()[k]).unwrap().has_waker() by {
                if k < t0.new_timers().len() {
                    assert(timer.new_timers()[k] == t0.new_timers()[k]);
                    assert(timer.new_timers()[k] != l);
                    assert(lk.owner_at(t0.new_timers()[k]) == t0.links.owner_at(t0.new_timers()[k]));
                }
            }
            assert forall|m: usize| #[trigger] t0.is_delay_link(m) implies timer.is_delay_link(m) by {
                if m != l {
                    assert(lk.owner_at(m) == t0.links.owner_at(m));
                }
            }
            assert forall|m: usize| m < t0.links.len() implies #[trigger] timer.time_of(m) == t0.time_of(m) by {
                if m != l {
                    assert(lk.owner_at(m) == t0.links.owner_at(m));
                }
            }
        }
        Poll::Pending
    }

    /// Gives the future back: its delay leaves the timer's lists, and the handle it
    /// holds is given back (waking the task when it was the last).
    pub fn release(self, timer: &mut Timer<B>)
        requires
            self.can_poll(*old(timer)),
            old(timer).handles() > 0,
        ensures
            final(timer).wf(),
            final(timer).is_split(),
            final(timer).handles() == old(timer).handles() - 1,
            final(timer).tasks() == old(timer).tasks(),
            final(timer).has_backend() == old(timer).has_backend(),
            final(timer).runner_waker() == old(timer).runner_waker(),
            final(timer).handle_dropped(*old(timer)),
            final(timer).keeps_links_but(*old(timer), self.link_view()),
            final(timer).sleeping() == without(old(timer).sleeping(), self.link_view()),
            final(timer).new_timers() == without(old(timer).new_timers(), self.link_view()),
            forall|l: usize| l < old(timer).delays().len() && l != self.link_view() ==> #[trigger] final(timer).time_of(l)
                == old(timer).time_of(l),
            final(timer).backend() == old(timer).backend(),
    {
        let ghost t0 = *timer;
        let l = self.node.link();
        self.node.unlink(&mut timer.links);
        proof {
            let lk = timer.links;
            let l0 = t0.links;
            l0.lemma_standing(l);
            if l0.is_member(l) {
                t0.lemma_member_listed(l);
            }
            if t0.sleeping_timers.head_view() is Some {
                l0.lemma_members(t0.sleeping_timers.head_view().unwrap());
            }
            if t0.new_timers.head_view() is Some {
                l0.lemma_members(t0.new_timers.head_view().unwrap());
            }
            if !l0.is_member(l) {
                assert(!t0.sleeping().contains(l)) by {
                    if t0.sleeping().contains(l) {
                        let k = choose|k: int| 0 <= k < t0.sleeping().len() && t0.sleeping()[k] == l;
                    }
                }
                assert(!t0.new_timers().contains(l)) by {
                    if t0.new_timers().contains(l) {
                        let k = choose|k: int| 0 <= k < t0.new_timers().len() && t0.new_timers()[k] == l;
                    }
                }
            }
            if t0.scratch.head_view() is Some {
                let g = t0.scratch.head_view().unwrap();
                assert(l0.has_list(g));
                if l0.is_member(l) {
                    assert(l0.list_of(l) != g);
                }
                assert(lk.members(g) == l0.members(g));
            }
            if l0.is_member(l) {
                let g = l0.list_of(l);
                if t0.sleeping().contains(l) {
                    assert(g == t0.sleeping_timers.head_view().unwrap());
                    assert(!t0.new_timers().contains(l));
                    if t0.new_timers.head_view() is Some {
                        assert(t0.new_timers.head_view().unwrap() != g);
                    }
                } else {
                    assert(t0.new_timers().contains(l));
                    assert(g == t0.new_timers.head_view().unwrap());
                    if t0.sleeping_timers.head_view() is Some {
                        assert(t0.sleeping_timers.head_view().unwrap() != g);
                    }
                }
            }
            assert(timer.sleeping() == without(t0.sleeping(), l));
            assert(timer.new_timers() == without(t0.new_timers(), l));
            assert forall|k: int| 0 <= k < timer.sleeping().len() implies #[trigger] lk.owner_at(timer.sleeping()[k])
                == l0.owner_at(timer.sleeping()[k]) by {
                let s = t0.sleeping();
                if s.contains(l) {
                    assert(timer.sleeping()[k] == s[if k < s.index_of(l) { k } else { k + 1 }]);
                }
            }
            assert forall|k: int| 0 <= k < timer.new_timers().len() implies #[trigger] lk.owner_at(timer.new_timers()[k])
                == l0.owner_at(timer.new_timers()[k]) by {
                let s = t0.new_timers();
                if s.contains(l) {
                    assert(timer.new_timers()[k] == s[if k < s.index_of(l) { k } else { k + 1 }]);
                }
            }
            assert forall|m: usize| #[trigger] t0.is_delay_link(m) implies timer.is_delay_link(m) by {
                assert(lk.owner_at(m) == l0.owner_at(m));
                lk.lemma_standing(l);
            }
            assert forall|m: usize| m < l0.len() implies #[trigger] timer.time_of(m) == t0.time_of(m) by {
                assert(lk.owner_at(m) == l0.owner_at(m));
            }
        }
        let ghost t1 = *timer;
        timer.recycle_delay_link(l);
        proof {
            assert forall|m: usize| #[trigger] t0.is_delay_link(m) && m != l implies timer.is_delay_link(m) by {
                assert(t1.is_delay_link(m));
            }
            assert forall|m: usize| m < t0.delays().len() && m != l implies #[trigger] timer.time_of(m) == t0.time_of(m) by {
                assert(t1.time_of(m) == t0.time_of(m));
            }
        }
        let ghost t2 = *timer;
        self.timer.release(timer);
        proof {
            assert forall|m: usize| m < t0.delays().len() && m != l implies #[trigger] timer.time_of(m) == t0.time_of(m) by {
                assert(t2.time_of(m) == t0.time_of(m));
            }
        }
    }
}

/// A round of the timer task wakes every delay that runs out in it: when the delay of
/// link `l` sleeps in `t0` with no more than `e` ticks left, and a round counting off
/// `e > 0` ticks leads to `t1`, the round woke the waker that delay holds, recorded under
/// `l`.
pub proof fn law_round_wakes_expired<B: TimerBackend>(t0: Timer<B>, t1: Timer<B>, e: nat, l: usize)
    requires
        t0.wf(),
        t1.after_round(t0, e),
        e > 0,
        t0.sleeping().contains(l),
        t0.time_of(l) <= e,
    ensures
        t0.stored_waker(l) is Some,
        t1.delay_wakes().skip(t0.delay_wakes().len() as int).contains(l),
        t1.delay_woken().skip(t0.delay_woken().len() as int).contains(t0.stored_waker(l).unwrap()),
{
    let s = t0.sleeping();
    let links = t0.delays();
    let j = t0.lemma_sleeping_at(l);
    assert(s[j] == l);
    lemma_expired_has(links, s, e, j);
    let x = expired(links, s, e);
    let i = choose|i: int| 0 <= i < x.len() && x[i] == l;
    let r = t0.round_wakes(e);
    assert(r == x + expired(links, t0.new_timers(), 0));
    assert(r[i] == l);
    let n = t0.delay_wakes().len() as int;
    assert(t1.delay_wakes().skip(n) =~= r);
    let m = t0.delay_woken().len() as int;
    assert(t1.delay_woken().skip(m) =~= wakers_in(links, r));
    assert(wakers_in(links, r)[i] == waker_in(links, l));
    t0.lemma_stored_waker(l);
}

} // verus!
