//! A doubly linked list with head and tail sentinels.
//!
//! All links live in a `Links` arena and are named by their index in it. A list is a
//! pair of sentinel links `h` and `h + 1`; its members are the links found between the
//! two. A link is in at most one list at a time, and a link in no list has no neighbours.
use vstd::prelude::*;

verus! {

/// A link that is not yet stored in an arena.
pub struct Link<T> {
    owner: Option<T>,
    prev: Option<usize>,
    next: Option<usize>,
}

impl<T> Link<T> {
    /// The owner the link carries.
    pub closed spec fn owner_view(&self) -> Option<T> {
        self.owner
    }

    /// The link has neither neighbour.
    pub closed spec fn is_unlinked(&self) -> bool {
        self.prev is None && self.next is None
    }

    /// A link with no owner and no neighbours.
    pub fn new() -> (r: Self)
        ensures
            r.owner_view() is None,
            r.is_unlinked(),
    {
        Link { owner: None, prev: None, next: None }
    }

    /// The owner the link carries, if any.
    pub fn owner(&self) -> (r: Option<&T>)
        ensures
            r is Some <==> self.owner_view() is Some,
            r is Some ==> *r.unwrap() == self.owner_view().unwrap(),
    {
        match &self.owner {
            Some(o) => Some(o),
            None => None,
        }
    }
}

/// The arena that holds every link of a family of lists.
pub struct Links<T> {
    owners: Vec<Option<T>>,
    prevs: Vec<Option<usize>>,
    nexts: Vec<Option<usize>>,
    /// For each list, named by its head sentinel, the members from front to back.
    lists: Ghost<Map<usize, Seq<usize>>>,
    /// For each link in a list (sentinels included), the head sentinel of that list.
    home: Ghost<Map<usize, usize>>,
    /// Links given back for reuse, most recent last.
    free: Vec<usize>,
    /// For each link, whether it is in `free`.
    queued: Vec<bool>,
}

impl<T> Links<T> {
    /// Number of links in the arena.
    pub closed spec fn len(&self) -> nat {
        self.owners@.len()
    }

    /// The owner carried by link `i`.
    pub closed spec fn owner_at(&self, i: usize) -> Option<T> {
        self.owners@[i as int]
    }

    /// The next neighbour of link `i`.
    pub closed spec fn next_at(&self, i: usize) -> Option<usize> {
        self.nexts@[i as int]
    }

    /// The previous neighbour of link `i`.
    pub closed spec fn prev_at(&self, i: usize) -> Option<usize> {
        self.prevs@[i as int]
    }

    /// `h` is the head sentinel of a list of this arena.
    pub closed spec fn has_list(&self, h: usize) -> bool {
        self.lists@.contains_key(h)
    }

    /// The members of list `h`, front to back.
    pub closed spec fn members(&self, h: usize) -> Seq<usize> {
        self.lists@[h]
    }

    /// Link `i` exists and belongs to no list.
    pub closed spec fn is_detached(&self, i: usize) -> bool {
        i < self.len() && !self.home@.contains_key(i)
    }

    /// Link `i` is a member of some list.
    pub closed spec fn is_member(&self, i: usize) -> bool {
        &&& self.home@.contains_key(i)
        &&& i != self.home@[i]
        &&& i != self.home@[i] + 1
    }

    /// Link `i` is the head or tail sentinel of a list.
    pub closed spec fn is_sentinel(&self, i: usize) -> bool {
        self.home@.contains_key(i) && !self.is_member(i)
    }

    /// The head sentinel of the list that link `i` is in.
    pub closed spec fn list_of(&self, i: usize) -> usize {
        self.home@[i]
    }

    /// Both arenas have the same lists, with the same members.
    pub open spec fn same_lists(&self, other: Self) -> bool {
        &&& forall|h: usize| #[trigger] self.has_list(h) == other.has_list(h)
        &&& forall|h: usize| other.has_list(h) ==> #[trigger] self.members(h) == other.members(h)
        &&& forall|i: usize| #[trigger] self.is_member(i) == other.is_member(i)
        &&& forall|i: usize| other.is_member(i) ==> #[trigger] self.list_of(i) == other.list_of(i)
    }

    /// Every link other than `x` keeps its owner, and every list other than `h` keeps
    /// its members; the set of lists is the same.
    pub open spec fn frame(&self, old: Self, h: usize, x: usize) -> bool {
        &&& self.len() == old.len()
        &&& forall|i: usize| i != x && i < old.len() ==> #[trigger] self.owner_at(i) == old.owner_at(i)
        &&& forall|g: usize| #[trigger] self.has_list(g) == old.has_list(g)
        &&& forall|g: usize| g != h && old.has_list(g) ==> #[trigger] self.members(g) == old.members(g)
    }

    /// Relative to `old`: no link was removed, every list is still there, the lists
    /// outside `changed` keep their members, and every link other than `x` keeps its
    /// owner and its standing (detached, member or sentinel).
    pub open spec fn unchanged_except(&self, old: Self, changed: Set<usize>, x: Option<usize>) -> bool {
        &&& self.len() >= old.len()
        &&& forall|g: usize| old.has_list(g) ==> #[trigger] self.has_list(g)
        &&& forall|g: usize| old.has_list(g) && !changed.contains(g) ==> #[trigger] self.members(g) == old.members(g)
        &&& forall|i: usize| i < old.len() && x != Some(i) ==> {
            &&& #[trigger] self.owner_at(i) == old.owner_at(i)
            &&& self.is_detached(i) == old.is_detached(i)
            &&& self.is_member(i) == old.is_member(i)
            &&& self.is_sentinel(i) == old.is_sentinel(i)
        }
    }

    spec fn chain(&self, h: usize) -> Seq<usize> {
        seq![h].add(self.lists@[h]).push((h + 1) as usize)
    }

    spec fn link_ok(&self, h: usize, k: int) -> bool {
        let c = self.chain(h);
        &&& self.nexts@[c[k] as int] == Some(c[k + 1])
        &&& self.prevs@[c[k + 1] as int] == Some(c[k])
    }

    spec fn home_ok(&self, h: usize, k: int) -> bool {
        let c = self.chain(h);
        &&& c[k] < self.len()
        &&& self.home@.contains_key(c[k])
        &&& self.home@[c[k]] == h
    }

    spec fn list_wf(&self, h: usize) -> bool {
        &&& h + 1 < self.len()
        &&& self.prevs@[h as int] is None
        &&& self.nexts@[h + 1] is None
        &&& self.chain(h).no_duplicates()
        &&& forall|k: int| 0 <= k < self.chain(h).len() ==> #[trigger] self.home_ok(h, k)
        &&& forall|k: int| 0 <= k < self.chain(h).len() - 1 ==> #[trigger] self.link_ok(h, k)
    }

    /// The arena's invariant.
    pub closed spec fn wf(&self) -> bool {
        &&& self.owners@.len() <= usize::MAX
        &&& self.prevs@.len() == self.owners@.len()
        &&& self.nexts@.len() == self.owners@.len()
        &&& forall|h: usize| #[trigger] self.lists@.contains_key(h) ==> self.list_wf(h)
        &&& forall|i: usize| #[trigger]
            self.home@.contains_key(i) ==> {
                &&& self.lists@.contains_key(self.home@[i])
                &&& self.chain(self.home@[i]).contains(i)
            }
        &&& forall|i: usize|
            i < self.len() && !#[trigger] self.home@.contains_key(i) ==> {
                &&& self.prevs@[i as int] is None
                &&& self.nexts@[i as int] is None
            }
        &&& forall|k: int| 0 <= k < self.free@.len() ==> #[trigger] self.free@[k] < self.owners@.len()
        &&& self.free@.no_duplicates()
        &&& self.queued@.len() == self.owners@.len()
        &&& forall|i: int| 0 <= i < self.queued@.len() ==> #[trigger] self.queued@[i] == self.free@.contains(i as usize)
    }

    /// The links given back for reuse and not yet handed out again, oldest first.
    pub closed spec fn free_view(&self) -> Seq<usize> {
        self.free@
    }

    proof fn lemma_home_index(&self, i: usize) -> (k: int)
        requires
            self.wf(),
            self.home@.contains_key(i),
        ensures
            self.lists@.contains_key(self.home@[i]),
            self.list_wf(self.home@[i]),
            0 <= k < self.chain(self.home@[i]).len(),
            self.chain(self.home@[i])[k] == i,
            i < self.len(),
    {
        let h = self.home@[i];
        assert(self.lists@.contains_key(h));
        assert(self.list_wf(h));
        let k = choose|k: int| 0 <= k < self.chain(h).len() && self.chain(h)[k] == i;
        assert(self.home_ok(h, k));
        k
    }

    /// A list whose links are untouched stays well formed.
    proof fn lemma_list_unchanged(old: Self, new: Self, h: usize)
        requires
            old.lists@.contains_key(h),
            old.list_wf(h),
            old.len() <= usize::MAX,
            new.lists@.contains_key(h),
            new.lists@[h] == old.lists@[h],
            new.len() >= old.len(),
            new.prevs@.len() == new.len(),
            new.nexts@.len() == new.len(),
            old.prevs@.len() == old.len(),
            old.nexts@.len() == old.len(),
            forall|i: usize|
                #[trigger] old.home@.contains_key(i) && old.home@[i] == h ==> {
                    &&& new.home@.contains_key(i)
                    &&& new.home@[i] == h
                    &&& new.nexts@[i as int] == old.nexts@[i as int]
                    &&& new.prevs@[i as int] == old.prevs@[i as int]
                },
        ensures
            new.list_wf(h),
    {
        assert(new.chain(h) == old.chain(h));
        let c = old.chain(h);
        assert(h + 1 < old.len());
        assert(c[0] == h);
        assert(c[c.len() - 1] == h + 1);
        assert(old.home_ok(h, 0));
        assert(old.home_ok(h, c.len() - 1));
        assert forall|k: int| 0 <= k < new.chain(h).len() implies #[trigger] new.home_ok(h, k) by {
            assert(old.home_ok(h, k));
        }
        assert forall|k: int| 0 <= k < new.chain(h).len() - 1 implies #[trigger] new.link_ok(h, k) by {
            assert(old.link_ok(h, k));
            assert(old.home_ok(h, k));
            assert(old.home_ok(h, k + 1));
        }
    }

    /// The sentinels of list `h` belong to it.
    proof fn lemma_list_ends(&self, h: usize)
        requires
            self.wf(),
            self.lists@.contains_key(h),
        ensures
            self.list_wf(h),
            h + 1 < self.len(),
            self.home@.contains_key(h),
            self.home@[h] == h,
            self.home@.contains_key((h + 1) as usize),
            self.home@[(h + 1) as usize] == h,
            self.chain(h)[0] == h,
            self.chain(h)[self.chain(h).len() - 1] == h + 1,
    {
        assert(self.list_wf(h));
        assert(self.home_ok(h, 0));
        assert(self.home_ok(h, self.chain(h).len() - 1));
    }

    /// An empty arena.
    pub fn new() -> (r: Self)
        ensures
            r.wf(),
            r.len() == 0,
            forall|h: usize| !r.has_list(h),
    {
        Links {
            owners: Vec::new(),
            prevs: Vec::new(),
            nexts: Vec::new(),
            lists: Ghost(Map::empty()),
            home: Ghost(Map::empty()),
            free: Vec::new(),
            queued: Vec::new(),
        }
    }

    /// Stores `link` in the arena and returns its index: the index of a link given back
    /// with `recycle` that is still in no list, if there is one, else a new index.
    pub fn add(&mut self, link: Link<T>) -> (id: usize)
        requires
            old(self).wf(),
            link.is_unlinked(),
        ensures
            final(self).wf(),
            id < final(self).len(),
            id < old(self).len() ==> old(self).is_detached(id) && final(self).len() == old(self).len()
                && old(self).free_view().contains(id),
            id >= old(self).len() ==> id == old(self).len() && final(self).len() == old(self).len() + 1,
            !final(self).free_view().contains(id),
            final(self).is_detached(id),
            final(self).owner_at(id) == link.owner_view(),
            final(self).unchanged_except(*old(self), Set::empty(), Some(id)),
            forall|i: usize| i < old(self).len() && i != id ==> {
                &&& #[trigger] final(self).owner_at(i) == old(self).owner_at(i)
                &&& final(self).next_at(i) == old(self).next_at(i)
                &&& final(self).prev_at(i) == old(self).prev_at(i)
            },
            final(self).same_lists(*old(self)),
    {
        let popped = self.free.pop();
        match popped {
            Some(i) => {
                self.queued.set(i, false);
            },
            None => {},
        }
        proof {
            let f0 = old(self).free@;
            assert forall|k: int| 0 <= k < self.free@.len() implies #[trigger] self.free@[k] < self.owners@.len() by {
                assert(self.free@[k] == f0[k]);
            }
            assert forall|h: usize| #[trigger] self.lists@.contains_key(h) implies self.list_wf(h) by {
                Self::lemma_list_unchanged(*old(self), *self, h);
            }
            if f0.len() > 0 {
                assert(self.free@ =~= f0.drop_last());
                assert forall|j: int| 0 <= j < self.queued@.len() implies #[trigger] self.queued@[j] == self.free@.contains(
                    j as usize,
                ) by {
                    if j as usize != f0.last() {
                        if f0.contains(j as usize) {
                            let k = choose|k: int| 0 <= k < f0.len() && f0[k] == j as usize;
                            assert(k != f0.len() - 1);
                            assert(self.free@[k] == j as usize);
                        }
                    } else {
                        if self.free@.contains(j as usize) {
                            let k = choose|k: int| 0 <= k < self.free@.len() && self.free@[k] == j as usize;
                            assert(f0[k] == f0[f0.len() - 1]);
                        }
                    }
                }
            }
        }
        let reuse = match popped {
            Some(i) => if self.detached(i) {
                Some(i)
            } else {
                None
            },
            None => None,
        };
        match reuse {
            Some(i) => {
                let owner = link.owner;
                self.owners.set(i, owner);
                proof {
                    assert forall|h: usize| #[trigger] self.lists@.contains_key(h) implies self.list_wf(h) by {
                        Self::lemma_list_unchanged(*old(self), *self, h);
                    }
                }
                i
            },
            None => self.push_new(link),
        }
    }

    /// Whether link `i` is in no list.
    fn detached(&self, i: usize) -> (r: bool)
        requires
            self.wf(),
            i < self.len(),
        ensures
            r == self.is_detached(i),
    {
        let r = self.prevs[i].is_none() && self.nexts[i].is_none();
        proof {
            if self.home@.contains_key(i) {
                let k = self.lemma_home_index(i);
                let h = self.home@[i];
                self.lemma_list_ends(h);
                if k == 0 {
                    assert(self.link_ok(h, 0));
                } else {
                    assert(self.link_ok(h, k - 1));
                }
            }
        }
        r
    }

    /// Gives link `i` back for reuse when it is in no list: it drops its owner, and a
    /// later `add` may hand out its index again. A link in a list is left as it is.
    pub fn recycle(&mut self, i: usize)
        requires
            old(self).wf(),
            i < old(self).len(),
        ensures
            final(self).wf(),
            final(self).len() == old(self).len(),
            old(self).is_detached(i) ==> final(self).owner_at(i) is None,
            old(self).is_detached(i) ==> final(self).free_view() == (if old(self).free_view().contains(i) {
                old(self).free_view()
            } else {
                old(self).free_view().push(i)
            }),
            !old(self).is_detached(i) ==> *final(self) == *old(self),
            final(self).unchanged_except(*old(self), Set::empty(), Some(i)),
            forall|j: usize| j != i && j < old(self).len() ==> #[trigger] final(self).owner_at(j) == old(self).owner_at(j),
            forall|j: usize| #[trigger] final(self).next_at(j) == old(self).next_at(j),
            forall|j: usize| #[trigger] final(self).prev_at(j) == old(self).prev_at(j),
            forall|j: usize| #[trigger] final(self).is_detached(j) == old(self).is_detached(j),
            forall|j: usize| #[trigger] final(self).is_member(j) == old(self).is_member(j),
            forall|j: usize| #[trigger] final(self).is_sentinel(j) == old(self).is_sentinel(j),
            forall|j: usize| #[trigger] final(self).list_of(j) == old(self).list_of(j),
            final(self).same_lists(*old(self)),
    {
        if self.detached(i) {
            self.owners.set(i, None);
            if !self.queued[i] {
                self.free.push(i);
                self.queued.set(i, true);
                proof {
                    let f0 = old(self).free@;
                    assert forall|j: int| 0 <= j < self.queued@.len() implies #[trigger] self.queued@[j]
                        == self.free@.contains(j as usize) by {
                        if j as usize == i {
                            assert(self.free@[self.free@.len() - 1] == i);
                        } else {
                            assert(self.queued@[j] == old(self).queued@[j]);
                            assert(old(self).queued@[j] == f0.contains(j as usize));
                            if self.free@.contains(j as usize) {
                                let k = choose|k: int| 0 <= k < self.free@.len() && self.free@[k] == j as usize;
                                assert(f0[k] == j as usize);
                            }
                            if f0.contains(j as usize) {
                                let k = choose|k: int| 0 <= k < f0.len() && f0[k] == j as usize;
                                assert(self.free@[k] == j as usize);
                            }
                        }
                    }
                    assert(self.free@[self.free@.len() - 1] == i);
                }
            }
            proof {
                assert forall|h: usize| #[trigger] self.lists@.contains_key(h) implies self.list_wf(h) by {
                    Self::lemma_list_unchanged(*old(self), *self, h);
                }
            }
        }
    }

    /// Stores `link` at a new index of the arena and returns it.
    fn push_new(&mut self, link: Link<T>) -> (id: usize)
        requires
            old(self).wf(),
            link.is_unlinked(),
        ensures
            final(self).wf(),
            id == old(self).len(),
            final(self).len() == old(self).len() + 1,
            final(self).free_view() == old(self).free_view(),
            final(self).is_detached(id),
            final(self).owner_at(id) == link.owner_view(),
            final(self).unchanged_except(*old(self), Set::empty(), None),
            forall|i: usize| i < old(self).len() ==> {
                &&& final(self).owner_at(i) == old(self).owner_at(i)
                &&& final(self).next_at(i) == old(self).next_at(i)
                &&& final(self).prev_at(i) == old(self).prev_at(i)
            },
            final(self).same_lists(*old(self)),
    {
        let id = self.owners.len();
        proof {
            assert forall|i: usize| #[trigger] self.home@.contains_key(i) implies i < id by {
                self.lemma_home_index(i);
            }
        }
        self.owners.push(link.owner);
        // The length, read back, is known to fit in a `usize`.
        let _ = self.owners.len();
        self.prevs.push(None);
        self.nexts.push(None);
        self.queued.push(false);
        proof {
            assert(!self.free@.contains(id)) by {
                if self.free@.contains(id) {
                    let k = choose|k: int| 0 <= k < self.free@.len() && self.free@[k] == id;
                }
            }
            assert forall|h: usize| #[trigger] self.lists@.contains_key(h) implies self.list_wf(h) by {
                Self::lemma_list_unchanged(*old(self), *self, h);
            }
            assert forall|i: usize| i < self.len() && !#[trigger] self.home@.contains_key(i) implies {
                &&& self.prevs@[i as int] is None
                &&& self.nexts@[i as int] is None
            } by {
                if i < old(self).len() {
                    assert(!old(self).home@.contains_key(i));
                }
            }
        }
        id
    }

    /// Creates a new, empty list in the arena and returns its head sentinel.
    pub fn new_list(&mut self) -> (h: usize)
        requires
            old(self).wf(),
        ensures
            final(self).wf(),
            h == old(self).len(),
            final(self).len() == old(self).len() + 2,
            !old(self).has_list(h),
            final(self).has_list(h),
            final(self).members(h) == Seq::<usize>::empty(),
            final(self).owner_at(h) is None,
            final(self).owner_at((h + 1) as usize) is None,
            final(self).unchanged_except(*old(self), Set::empty(), None),
            forall|g: usize| #[trigger] final(self).has_list(g) == (g == h || old(self).has_list(g)),
            forall|g: usize| old(self).has_list(g) ==> #[trigger] final(self).members(g) == old(self).members(g),
            forall|i: usize| i < old(self).len() ==> {
                &&& final(self).owner_at(i) == old(self).owner_at(i)
                &&& final(self).next_at(i) == old(self).next_at(i)
                &&& final(self).prev_at(i) == old(self).prev_at(i)
                &&& final(self).is_detached(i) == old(self).is_detached(i)
                &&& final(self).is_member(i) == old(self).is_member(i)
                &&& (old(self).is_member(i) ==> final(self).list_of(i) == old(self).list_of(i))
            },
    {
        let h = self.owners.len();
        self.owners.push(None);
        let t = self.owners.len();
        self.owners.push(None);
        // The length, read back, is known to fit in a `usize`.
        let _ = self.owners.len();
        self.prevs.push(None);
        self.prevs.push(Some(h));
        self.nexts.push(Some(t));
        self.nexts.push(None);
        self.queued.push(false);
        self.queued.push(false);
        proof {
            assert forall|j: int| 0 <= j < self.queued@.len() implies #[trigger] self.queued@[j] == self.free@.contains(
                j as usize,
            ) by {
                if j >= h && self.free@.contains(j as usize) {
                    let k = choose|k: int| 0 <= k < self.free@.len() && self.free@[k] == j as usize;
                }
                if j < h {
                    assert(self.queued@[j] == old(self).queued@[j]);
                }
            }
            if old(self).home@.contains_key(h) {
                old(self).lemma_home_index(h);
            }
            if old(self).lists@.contains_key(h) {
                assert(old(self).list_wf(h));
            }
            assert forall|i: usize| #[trigger] old(self).home@.contains_key(i) implies i < h by {
                old(self).lemma_home_index(i);
            }
            self.lists@ = self.lists@.insert(h, Seq::empty());
            self.home@ = self.home@.insert(h, h).insert((h + 1) as usize, h);
            assert forall|g: usize| #[trigger] self.lists@.contains_key(g) implies self.list_wf(g) by {
                if g == h {
                    assert(self.chain(h) =~= seq![h, (h + 1) as usize]);
                    assert(self.home_ok(h, 0));
                    assert(self.home_ok(h, 1));
                    assert(self.link_ok(h, 0));
                } else {
                    assert(old(self).list_wf(g));
                    Self::lemma_list_unchanged(*old(self), *self, g);
                }
            }
            assert forall|i: usize| #[trigger] self.home@.contains_key(i) implies {
                &&& self.lists@.contains_key(self.home@[i])
                &&& self.chain(self.home@[i]).contains(i)
            } by {
                if i == h {
                    assert(self.chain(h)[0] == h);
                } else if i == h + 1 {
                    assert(self.chain(h)[1] == h + 1);
                } else {
                    old(self).lemma_home_index(i);
                    assert(self.chain(old(self).home@[i]) == old(self).chain(old(self).home@[i]));
                }
            }
            assert forall|i: usize| i < self.len() && !#[trigger] self.home@.contains_key(i) implies {
                &&& self.prevs@[i as int] is None
                &&& self.nexts@[i as int] is None
            } by {
                assert(!old(self).home@.contains_key(i));
            }
        }
        h
    }

    /// Puts the detached link `x` between the neighbours `p` and `n` at position `k` of
    /// list `h`.
    fn link_between(
        &mut self,
        Ghost(h): Ghost<usize>,
        Ghost(k): Ghost<int>,
        p: usize,
        n: usize,
        x: usize,
        owner: T,
    )
        requires
            old(self).wf(),
            old(self).lists@.contains_key(h),
            0 <= k <= old(self).lists@[h].len(),
            p == old(self).chain(h)[k],
            n == old(self).chain(h)[k + 1],
            old(self).is_detached(x),
        ensures
            final(self).wf(),
            final(self).lists@ == old(self).lists@.insert(h, old(self).lists@[h].insert(k, x)),
            final(self).home@ == old(self).home@.insert(x, h),
            final(self).owners@ == old(self).owners@.update(x as int, Some(owner)),
    {
        proof {
            assert(old(self).list_wf(h));
            assert(old(self).home_ok(h, k));
            assert(old(self).home_ok(h, k + 1));
        }
        self.nexts.set(p, Some(x));
        self.prevs.set(n, Some(x));
        self.prevs.set(x, Some(p));
        self.nexts.set(x, Some(n));
        self.owners.set(x, Some(owner));
        proof {
            let old_c = old(self).chain(h);
            self.lists@ = self.lists@.insert(h, old(self).lists@[h].insert(k, x));
            self.home@ = self.home@.insert(x, h);
            let c = self.chain(h);
            assert(c =~= old_c.insert(k + 1, x));
            old_c.insert_ensures(k + 1, x);
            assert(c.len() == old_c.len() + 1);
            assert(forall|j: int| 0 <= j < k + 1 ==> c[j] == old_c[j]);
            assert(forall|j: int| k + 1 < j < c.len() ==> c[j] == old_c[j - 1]);
            assert(!old_c.contains(x)) by {
                if old_c.contains(x) {
                    let j = choose|j: int| 0 <= j < old_c.len() && old_c[j] == x;
                    assert(old(self).home_ok(h, j));
                }
            }
            assert forall|j: int| 0 <= j < c.len() implies #[trigger] self.home_ok(h, j) by {
                if j < k + 1 {
                    assert(old(self).home_ok(h, j));
                } else if j > k + 1 {
                    assert(old(self).home_ok(h, j - 1));
                }
            }
            assert forall|j: int| 0 <= j < c.len() - 1 implies #[trigger] self.link_ok(h, j) by {
                if j == k {
                    assert(c[j] == p && c[j + 1] == x);
                } else if j == k + 1 {
                    assert(c[j] == x && c[j + 1] == n);
                } else if j < k {
                    assert(old(self).link_ok(h, j));
                    assert(old_c[j] != p);
                    assert(old_c[j + 1] != n);
                    assert(old(self).home_ok(h, j));
                    assert(old(self).home_ok(h, j + 1));
                } else if j > k + 1 {
                    assert(old(self).link_ok(h, j - 1));
                    assert(old_c[j - 1] != p);
                    assert(old_c[j] != n);
                    assert(old(self).home_ok(h, j - 1));
                    assert(old(self).home_ok(h, j));
                }
            }
            old(self).lemma_list_ends(h);
            assert(c.no_duplicates()) by {
                assert forall|a: int, b: int| 0 <= a < c.len() && 0 <= b < c.len() && a != b
                    implies c[a] != c[b] by {
                    if a != k + 1 && b != k + 1 {
                        let a0 = if a < k + 1 { a } else { a - 1 };
                        let b0 = if b < k + 1 { b } else { b - 1 };
                        assert(old_c[a0] != old_c[b0]);
                    } else if a == k + 1 {
                        let b0 = if b < k + 1 { b } else { b - 1 };
                        assert(old(self).home_ok(h, b0));
                    } else {
                        let a0 = if a < k + 1 { a } else { a - 1 };
                        assert(old(self).home_ok(h, a0));
                    }
                }
            }
            assert(old_c[0] != n);
            assert(old_c[old_c.len() - 1] != p);
            assert(self.list_wf(h));
            assert forall|i: usize| #[trigger] old(self).home@.contains_key(i) && old(self).home@[i] != h
                implies {
                    &&& self.home@.contains_key(i)
                    &&& self.home@[i] == old(self).home@[i]
                    &&& self.nexts@[i as int] == old(self).nexts@[i as int]
                    &&& self.prevs@[i as int] == old(self).prevs@[i as int]
                } by {
                old(self).lemma_home_index(i);
            }
            assert forall|g: usize| #[trigger] self.lists@.contains_key(g) implies self.list_wf(g) by {
                if g != h {
                    assert(old(self).list_wf(g));
                    Self::lemma_list_unchanged(*old(self), *self, g);
                }
            }
            assert forall|i: usize| #[trigger] self.home@.contains_key(i) implies {
                &&& self.lists@.contains_key(self.home@[i])
                &&& self.chain(self.home@[i]).contains(i)
            } by {
                if i == x {
                    assert(c[k + 1] == x);
                } else {
                    let j = old(self).lemma_home_index(i);
                    let g = old(self).home@[i];
                    if g == h {
                        if j < k + 1 {
                            assert(c[j] == i);
                        } else {
                            assert(c[j + 1] == i);
                        }
                    } else {
                        assert(self.chain(g) == old(self).chain(g));
                    }
                }
            }
            assert forall|i: usize| i < self.len() && !#[trigger] self.home@.contains_key(i) implies {
                &&& self.prevs@[i as int] is None
                &&& self.nexts@[i as int] is None
            } by {
                assert(!old(self).home@.contains_key(i));
                if i == p || i == n {
                    assert(old(self).home@.contains_key(i));
                }
            }
        }
    }

    /// Puts the detached link `x`, now carrying `owner`, at the back of list `h`.
    pub fn push_back(&mut self, h: usize, x: usize, owner: T)
        requires
            old(self).wf(),
            old(self).has_list(h),
            old(self).is_detached(x),
        ensures
            final(self).wf(),
            final(self).frame(*old(self), h, x),
            final(self).members(h) == old(self).members(h).push(x),
            final(self).unchanged_except(*old(self), set![h], Some(x)),
            final(self).owner_at(x) == Some(owner),
            final(self).is_member(x),
            final(self).list_of(x) == h,
            forall|i: usize| i != x ==> #[trigger] final(self).is_detached(i) == old(self).is_detached(i),
    {
        let ghost k = self.lists@[h].len() as int;
        proof {
            assert(self.list_wf(h));
            assert(self.link_ok(h, k));
            assert(self.home_ok(h, k + 1));
        }
        let t = h + 1;
        let p = match self.prevs[t] {
            Some(p) => p,
            None => { proof { assert(false); } h },
        };
        self.link_between(Ghost(h), Ghost(k), p, t, x, owner);
        proof {
            assert(self.lists@[h] =~= old(self).lists@[h].push(x));
            old(self).lemma_list_ends(h);
            assert(self.has_list(h));
            assert forall|g: usize| #[trigger] self.has_list(g) == old(self).has_list(g) by {}
        }
    }

    /// Puts the detached link `x`, now carrying `owner`, at the front of list `h`.
    pub fn push_front(&mut self, h: usize, x: usize, owner: T)
        requires
            old(self).wf(),
            old(self).has_list(h),
            old(self).is_detached(x),
        ensures
            final(self).wf(),
            final(self).frame(*old(self), h, x),
            final(self).members(h) == seq![x].add(old(self).members(h)),
            final(self).unchanged_except(*old(self), set![h], Some(x)),
            final(self).owner_at(x) == Some(owner),
            final(self).is_member(x),
            final(self).list_of(x) == h,
            forall|i: usize| i != x ==> #[trigger] final(self).is_detached(i) == old(self).is_detached(i),
    {
        proof {
            assert(self.list_wf(h));
            assert(self.link_ok(h, 0));
            assert(self.home_ok(h, 0));
        }
        let n = match self.nexts[h] {
            Some(n) => n,
            None => { proof { assert(false); } h },
        };
        self.link_between(Ghost(h), Ghost(0), h, n, x, owner);
        proof {
            assert(self.lists@[h] =~= seq![x].add(old(self).lists@[h]));
            old(self).lemma_list_ends(h);
            assert(self.has_list(h));
            assert forall|g: usize| #[trigger] self.has_list(g) == old(self).has_list(g) by {}
        }
    }

    /// Takes the member at position `k` of list `h`, whose neighbours are `p` and `n`,
    /// out of the list.
    fn unlink_between(
        &mut self,
        Ghost(h): Ghost<usize>,
        Ghost(k): Ghost<int>,
        p: usize,
        x: usize,
        n: usize,
    )
        requires
            old(self).wf(),
            old(self).lists@.contains_key(h),
            0 <= k < old(self).lists@[h].len(),
            p == old(self).chain(h)[k],
            x == old(self).chain(h)[k + 1],
            n == old(self).chain(h)[k + 2],
        ensures
            final(self).wf(),
            final(self).lists@ == old(self).lists@.insert(h, old(self).lists@[h].remove(k)),
            final(self).home@ == old(self).home@.remove(x),
            final(self).owners@ == old(self).owners@,
            !final(self).home@.contains_key(x),
    {
        let ghost old_c = old(self).chain(h);
        proof {
            old(self).lemma_list_ends(h);
            assert(old(self).home_ok(h, k));
            assert(old(self).home_ok(h, k + 1));
            assert(old(self).home_ok(h, k + 2));
            assert(old_c[k] != old_c[k + 1] && old_c[k + 1] != old_c[k + 2] && old_c[k] != old_c[k + 2]);
        }
        self.nexts.set(p, Some(n));
        self.prevs.set(n, Some(p));
        self.prevs.set(x, None);
        self.nexts.set(x, None);
        proof {
            self.lists@ = self.lists@.insert(h, old(self).lists@[h].remove(k));
            self.home@ = self.home@.remove(x);
            let c = self.chain(h);
            assert(c =~= old_c.remove(k + 1));
            old_c.remove_ensures(k + 1);
            assert(c.len() == old_c.len() - 1);
            assert(forall|j: int| 0 <= j < k + 1 ==> c[j] == old_c[j]);
            assert(forall|j: int| k + 1 <= j < c.len() ==> c[j] == old_c[j + 1]);
            assert forall|j: int| 0 <= j < c.len() implies #[trigger] self.home_ok(h, j) by {
                if j < k + 1 {
                    assert(old(self).home_ok(h, j));
                    assert(old_c[j] != x);
                } else {
                    assert(old(self).home_ok(h, j + 1));
                    assert(old_c[j + 1] != x);
                }
            }
            assert forall|j: int| 0 <= j < c.len() - 1 implies #[trigger] self.link_ok(h, j) by {
                if j == k {
                    assert(c[j] == p && c[j + 1] == n);
                } else if j < k {
                    assert(old(self).link_ok(h, j));
                    assert(old(self).home_ok(h, j));
                    assert(old(self).home_ok(h, j + 1));
                    assert(old_c[j] != p && old_c[j] != x);
                    assert(old_c[j + 1] != n && old_c[j + 1] != x);
                } else {
                    assert(old(self).link_ok(h, j + 1));
                    assert(old(self).home_ok(h, j + 1));
                    assert(old(self).home_ok(h, j + 2));
                    assert(old_c[j + 1] != p && old_c[j + 1] != x);
                    assert(old_c[j + 2] != n && old_c[j + 2] != x);
                }
            }
            assert(c.no_duplicates()) by {
                assert forall|a: int, b: int| 0 <= a < c.len() && 0 <= b < c.len() && a != b
                    implies c[a] != c[b] by {
                    let a0 = if a < k + 1 { a } else { a + 1 };
                    let b0 = if b < k + 1 { b } else { b + 1 };
                    assert(old_c[a0] != old_c[b0]);
                }
            }
            assert(old_c[0] != n && old_c[0] != x);
            assert(old_c[old_c.len() - 1] != p && old_c[old_c.len() - 1] != x);
            assert(self.list_wf(h));
            assert forall|i: usize| #[trigger] old(self).home@.contains_key(i) && old(self).home@[i] != h
                implies {
                    &&& self.home@.contains_key(i)
                    &&& self.home@[i] == old(self).home@[i]
                    &&& self.nexts@[i as int] == old(self).nexts@[i as int]
                    &&& self.prevs@[i as int] == old(self).prevs@[i as int]
                } by {
                old(self).lemma_home_index(i);
            }
            assert forall|g: usize| #[trigger] self.lists@.contains_key(g) implies self.list_wf(g) by {
                if g != h {
                    assert(old(self).list_wf(g));
                    Self::lemma_list_unchanged(*old(self), *self, g);
                }
            }
            assert forall|i: usize| #[trigger] self.home@.contains_key(i) implies {
                &&& self.lists@.contains_key(self.home@[i])
                &&& self.chain(self.home@[i]).contains(i)
            } by {
                let j = old(self).lemma_home_index(i);
                let g = old(self).home@[i];
                if g == h {
                    if j < k + 1 {
                        assert(c[j] == i);
                    } else {
                        assert(j != k + 1);
                        assert(c[j - 1] == i);
                    }
                } else {
                    assert(self.chain(g) == old(self).chain(g));
                }
            }
            assert forall|i: usize| i < self.len() && !#[trigger] self.home@.contains_key(i) implies {
                &&& self.prevs@[i as int] is None
                &&& self.nexts@[i as int] is None
            } by {
                if i != x {
                    assert(!old(self).home@.contains_key(i));
                    if i == p || i == n {
                        assert(old(self).home@.contains_key(i));
                    }
                }
            }
        }
    }

    /// The members of a list are distinct links of the arena that belong to it.
    pub proof fn lemma_members(&self, h: usize)
        requires
            self.wf(),
            self.has_list(h),
        ensures
            self.members(h).no_duplicates(),
            forall|k: int| 0 <= k < self.members(h).len() ==> {
                &&& #[trigger] self.members(h)[k] < self.len()
                &&& self.is_member(self.members(h)[k])
                &&& self.list_of(self.members(h)[k]) == h
            },
    {
        self.lemma_list_ends(h);
        let c = self.chain(h);
        assert forall|k: int| 0 <= k < self.members(h).len() implies {
            &&& #[trigger] self.members(h)[k] < self.len()
            &&& self.is_member(self.members(h)[k])
            &&& self.list_of(self.members(h)[k]) == h
        } by {
            assert(c[k + 1] == self.members(h)[k]);
            assert(self.home_ok(h, k + 1));
            assert(c[k + 1] != c[0]);
            assert(c[k + 1] != c[c.len() - 1]);
        }
        assert forall|a: int, b: int|
            0 <= a < self.members(h).len() && 0 <= b < self.members(h).len() && a != b
            implies self.members(h)[a] != self.members(h)[b] by {
            assert(c[a + 1] != c[b + 1]);
        }
    }

    /// Whether list `h` has no members.
    pub fn is_empty_list(&self, h: usize) -> (r: bool)
        requires
            self.wf(),
            self.has_list(h),
        ensures
            r == (self.members(h).len() == 0),
    {
        proof {
            self.lemma_list_ends(h);
            assert(self.link_ok(h, 0));
            let c = self.chain(h);
            if self.lists@[h].len() > 0 {
                assert(c[1] != c[c.len() - 1]);
            }
        }
        let t = h + 1;
        match self.nexts[h] {
            Some(n) => n == t,
            None => false,
        }
    }

    /// Takes link `x` out of the list it is in; a link in no list is left as it is.
    pub fn unlink(&mut self, x: usize)
        requires
            old(self).wf(),
            x < old(self).len(),
            !old(self).is_sentinel(x),
        ensures
            final(self).wf(),
            final(self).is_detached(x),
            final(self).len() == old(self).len(),
            final(self).unchanged_except(*old(self), if old(self).is_member(x) { set![old(self).list_of(x)] } else { Set::empty() }, Some(x)),
            forall|i: usize| i < old(self).len() ==> #[trigger] final(self).owner_at(i) == old(self).owner_at(i),
            forall|g: usize| #[trigger] final(self).has_list(g) == old(self).has_list(g),
            old(self).is_member(x) ==> final(self).members(old(self).list_of(x)) == old(self).members(
                old(self).list_of(x),
            ).remove(old(self).members(old(self).list_of(x)).index_of(x)),
            forall|g: usize|
                old(self).has_list(g) && !(old(self).is_member(x) && g == old(self).list_of(x))
                    ==> #[trigger] final(self).members(g) == old(self).members(g),
            forall|i: usize| i != x ==> #[trigger] final(self).is_detached(i) == old(self).is_detached(i),
            forall|i: usize| i != x ==> #[trigger] final(self).is_member(i) == old(self).is_member(i),
            forall|i: usize| i != x && old(self).is_member(i) ==> #[trigger] final(self).list_of(i) == old(self).list_of(i),
    {
        if self.prevs[x].is_none() {
            proof {
                if self.home@.contains_key(x) {
                    let j = self.lemma_home_index(x);
                    let h = self.home@[x];
                    self.lemma_list_ends(h);
                    let c = self.chain(h);
                    assert(j != 0) by {
                        if j == 0 {
                            assert(c[0] == h);
                        }
                    }
                    assert(self.link_ok(h, j - 1));
                }
            }
            return;
        }
        let ghost h = self.home@[x];
        let ghost j = self.lemma_home_index(x);
        proof {
            self.lemma_list_ends(h);
            let c = self.chain(h);
            assert(c[0] == h);
            assert(j != 0);
            assert(j != c.len() - 1);
            assert(self.link_ok(h, j - 1));
            assert(self.link_ok(h, j));
        }
        let p = match self.prevs[x] {
            Some(p) => p,
            None => x,
        };
        let n = match self.nexts[x] {
            Some(n) => n,
            None => { proof { assert(false); } x },
        };
        self.unlink_between(Ghost(h), Ghost(j - 1), p, x, n);
        proof {
            let m = old(self).lists@[h];
            old(self).lemma_members(h);
            assert(m[j - 1] == x);
            assert(m.index_of(x) == j - 1);
            assert forall|g: usize| #[trigger] self.has_list(g) == old(self).has_list(g) by {}
            assert forall|i: usize| i != x implies #[trigger] self.is_detached(i) == old(self).is_detached(i) by {}
            assert forall|i: usize| i != x implies #[trigger] self.is_member(i) == old(self).is_member(i) by {}
        }
    }

    /// Takes the front member out of list `h` and returns it.
    pub fn pop_front(&mut self, h: usize) -> (r: Option<usize>)
        requires
            old(self).wf(),
            old(self).has_list(h),
        ensures
            final(self).wf(),
            final(self).len() == old(self).len(),
            forall|i: usize| i < old(self).len() ==> #[trigger] final(self).owner_at(i) == old(self).owner_at(i),
            forall|g: usize| #[trigger] final(self).has_list(g) == old(self).has_list(g),
            forall|g: usize| g != h && old(self).has_list(g) ==> #[trigger] final(self).members(g) == old(self).members(g),
            r is None <==> old(self).members(h).len() == 0,
            r is None ==> final(self).members(h) == old(self).members(h),
            r is None ==> *final(self) == *old(self),
            final(self).unchanged_except(*old(self), set![h], r),
            r is Some ==> {
                &&& r.unwrap() == old(self).members(h)[0]
                &&& final(self).members(h) == old(self).members(h).drop_first()
                &&& final(self).is_detached(r.unwrap())
            },
            forall|i: usize| r != Some(i) ==> #[trigger] final(self).is_detached(i) == old(self).is_detached(i),
    {
        if self.is_empty_list(h) {
            return None;
        }
        proof {
            self.lemma_list_ends(h);
            self.lemma_members(h);
            assert(self.link_ok(h, 0));
        }
        let x = match self.nexts[h] {
            Some(x) => x,
            None => h,
        };
        proof {
            assert(x == self.lists@[h][0]);
        }
        self.unlink(x);
        proof {
            let m = old(self).lists@[h];
            assert(m.index_of(x) == 0);
            assert(m.remove(0) =~= m.drop_first());
        }
        Some(x)
    }

    /// The neighbours of the members of list `h`.
    pub proof fn lemma_neighbours(&self, h: usize)
        requires
            self.wf(),
            self.has_list(h),
        ensures
            h + 1 < self.len(),
            self.members(h).len() == 0 ==> self.next_at(h) == Some((h + 1) as usize),
            self.members(h).len() > 0 ==> self.next_at(h) == Some(self.members(h)[0]),
            forall|k: int| 0 <= k < self.members(h).len() - 1 ==> #[trigger] self.next_at(self.members(h)[k])
                == Some(self.members(h)[k + 1]),
            self.members(h).len() > 0 ==> self.next_at(self.members(h).last()) == Some((h + 1) as usize),
            !self.members(h).contains((h + 1) as usize),
    {
        self.lemma_list_ends(h);
        let c = self.chain(h);
        let m = self.members(h);
        assert(self.link_ok(h, 0));
        assert(self.link_ok(h, c.len() - 2));
        assert forall|k: int| 0 <= k < m.len() - 1 implies #[trigger] self.next_at(m[k]) == Some(m[k + 1]) by {
            assert(self.link_ok(h, k + 1));
        }
        if m.contains((h + 1) as usize) {
            let k = choose|k: int| 0 <= k < m.len() && m[k] == (h + 1) as usize;
            assert(c[k + 1] == c[c.len() - 1]);
        }
    }

    /// A detached link exists and is in no list; a member is no sentinel.
    pub proof fn lemma_standing(&self, i: usize)
        requires
            self.wf(),
        ensures
            self.is_detached(i) ==> i < self.len() && !self.is_sentinel(i) && !self.is_member(i),
            self.is_member(i) ==> i < self.len() && !self.is_sentinel(i) && !self.is_detached(i),
            self.is_sentinel(i) ==> i < self.len() && !self.is_detached(i),
            i < self.len() && !self.is_member(i) && !self.is_sentinel(i) ==> self.is_detached(i),
    {
        if self.home@.contains_key(i) {
            self.lemma_home_index(i);
        }
    }

    /// A member is found in the members of its list.
    pub proof fn lemma_member_in_list(&self, i: usize)
        requires
            self.wf(),
            self.is_member(i),
        ensures
            self.has_list(self.list_of(i)),
            self.members(self.list_of(i)).contains(i),
    {
        self.lemma_home_facts(i);
    }

    /// Two changes in a row leave unchanged what neither of them touched.
    pub proof fn lemma_unchanged_trans(
        a: Self,
        b: Self,
        c: Self,
        s1: Set<usize>,
        s2: Set<usize>,
        s3: Set<usize>,
        x: Option<usize>,
    )
        requires
            b.unchanged_except(a, s1, None),
            c.unchanged_except(b, s2, x),
            forall|g: usize| s1.contains(g) || s2.contains(g) ==> #[trigger] s3.contains(g),
        ensures
            c.unchanged_except(a, s3, x),
    {
        assert forall|g: usize| a.has_list(g) && !s3.contains(g) implies #[trigger] c.members(g) == a.members(g) by {
            assert(b.has_list(g));
        }
    }

    /// A change of one link's owner, then a change that touches the same link.
    pub proof fn lemma_unchanged_trans2(
        a: Self,
        b: Self,
        c: Self,
        s1: Set<usize>,
        s2: Set<usize>,
        s3: Set<usize>,
        x: usize,
    )
        requires
            b.unchanged_except(a, s1, Some(x)),
            c.unchanged_except(b, s2, Some(x)),
            forall|g: usize| s1.contains(g) || s2.contains(g) ==> #[trigger] s3.contains(g),
        ensures
            c.unchanged_except(a, s3, Some(x)),
    {
        assert forall|g: usize| a.has_list(g) && !s3.contains(g) implies #[trigger] c.members(g) == a.members(g) by {
            assert(b.has_list(g));
        }
    }

    /// A link in a list is either a member of it or one of its sentinels.
    proof fn lemma_home_facts(&self, i: usize)
        requires
            self.wf(),
        ensures
            self.home@.contains_key(i) ==> self.has_list(self.home@[i]),
            self.is_member(i) ==> self.members(self.home@[i]).contains(i),
            self.is_sentinel(i) ==> i == self.home@[i] || i == self.home@[i] + 1,
    {
        if self.home@.contains_key(i) {
            let j = self.lemma_home_index(i);
            let g = self.home@[i];
            self.lemma_list_ends(g);
            if self.is_member(i) {
                assert(j != 0);
                assert(j != self.chain(g).len() - 1);
                assert(self.members(g)[j - 1] == i);
            }
        }
    }

    /// Moves every member of list `src`, in order, to the front of list `dst`.
    pub fn move_all_to_front(&mut self, src: usize, dst: usize)
        requires
            old(self).wf(),
            old(self).has_list(src),
            old(self).has_list(dst),
            src != dst,
        ensures
            final(self).wf(),
            final(self).len() == old(self).len(),
            forall|i: usize| i < old(self).len() ==> #[trigger] final(self).owner_at(i) == old(self).owner_at(i),
            forall|g: usize| #[trigger] final(self).has_list(g) == old(self).has_list(g),
            forall|g: usize|
                g != src && g != dst && old(self).has_list(g) ==> #[trigger] final(self).members(g)
                    == old(self).members(g),
            final(self).members(src) == Seq::<usize>::empty(),
            final(self).members(dst) == old(self).members(src).add(old(self).members(dst)),
            final(self).unchanged_except(*old(self), set![src, dst], None),
            forall|i: usize| #[trigger] final(self).is_detached(i) == old(self).is_detached(i),
            forall|i: usize| #[trigger] final(self).is_member(i) == old(self).is_member(i),
    {
        if self.is_empty_list(src) {
            proof {
                assert(old(self).members(src) + old(self).members(dst) =~= old(self).members(dst));
                assert(self.lists@[src] =~= Seq::<usize>::empty());
            }
            return;
        }
        let ghost cs = self.chain(src);
        let ghost cd = self.chain(dst);
        let ghost l1 = self.lists@[src];
        let ghost l2 = self.lists@[dst];
        proof {
            self.lemma_list_ends(src);
            self.lemma_list_ends(dst);
            assert(self.link_ok(src, 0));
            assert(self.link_ok(src, cs.len() - 2));
            assert(self.link_ok(dst, 0));
            assert(self.home_ok(src, 1));
            assert(self.home_ok(src, cs.len() - 2));
            assert(self.home_ok(dst, 1));
        }
        let st = src + 1;
        let a = match self.nexts[src] {
            Some(a) => a,
            None => src,
        };
        let b = match self.prevs[st] {
            Some(b) => b,
            None => src,
        };
        let d = match self.nexts[dst] {
            Some(d) => d,
            None => dst,
        };
        proof {
            assert(a == cs[1]);
            assert(b == cs[cs.len() - 2]);
            assert(d == cd[1]);
        }
        self.prevs.set(d, Some(b));
        self.nexts.set(b, Some(d));
        self.nexts.set(dst, Some(a));
        self.prevs.set(a, Some(dst));
        self.nexts.set(src, Some(st));
        self.prevs.set(st, Some(src));
        proof {
            let old_home = old(self).home@;
            self.lists@ = self.lists@.insert(dst, l1 + l2).insert(src, Seq::empty());
            self.home@ = Map::new(
                |i: usize| old_home.contains_key(i),
                |i: usize| if old_home[i] == src && i != src && i != st { dst } else { old_home[i] },
            );
            assert(self.home@.dom() =~= old_home.dom());
            let ncs = self.chain(src);
            let ncd = self.chain(dst);
            assert(ncs =~= seq![src, st]);
            let n1 = l1.len() as int;
            assert(ncd.len() == n1 + l2.len() + 2);
            assert(forall|j: int| 1 <= j <= n1 ==> ncd[j] == cs[j]);
            assert(forall|j: int| n1 + 1 <= j < ncd.len() ==> ncd[j] == cd[j - n1]);
            assert(ncd[0] == dst);
            // list `src` is now empty and well formed
            assert(self.home_ok(src, 0));
            assert(self.home_ok(src, 1));
            assert(self.link_ok(src, 0));
            assert(self.list_wf(src));
            // list `dst` holds both
            assert forall|j: int| 0 <= j < ncd.len() implies #[trigger] self.home_ok(dst, j) by {
                if 1 <= j <= n1 {
                    assert(old(self).home_ok(src, j));
                    assert(cs[j] != src && cs[j] != st) by {
                        assert(cs[0] == src);
                        assert(cs[cs.len() - 1] == st);
                    }
                } else if j > n1 {
                    assert(old(self).home_ok(dst, j - n1));
                } else {
                    assert(old(self).home_ok(dst, 0));
                }
            }
            assert forall|j: int| 0 <= j < ncd.len() - 1 implies #[trigger] self.link_ok(dst, j) by {
                if j == 0 {
                    assert(ncd[1] == a);
                } else if j == n1 {
                    assert(ncd[j] == b);
                    assert(ncd[j + 1] == d);
                } else if j < n1 {
                    assert(old(self).link_ok(src, j));
                    assert(old(self).home_ok(src, j));
                    assert(old(self).home_ok(src, j + 1));
                    assert(cs[j] != b && cs[j + 1] != a);
                } else {
                    assert(old(self).link_ok(dst, j - n1));
                    assert(old(self).home_ok(dst, j - n1));
                    assert(old(self).home_ok(dst, j - n1 + 1));
                    assert(cd[j - n1] != dst && cd[j - n1 + 1] != d);
                }
            }
            assert(ncd.no_duplicates()) by {
                assert forall|x: int, y: int| 0 <= x < ncd.len() && 0 <= y < ncd.len() && x != y
                    implies ncd[x] != ncd[y] by {
                    if 1 <= x <= n1 && 1 <= y <= n1 {
                        assert(cs[x] != cs[y]);
                    } else if !(1 <= x <= n1) && !(1 <= y <= n1) {
                        let x0 = if x == 0 { 0 } else { x - n1 };
                        let y0 = if y == 0 { 0 } else { y - n1 };
                        assert(cd[x0] != cd[y0]);
                    } else if 1 <= x <= n1 {
                        let y0 = if y == 0 { 0 } else { y - n1 };
                        assert(old(self).home_ok(src, x));
                        assert(old(self).home_ok(dst, y0));
                    } else {
                        let x0 = if x == 0 { 0 } else { x - n1 };
                        assert(old(self).home_ok(src, y));
                        assert(old(self).home_ok(dst, x0));
                    }
                }
            }
            assert(ncd[ncd.len() - 1] == dst + 1);
            assert(cd[cd.len() - 1] == dst + 1);
            assert(self.list_wf(dst));
            assert forall|i: usize| #[trigger] old(self).home@.contains_key(i) && old(self).home@[i] != src
                && old(self).home@[i] != dst implies {
                    &&& self.home@.contains_key(i)
                    &&& self.home@[i] == old(self).home@[i]
                    &&& self.nexts@[i as int] == old(self).nexts@[i as int]
                    &&& self.prevs@[i as int] == old(self).prevs@[i as int]
                } by {
                old(self).lemma_home_index(i);
            }
            assert forall|g: usize| #[trigger] self.lists@.contains_key(g) implies self.list_wf(g) by {
                if g != src && g != dst {
                    assert(old(self).list_wf(g));
                    Self::lemma_list_unchanged(*old(self), *self, g);
                }
            }
            assert forall|i: usize| #[trigger] self.home@.contains_key(i) implies {
                &&& self.lists@.contains_key(self.home@[i])
                &&& self.chain(self.home@[i]).contains(i)
            } by {
                let j = old(self).lemma_home_index(i);
                let g = old(self).home@[i];
                if g == src {
                    if i == src {
                        assert(ncs[0] == i);
                    } else if i == st {
                        assert(ncs[1] == i);
                    } else {
                        assert(1 <= j <= n1) by {
                            assert(cs[0] == src);
                            assert(cs[cs.len() - 1] == st);
                        }
                        assert(ncd[j] == i);
                    }
                } else if g == dst {
                    if j == 0 {
                        assert(ncd[0] == i);
                    } else {
                        assert(ncd[j + n1] == i);
                    }
                } else {
                    assert(self.chain(g) == old(self).chain(g));
                }
            }
            assert forall|i: usize| i < self.len() && !#[trigger] self.home@.contains_key(i) implies {
                &&& self.prevs@[i as int] is None
                &&& self.nexts@[i as int] is None
            } by {
                assert(!old(self).home@.contains_key(i));
            }
            assert forall|g: usize| #[trigger] self.has_list(g) == old(self).has_list(g) by {}
            assert forall|i: usize| #[trigger] self.is_detached(i) == old(self).is_detached(i) by {}
            assert forall|i: usize| #[trigger] self.is_member(i) == old(self).is_member(i) by {
                if old_home.contains_key(i) && old_home[i] == src && i != src && i != st {
                    let j = old(self).lemma_home_index(i);
                    old(self).lemma_list_ends(dst);
                    assert(old(self).home_ok(dst, 0));
                    assert(i != dst);
                    assert(i != dst + 1) by {
                        assert(old(self).home_ok(dst, cd.len() - 1));
                    }
                }
            }
        }
    }

    /// The owner carried by link `i`.
    pub fn owner(&self, i: usize) -> (r: Option<&T>)
        requires
            i < self.len(),
        ensures
            r is Some <==> self.owner_at(i) is Some,
            r is Some ==> *r.unwrap() == self.owner_at(i).unwrap(),
    {
        match &self.owners[i] {
            Some(o) => Some(o),
            None => None,
        }
    }

    /// Replaces the owner carried by link `i`, and returns the one it carried.
    pub fn replace_owner(&mut self, i: usize, owner: Option<T>) -> (r: Option<T>)
        requires
            old(self).wf(),
            i < old(self).len(),
        ensures
            final(self).wf(),
            r == old(self).owner_at(i),
            final(self).owner_at(i) == owner,
            final(self).len() == old(self).len(),
            final(self).unchanged_except(*old(self), Set::empty(), Some(i)),
            forall|j: usize| j != i && j < old(self).len() ==> #[trigger] final(self).owner_at(j) == old(self).owner_at(j),
            forall|j: usize| #[trigger] final(self).next_at(j) == old(self).next_at(j),
            forall|j: usize| #[trigger] final(self).prev_at(j) == old(self).prev_at(j),
            forall|g: usize| #[trigger] final(self).has_list(g) == old(self).has_list(g),
            forall|g: usize| #[trigger] final(self).members(g) == old(self).members(g),
            forall|j: usize| #[trigger] final(self).is_detached(j) == old(self).is_detached(j),
            forall|j: usize| #[trigger] final(self).is_member(j) == old(self).is_member(j),
            forall|j: usize| #[trigger] final(self).is_sentinel(j) == old(self).is_sentinel(j),
            forall|j: usize| #[trigger] final(self).list_of(j) == old(self).list_of(j),
    {
        let mut o = owner;
        self.owners.set_and_swap(i, &mut o);
        proof {
            assert forall|g: usize| #[trigger] self.lists@.contains_key(g) implies self.list_wf(g) by {
                assert(old(self).list_wf(g));
                Self::lemma_list_unchanged(*old(self), *self, g);
            }
        }
        o
    }

    /// Whether link `i`, which is no sentinel, is in a list.
    pub fn is_linked(&self, i: usize) -> (r: bool)
        requires
            self.wf(),
            i < self.len(),
            !self.is_sentinel(i),
        ensures
            r == self.is_member(i),
    {
        proof {
            if self.home@.contains_key(i) {
                let j = self.lemma_home_index(i);
                let h = self.home@[i];
                self.lemma_list_ends(h);
                let c = self.chain(h);
                assert(c[0] == h);
                assert(j != 0);
                assert(self.link_ok(h, j - 1));
            }
        }
        self.prevs[i].is_some()
    }

    /// The next neighbour of link `i`.
    pub fn next(&self, i: usize) -> (r: Option<usize>)
        requires
            i < self.len(),
            self.wf(),
        ensures
            r == self.next_at(i),
    {
        self.nexts[i]
    }

    /// The previous neighbour of link `i`.
    pub fn prev(&self, i: usize) -> (r: Option<usize>)
        requires
            i < self.len(),
            self.wf(),
        ensures
            r == self.prev_at(i),
    {
        self.prevs[i]
    }
}

/// A list over a `Links` arena. Its sentinels are made in the arena the first time the
/// list is used, so a new list needs no arena.
pub struct List<T> {
    head: Option<usize>,
    marker: core::marker::PhantomData<T>,
}

impl<T> List<T> {
    /// The head sentinel of the list, once it has one.
    pub closed spec fn head_view(&self) -> Option<usize> {
        self.head
    }

    /// The list belongs to `links`.
    pub open spec fn wf_in(&self, links: Links<T>) -> bool {
        self.head_view() is Some ==> links.has_list(self.head_view().unwrap())
    }

    /// The members of the list, front to back.
    pub open spec fn view_in(&self, links: Links<T>) -> Seq<usize> {
        match self.head_view() {
            Some(h) => links.members(h),
            None => Seq::empty(),
        }
    }

    /// A list with no members.
    pub fn new() -> (r: Self)
        ensures
            r.head_view() is None,
    {
        List { head: None, marker: core::marker::PhantomData }
    }

    /// Gives the list its sentinels in `links` if it has none yet.
    fn maybe_init_head_tail(&mut self, links: &mut Links<T>)
        requires
            old(links).wf(),
            old(self).wf_in(*old(links)),
        ensures
            final(links).wf(),
            final(self).head_view() is Some,
            final(self).wf_in(*final(links)),
            old(self).head_view() is Some ==> final(self).head_view() == old(self).head_view()
                && *final(links) == *old(links),
            old(self).head_view() is None ==> final(self).head_view().unwrap() == old(links).len(),
            final(self).view_in(*final(links)) == old(self).view_in(*old(links)),
            final(links).len() >= old(links).len(),
            forall|i: usize| old(links).len() <= i < final(links).len() ==> #[trigger] final(links).owner_at(i) is None,
            final(links).unchanged_except(*old(links), Set::empty(), None),
            forall|g: usize| old(links).has_list(g) ==> #[trigger] final(links).has_list(g),
            forall|g: usize| #[trigger] final(links).has_list(g) ==> old(links).has_list(g)
                || Some(g) == final(self).head_view(),
            forall|g: usize| old(links).has_list(g) ==> #[trigger] final(links).members(g) == old(links).members(g),
            forall|i: usize| i < old(links).len() ==> {
                &&& #[trigger] final(links).owner_at(i) == old(links).owner_at(i)
                &&& final(links).is_detached(i) == old(links).is_detached(i)
                &&& final(links).is_member(i) == old(links).is_member(i)
                &&& final(links).is_sentinel(i) == old(links).is_sentinel(i)
            },
    {
        if self.head.is_none() {
            let h = links.new_list();
            self.head = Some(h);
            proof {
                assert forall|i: usize| i < old(links).len() implies
                    #[trigger] links.is_sentinel(i) == old(links).is_sentinel(i) by {
                    if old(links).home@.contains_key(i) {
                        old(links).lemma_home_index(i);
                    }
                }
            }
        }
    }

    /// The head sentinel of the list, once it has one.
    pub fn head(&self) -> (r: Option<usize>)
        ensures
            r == self.head_view(),
    {
        self.head
    }

    /// The tail sentinel of the list, once it has one.
    pub fn tail(&self, links: &Links<T>) -> (r: Option<usize>)
        requires
            links.wf(),
            self.wf_in(*links),
        ensures
            r is Some <==> self.head_view() is Some,
            r is Some ==> r.unwrap() == self.head_view().unwrap() + 1,
    {
        match self.head {
            Some(h) => {
                proof {
                    links.lemma_list_ends(h);
                }
                Some(h + 1)
            },
            None => None,
        }
    }

    /// Whether the list has no members.
    pub fn is_empty(&self, links: &Links<T>) -> (r: bool)
        requires
            links.wf(),
            self.wf_in(*links),
        ensures
            r == (self.view_in(*links).len() == 0),
    {
        match self.head {
            Some(h) => links.is_empty_list(h),
            None => true,
        }
    }

    /// Puts the detached link `link`, now carrying `link_owner`, at the front.
    pub fn push_link_front(&mut self, links: &mut Links<T>, link_owner: T, link: usize)
        requires
            old(links).wf(),
            old(self).wf_in(*old(links)),
            old(links).is_detached(link),
        ensures
            final(links).wf(),
            final(self).wf_in(*final(links)),
            final(self).view_in(*final(links)) == seq![link].add(old(self).view_in(*old(links))),
            final(links).owner_at(link) == Some(link_owner),
            final(links).is_member(link),
            final(links).unchanged_except(*old(links), set![final(self).head_view().unwrap()], Some(link)),
            old(self).head_view() is Some ==> final(self).head_view() == old(self).head_view(),
            forall|g: usize| #[trigger] final(links).has_list(g) ==> old(links).has_list(g) || Some(g)
                == final(self).head_view(),
            old(self).head_view() is None ==> !old(links).has_list(final(self).head_view().unwrap()),
    {
        let ghost links0 = *links;
        self.maybe_init_head_tail(links);
        let h = match self.head {
            Some(h) => h,
            None => { proof { assert(false); } 0 },
        };
        proof {
            if old(self).head_view() is None && old(links).has_list(h) {
                old(links).lemma_list_ends(h);
            }
        }
        let ghost links1 = *links;
        assert(links.owner_at(link) == old(links).owner_at(link));
        links.push_front(h, link, link_owner);
        proof {
            Links::lemma_unchanged_trans(links0, links1, *links, Set::empty(), set![h], set![h], Some(link));
        }
    }

    /// Puts the detached link `link`, now carrying `link_owner`, at the back.
    pub fn push_link_back(&mut self, links: &mut Links<T>, link_owner: T, link: usize)
        requires
            old(links).wf(),
            old(self).wf_in(*old(links)),
            old(links).is_detached(link),
        ensures
            final(links).wf(),
            final(self).wf_in(*final(links)),
            final(self).view_in(*final(links)) == old(self).view_in(*old(links)).push(link),
            final(links).owner_at(link) == Some(link_owner),
            final(links).is_member(link),
            final(links).unchanged_except(*old(links), set![final(self).head_view().unwrap()], Some(link)),
            old(self).head_view() is Some ==> final(self).head_view() == old(self).head_view(),
            forall|g: usize| #[trigger] final(links).has_list(g) ==> old(links).has_list(g) || Some(g)
                == final(self).head_view(),
            old(self).head_view() is None ==> !old(links).has_list(final(self).head_view().unwrap()),
    {
        self.maybe_init_head_tail(links);
        let h = match self.head {
            Some(h) => h,
            None => { proof { assert(false); } 0 },
        };
        proof {
            if old(self).head_view() is None && old(links).has_list(h) {
                old(links).lemma_list_ends(h);
            }
        }
        let ghost links1 = *links;
        assert(links.owner_at(link) == old(links).owner_at(link));
        links.push_back(h, link, link_owner);
        proof {
            Links::lemma_unchanged_trans(*old(links), links1, *links, Set::empty(), set![h], set![h], Some(link));
        }
    }

    /// Takes the front member out of the list and returns it, now detached.
    pub fn pop_front(&mut self, links: &mut Links<T>) -> (r: Option<usize>)
        requires
            old(links).wf(),
            old(self).wf_in(*old(links)),
        ensures
            final(links).wf(),
            final(self).wf_in(*final(links)),
            r is None <==> old(self).view_in(*old(links)).len() == 0,
            r is None ==> final(self).view_in(*final(links)) == old(self).view_in(*old(links)),
            r is None && old(self).head_view() is Some ==> *final(links) == *old(links),
            r is Some ==> {
                &&& r.unwrap() == old(self).view_in(*old(links))[0]
                &&& final(self).view_in(*final(links)) == old(self).view_in(*old(links)).drop_first()
                &&& final(links).is_detached(r.unwrap())
                &&& final(links).owner_at(r.unwrap()) == old(links).owner_at(r.unwrap())
            },
            final(links).unchanged_except(*old(links), set![final(self).head_view().unwrap()], r),
            old(self).head_view() is Some ==> final(self).head_view() == old(self).head_view(),
            forall|g: usize| #[trigger] final(links).has_list(g) ==> old(links).has_list(g) || Some(g)
                == final(self).head_view(),
            old(self).head_view() is None ==> !old(links).has_list(final(self).head_view().unwrap()),
            forall|i: usize| old(links).len() <= i < final(links).len() ==> #[trigger] final(links).owner_at(i) is None,
    {
        self.maybe_init_head_tail(links);
        let h = match self.head {
            Some(h) => h,
            None => { proof { assert(false); } 0 },
        };
        proof {
            if old(self).head_view() is None && old(links).has_list(h) {
                old(links).lemma_list_ends(h);
            }
        }
        let ghost links1 = *links;
        let r = links.pop_front(h);
        proof {
            Links::lemma_unchanged_trans(*old(links), links1, *links, Set::empty(), set![h], set![h], r);
        }
        r
    }

    /// Moves every member of this list, in order, to the front of `dst`.
    pub fn move_to_front_of(&mut self, links: &mut Links<T>, dst: &mut List<T>)
        requires
            old(links).wf(),
            old(self).wf_in(*old(links)),
            old(dst).wf_in(*old(links)),
            old(self).head_view() is Some && old(dst).head_view() is Some ==> old(self).head_view()
                != old(dst).head_view(),
        ensures
            final(links).wf(),
            final(self).wf_in(*final(links)),
            final(dst).wf_in(*final(links)),
            final(self).view_in(*final(links)) == Seq::<usize>::empty(),
            final(dst).view_in(*final(links)) == old(self).view_in(*old(links)).add(
                old(dst).view_in(*old(links)),
            ),
            final(links).unchanged_except(
                *old(links),
                set![final(self).head_view().unwrap(), final(dst).head_view().unwrap()],
                None,
            ),
            old(self).head_view() is Some ==> final(self).head_view() == old(self).head_view(),
            old(dst).head_view() is Some ==> final(dst).head_view() == old(dst).head_view(),
            final(self).head_view() is Some,
            final(dst).head_view() is Some,
            final(self).head_view() != final(dst).head_view(),
            old(self).head_view() is None ==> !old(links).has_list(final(self).head_view().unwrap()),
            old(dst).head_view() is None ==> !old(links).has_list(final(dst).head_view().unwrap()),
            forall|g: usize| #[trigger] final(links).has_list(g) ==> old(links).has_list(g) || Some(g)
                == final(self).head_view() || Some(g) == final(dst).head_view(),
    {
        self.maybe_init_head_tail(links);
        let ghost links1 = *links;
        dst.maybe_init_head_tail(links);
        let ghost links2 = *links;
        let src_h = match self.head {
            Some(h) => h,
            None => { proof { assert(false); } 0 },
        };
        let dst_h = match dst.head {
            Some(h) => h,
            None => { proof { assert(false); } 0 },
        };
        proof {
            if old(dst).head_view() is None {
                assert(links1.has_list(src_h));
                links1.lemma_list_ends(src_h);
                if old(links).has_list(dst_h) {
                    old(links).lemma_list_ends(dst_h);
                }
            }
            if old(self).head_view() is None && old(links).has_list(src_h) {
                old(links).lemma_list_ends(src_h);
            }
        }
        proof {
            if old(dst).head_view() is None && old(links).has_list(dst_h) {
                old(links).lemma_list_ends(dst_h);
            }
            if old(self).head_view() is None && old(links).has_list(src_h) {
                old(links).lemma_list_ends(src_h);
            }
        }
        links.move_all_to_front(src_h, dst_h);
        proof {
            Links::lemma_unchanged_trans(*old(links), links1, links2, Set::empty(), Set::empty(), Set::empty(), None);
            Links::lemma_unchanged_trans(*old(links), links2, *links, Set::empty(), set![src_h, dst_h], set![src_h, dst_h], None);
        }
    }
}

/// A list member together with the value it carries. The value lives in the arena, as
/// the owner of the node's link.
pub struct Node<T> {
    link: usize,
    marker: core::marker::PhantomData<T>,
}

impl<T> Node<T> {
    /// The arena index of the node's link.
    pub closed spec fn link_view(&self) -> usize {
        self.link
    }

    /// A node carrying `value`, with a detached link of `links` that no list holds.
    pub fn new(links: &mut Links<T>, value: T) -> (r: Self)
        requires
            old(links).wf(),
        ensures
            final(links).wf(),
            r.link_view() < final(links).len(),
            r.link_view() < old(links).len() ==> old(links).is_detached(r.link_view()) && old(
                links,
            ).free_view().contains(r.link_view()),
            r.link_view() >= old(links).len() ==> r.link_view() == old(links).len(),
            !final(links).free_view().contains(r.link_view()),
            final(links).is_detached(r.link_view()),
            final(links).owner_at(r.link_view()) == Some(value),
            final(links).unchanged_except(*old(links), Set::empty(), Some(r.link_view())),
            forall|i: usize| i < old(links).len() && i != r.link_view() ==> #[trigger] final(links).owner_at(i)
                == old(links).owner_at(i),
            final(links).same_lists(*old(links)),
    {
        let link = links.add(Link { owner: Some(value), prev: None, next: None });
        Node { link, marker: core::marker::PhantomData }
    }

    /// The arena index of the node's link.
    pub fn link(&self) -> (r: usize)
        ensures
            r == self.link_view(),
    {
        self.link
    }

    /// The value the node carries.
    pub fn data<'a>(&self, links: &'a Links<T>) -> (r: Option<&'a T>)
        requires
            self.link_view() < links.len(),
        ensures
            r is Some <==> links.owner_at(self.link_view()) is Some,
            r is Some ==> *r.unwrap() == links.owner_at(self.link_view()).unwrap(),
    {
        links.owner(self.link)
    }

    /// Takes the node out of the list it is in.
    pub fn unlink(&self, links: &mut Links<T>)
        requires
            old(links).wf(),
            self.link_view() < old(links).len(),
            !old(links).is_sentinel(self.link_view()),
        ensures
            final(links).wf(),
            final(links).is_detached(self.link_view()),
            final(links).unchanged_except(
                *old(links),
                if old(links).is_member(self.link_view()) {
                    set![old(links).list_of(self.link_view())]
                } else {
                    Set::empty()
                },
                Some(self.link_view()),
            ),
            forall|i: usize| i < old(links).len() ==> #[trigger] final(links).owner_at(i) == old(links).owner_at(i),
            forall|g: usize| #[trigger] final(links).has_list(g) == old(links).has_list(g),
            old(links).is_member(self.link_view()) ==> final(links).members(old(links).list_of(self.link_view()))
                == old(links).members(old(links).list_of(self.link_view())).remove(
                old(links).members(old(links).list_of(self.link_view())).index_of(self.link_view()),
            ),
            forall|g: usize|
                old(links).has_list(g) && !(old(links).is_member(self.link_view()) && g == old(links).list_of(
                    self.link_view(),
                )) ==> #[trigger] final(links).members(g) == old(links).members(g),
    {
        links.unlink(self.link);
    }
}

impl<T> List<T> {
    /// Puts the detached node at the front of the list.
    pub fn push_node_front(&mut self, links: &mut Links<T>, node: &Node<T>)
        requires
            old(links).wf(),
            old(self).wf_in(*old(links)),
            old(links).is_detached(node.link_view()),
            old(links).owner_at(node.link_view()) is Some,
        ensures
            final(links).wf(),
            final(self).wf_in(*final(links)),
            final(self).view_in(*final(links)) == seq![node.link_view()].add(old(self).view_in(*old(links))),
            final(links).owner_at(node.link_view()) == old(links).owner_at(node.link_view()),
            final(links).is_member(node.link_view()),
            final(links).unchanged_except(*old(links), set![final(self).head_view().unwrap()], Some(node.link_view())),
            old(self).head_view() is Some ==> final(self).head_view() == old(self).head_view(),
            forall|g: usize| #[trigger] final(links).has_list(g) ==> old(links).has_list(g) || Some(g)
                == final(self).head_view(),
            old(self).head_view() is None ==> !old(links).has_list(final(self).head_view().unwrap()),
    {
        let ghost links0 = *links;
        let owner = links.replace_owner(node.link, None);
        let ghost links1 = *links;
        match owner {
            Some(o) => {
                proof {
                    assert(self.view_in(*links) == self.view_in(links0));
                }
                self.push_link_front(links, o, node.link);
                proof {
                    Links::lemma_unchanged_trans2(links0, links1, *links, Set::empty(), set![self.head_view().unwrap()], set![self.head_view().unwrap()], node.link);
                }
            },
            None => { proof { assert(false); } },
        }
    }

    /// Puts the detached node at the back of the list.
    pub fn push_node_back(&mut self, links: &mut Links<T>, node: &Node<T>)
        requires
            old(links).wf(),
            old(self).wf_in(*old(links)),
            old(links).is_detached(node.link_view()),
            old(links).owner_at(node.link_view()) is Some,
        ensures
            final(links).wf(),
            final(self).wf_in(*final(links)),
            final(self).view_in(*final(links)) == old(self).view_in(*old(links)).push(node.link_view()),
            final(links).owner_at(node.link_view()) == old(links).owner_at(node.link_view()),
            final(links).is_member(node.link_view()),
            final(links).unchanged_except(*old(links), set![final(self).head_view().unwrap()], Some(node.link_view())),
            old(self).head_view() is Some ==> final(self).head_view() == old(self).head_view(),
            forall|g: usize| #[trigger] final(links).has_list(g) ==> old(links).has_list(g) || Some(g)
                == final(self).head_view(),
            old(self).head_view() is None ==> !old(links).has_list(final(self).head_view().unwrap()),
    {
        let ghost links0 = *links;
        let owner = links.replace_owner(node.link, None);
        let ghost links1 = *links;
        match owner {
            Some(o) => {
                proof {
                    assert(self.view_in(*links) == self.view_in(links0));
                }
                self.push_link_back(links, o, node.link);
                proof {
                    Links::lemma_unchanged_trans2(links0, links1, *links, Set::empty(), set![self.head_view().unwrap()], set![self.head_view().unwrap()], node.link);
                }
            },
            None => { proof { assert(false); } },
        }
    }

    /// An iterator over the members of the list, front to back.
    pub fn iter(&self, links: &Links<T>) -> (r: ListIterator)
        requires
            links.wf(),
            self.wf_in(*links),
        ensures
            r.valid_for(*links),
            r.remaining() == self.view_in(*links),
    {
        match self.head {
            Some(h) => {
                proof {
                    links.lemma_neighbours(h);
                }
                ListIterator {
                    current: links.next(h),
                    tail: h + 1,
                    head: Ghost(Some(h)),
                    items: Ghost(links.members(h)),
                    pos: Ghost(0),
                }
            },
            None => ListIterator {
                current: None,
                tail: 0,
                head: Ghost(None),
                items: Ghost(Seq::empty()),
                pos: Ghost(0),
            },
        }
    }
}

/// Walks the members of a list, front to back.
pub struct ListIterator {
    current: Option<usize>,
    tail: usize,
    head: Ghost<Option<usize>>,
    items: Ghost<Seq<usize>>,
    pos: Ghost<int>,
}

impl ListIterator {
    /// The members not yet handed out.
    pub closed spec fn remaining(&self) -> Seq<usize> {
        self.items@.subrange(self.pos@, self.items@.len() as int)
    }

    /// The iterator walks a list of `links` that has not changed since it was made.
    pub closed spec fn valid_for<T>(&self, links: Links<T>) -> bool {
        &&& links.wf()
        &&& 0 <= self.pos@ <= self.items@.len()
        &&& match self.head@ {
            Some(h) => {
                &&& links.has_list(h)
                &&& self.items@ == links.members(h)
                &&& self.tail == h + 1
                &&& self.current == Some(
                    if self.pos@ < self.items@.len() {
                        self.items@[self.pos@]
                    } else {
                        (h + 1) as usize
                    },
                )
            },
            None => self.current is None && self.items@.len() == 0,
        }
    }

    /// The next member, if any is left.
    pub fn next<T>(&mut self, links: &Links<T>) -> (r: Option<usize>)
        requires
            old(self).valid_for(*links),
        ensures
            final(self).valid_for(*links),
            old(self).remaining().len() == 0 ==> r is None && final(self).remaining() == old(self).remaining(),
            old(self).remaining().len() > 0 ==> r == Some(old(self).remaining()[0])
                && final(self).remaining() == old(self).remaining().drop_first(),
    {
        match self.current {
            Some(x) => {
                if x == self.tail {
                    proof {
                        let h = self.head@.unwrap();
                        links.lemma_neighbours(h);
                        if self.pos@ < self.items@.len() {
                            assert(self.items@.contains(self.items@[self.pos@]));
                        }
                    }
                    None
                } else {
                    proof {
                        let h = self.head@.unwrap();
                        links.lemma_neighbours(h);
                        links.lemma_members(h);
                        assert(self.pos@ < self.items@.len());
                        if self.pos@ < self.items@.len() - 1 {
                            assert(links.next_at(self.items@[self.pos@]) == Some(self.items@[self.pos@ + 1]));
                        }
                    }
                    self.current = links.next(x);
                    proof {
                        self.pos@ = self.pos@ + 1;
                        assert(self.remaining() =~= old(self).remaining().drop_first());
                    }
                    Some(x)
                }
            },
            None => None,
        }
    }
}

/// An arena that serves one list of waiters, `waiting`, and one scratch list,
/// `notified`, that is empty between operations.
pub open spec fn lists_ok<X>(links: Links<X>, waiting: List<X>, notified: List<X>) -> bool {
    &&& links.wf()
    &&& waiting.wf_in(links)
    &&& notified.wf_in(links)
    &&& notified.view_in(links).len() == 0
    &&& (waiting.head_view() is Some && notified.head_view() is Some ==> waiting.head_view()
        != notified.head_view())
    &&& forall|g: usize| #[trigger] links.has_list(g) ==> Some(g) == waiting.head_view() || Some(g)
        == notified.head_view()
}

/// Every member of `list` carries an owner.
pub open spec fn all_owned<X>(links: Links<X>, list: List<X>) -> bool {
    forall|k: int| 0 <= k < list.view_in(links).len() ==> (#[trigger] links.owner_at(list.view_in(links)[k])) is Some
}

/// The members of a list of `links` are distinct member links of it.
pub proof fn lemma_view_in<X>(links: Links<X>, list: List<X>)
    requires
        links.wf(),
        list.wf_in(links),
    ensures
        list.view_in(links).no_duplicates(),
        forall|k: int| 0 <= k < list.view_in(links).len() ==> {
            &&& #[trigger] list.view_in(links)[k] < links.len()
            &&& links.is_member(list.view_in(links)[k])
        },
{
    if list.head_view() is Some {
        links.lemma_members(list.head_view().unwrap());
    }
}

/// In such an arena a member is a member of the waiting list.
pub proof fn lemma_member_waits<X>(links: Links<X>, waiting: List<X>, notified: List<X>, l: usize)
    requires
        lists_ok(links, waiting, notified),
        l < links.len(),
        !links.is_sentinel(l),
    ensures
        links.is_member(l) == waiting.view_in(links).contains(l),
{
    if links.is_member(l) {
        links.lemma_member_in_list(l);
        let g = links.list_of(l);
        if Some(g) == notified.head_view() {
            assert(notified.view_in(links).contains(l));
        }
    }
    if waiting.view_in(links).contains(l) {
        let h = waiting.head_view().unwrap();
        links.lemma_members(h);
        let k = choose|k: int| 0 <= k < links.members(h).len() && links.members(h)[k] == l;
        assert(links.is_member(links.members(h)[k]));
    }
}

/// `s` without `l`.
pub open spec fn without(s: Seq<usize>, l: usize) -> Seq<usize> {
    if s.contains(l) {
        s.remove(s.index_of(l))
    } else {
        s
    }
}

/// Takes link `l` out of the waiting list of such an arena, if it is in it.
pub fn unlink_waiting<X>(links: &mut Links<X>, waiting: &List<X>, notified: &List<X>, l: usize)
    requires
        lists_ok(*old(links), *waiting, *notified),
        l < old(links).len(),
        !old(links).is_sentinel(l),
    ensures
        lists_ok(*final(links), *waiting, *notified),
        final(links).len() == old(links).len(),
        forall|i: usize| i < old(links).len() ==> #[trigger] final(links).owner_at(i) == old(links).owner_at(i),
        forall|i: usize| i < old(links).len() ==> #[trigger] final(links).is_sentinel(i) == old(links).is_sentinel(i),
        waiting.view_in(*final(links)) == without(waiting.view_in(*old(links)), l),
{
    let ghost l0 = *links;
    proof {
        lemma_member_waits(l0, *waiting, *notified, l);
        if l0.is_member(l) {
            l0.lemma_member_in_list(l);
            let g = l0.list_of(l);
            if Some(g) == notified.head_view() {
                assert(notified.view_in(l0).contains(l));
            }
            assert(Some(g) == waiting.head_view());
        }
    }
    links.unlink(l);
    proof {
        let lk = *links;
        assert forall|i: usize| i < l0.len() implies #[trigger] lk.is_sentinel(i) == l0.is_sentinel(i) by {
            assert(lk.owner_at(i) == l0.owner_at(i));
            if i == l {
                lk.lemma_standing(l);
                l0.lemma_standing(l);
            }
        }
        if notified.head_view() is Some {
            let g = notified.head_view().unwrap();
            assert(l0.has_list(g));
            assert(lk.members(g) == l0.members(g));
        }
    }
}

/// After a pop, the links that were no sentinels still are none, and the popped link
/// exists.
pub proof fn lemma_pop_keeps<X>(before: Links<X>, after: Links<X>, h: usize, popped: Option<usize>)
    requires
        before.wf(),
        after.wf(),
        after.unchanged_except(before, set![h], popped),
        popped is Some ==> after.is_detached(popped.unwrap()),
    ensures
        forall|l: usize| l < before.len() && !before.is_sentinel(l) ==> #[trigger] after.is_sentinel(l) == false,
        popped is Some ==> popped.unwrap() < after.len(),
{
    if popped is Some {
        after.lemma_standing(popped.unwrap());
    }
    assert forall|l: usize| l < before.len() && !before.is_sentinel(l) implies #[trigger] after.is_sentinel(l) == false by {
        if popped != Some(l) {
            assert(after.owner_at(l) == before.owner_at(l));
        } else {
            after.lemma_standing(l);
        }
    }
}

} // verus!
