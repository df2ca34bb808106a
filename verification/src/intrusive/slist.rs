//! A singly linked stack whose links live in an arena.
//!
//! `Links` holds every link; a `List` names its front link and knows, as a ghost, the
//! sequence of its members. Pushing and popping work at the front.
use vstd::prelude::*;

verus! {

/// A link that is not yet stored in an arena.
pub struct Link<T> {
    owner: Option<T>,
    next: Option<usize>,
}

impl<T> Link<T> {
    /// The owner the link carries.
    pub closed spec fn owner_view(&self) -> Option<T> {
        self.owner
    }

    /// The link has no successor.
    pub closed spec fn is_unlinked(&self) -> bool {
        self.next is None
    }

    /// A link with no owner and no successor.
    pub fn new() -> (r: Self)
        ensures
            r.owner_view() is None,
            r.is_unlinked(),
    {
        Link { owner: None, next: None }
    }

    /// The owner the link carries, if any.
    pub fn owner(&self) -> (r: Option<&T>)
        ensures
            r is Some <==> self.owner_view() is Some,
            r is Some ==> *r.unwrap() == self.owner_view().unwrap(),
    {
        match &self.owner {
            Some(o) => Some(o),
            None => None,
        }
    }
}

/// The arena that holds the links of a family of stacks.
pub struct Links<T> {
    owners: Vec<Option<T>>,
    nexts: Vec<Option<usize>>,
}

impl<T> Links<T> {
    /// Number of links in the arena.
    pub closed spec fn len(&self) -> nat {
        self.owners@.len()
    }

    /// The owner carried by link `i`.
    pub closed spec fn owner_at(&self, i: usize) -> Option<T> {
        self.owners@[i as int]
    }

    /// The successor of link `i`.
    pub closed spec fn next_at(&self, i: usize) -> Option<usize> {
        self.nexts@[i as int]
    }

    /// The arena's invariant.
    pub closed spec fn wf(&self) -> bool {
        &&& self.nexts@.len() == self.owners@.len()
    }

    /// Every link outside `changed` keeps its owner and its successor.
    pub open spec fn unchanged_except(&self, old: Self, changed: Set<usize>) -> bool {
        &&& self.len() == old.len()
        &&& forall|i: usize| i < old.len() && !changed.contains(i) ==> #[trigger] self.owner_at(i) == old.owner_at(i)
        &&& forall|i: usize| i < old.len() && !changed.contains(i) ==> #[trigger] self.next_at(i) == old.next_at(i)
    }

    /// An empty arena.
    pub fn new() -> (r: Self)
        ensures
            r.wf(),
            r.len() == 0,
    {
        Links { owners: Vec::new(), nexts: Vec::new() }
    }

    /// Stores `link` in the arena and returns its index.
    pub fn add(&mut self, link: Link<T>) -> (id: usize)
        requires
            old(self).wf(),
        ensures
            final(self).wf(),
            id == old(self).len(),
            final(self).len() == old(self).len() + 1,
            final(self).owner_at(id) == link.owner_view(),
            final(self).next_at(id) is None,
            forall|i: usize| i < old(self).len() ==> #[trigger] final(self).owner_at(i) == old(self).owner_at(i),
            forall|i: usize| i < old(self).len() ==> #[trigger] final(self).next_at(i) == old(self).next_at(i),
    {
        let id = self.owners.len();
        self.owners.push(link.owner);
        self.nexts.push(None);
        id
    }

    /// The owner carried by link `i`.
    pub fn owner(&self, i: usize) -> (r: Option<&T>)
        requires
            i < self.len(),
        ensures
            r is Some <==> self.owner_at(i) is Some,
            r is Some ==> *r.unwrap() == self.owner_at(i).unwrap(),
    {
        match &self.owners[i] {
            Some(o) => Some(o),
            None => None,
        }
    }

    /// Replaces the owner carried by link `i`, and returns the one it carried.
    pub fn replace_owner(&mut self, i: usize, owner: Option<T>) -> (r: Option<T>)
        requires
            old(self).wf(),
            i < old(self).len(),
        ensures
            final(self).wf(),
            r == old(self).owner_at(i),
            final(self).owner_at(i) == owner,
            final(self).next_at(i) == old(self).next_at(i),
            final(self).unchanged_except(*old(self), set![i]),
    {
        let mut o = owner;
        self.owners.set_and_swap(i, &mut o);
        o
    }

    /// The successor of link `i`.
    pub fn next(&self, i: usize) -> (r: Option<usize>)
        requires
            self.wf(),
            i < self.len(),
        ensures
            r == self.next_at(i),
    {
        self.nexts[i]
    }

    fn set_next(&mut self, i: usize, n: Option<usize>)
        requires
            old(self).wf(),
            i < old(self).len(),
        ensures
            final(self).wf(),
            final(self).next_at(i) == n,
            final(self).owner_at(i) == old(self).owner_at(i),
            final(self).unchanged_except(*old(self), set![i]),
    {
        self.nexts.set(i, n);
    }
}

/// A stack of links of a `Links` arena.
pub struct List<T> {
    head: Option<usize>,
    members: Ghost<Seq<usize>>,
    marker: core::marker::PhantomData<T>,
}

impl<T> List<T> {
    /// The members, from the front.
    pub closed spec fn view(&self) -> Seq<usize> {
        self.members@
    }

    /// The list's links in `links` form the chain `view()`, front to back, ending in no
    /// successor.
    pub closed spec fn wf_in(&self, links: Links<T>) -> bool {
        let m = self.members@;
        &&& links.wf()
        &&& m.no_duplicates()
        &&& forall|k: int| 0 <= k < m.len() ==> #[trigger] m[k] < links.len()
        &&& self.head == (if m.len() == 0 { None } else { Some(m[0]) })
        &&& forall|k: int| 0 <= k < m.len() ==> #[trigger] links.next_at(m[k]) == (if k + 1 < m.len() {
            Some(m[k + 1])
        } else {
            None
        })
    }

    /// An empty list.
    pub fn new() -> (r: Self)
        ensures
            r.view() == Seq::<usize>::empty(),
            forall|links: Links<T>| links.wf() ==> r.wf_in(links),
    {
        List { head: None, members: Ghost(Seq::empty()), marker: core::marker::PhantomData }
    }

    /// The front link, if any.
    pub fn head_ref(&self, links: &Links<T>) -> (r: Option<usize>)
        requires
            self.wf_in(*links),
        ensures
            r == (if self.view().len() == 0 { None } else { Some(self.view()[0]) }),
    {
        self.head
    }

    /// Whether the list has no members.
    pub fn is_empty(&self, links: &Links<T>) -> (r: bool)
        requires
            self.wf_in(*links),
        ensures
            r == (self.view().len() == 0),
    {
        self.head.is_none()
    }

    /// Puts `link`, now carrying `link_owner`, on the front of the list.
    pub fn push(&mut self, links: &mut Links<T>, link_owner: T, link: usize)
        requires
            old(self).wf_in(*old(links)),
            link < old(links).len(),
            !old(self).view().contains(link),
        ensures
            final(self).wf_in(*final(links)),
            final(self).view() == seq![link].add(old(self).view()),
            final(links).owner_at(link) == Some(link_owner),
            final(links).unchanged_except(*old(links), set![link]),
    {
        links.set_next(link, self.head);
        links.replace_owner(link, Some(link_owner));
        self.head = Some(link);
        proof {
            let m = old(self).members@;
            self.members@ = seq![link].add(m);
            let nm = self.members@;
            assert(nm.no_duplicates()) by {
                assert forall|a: int, b: int| 0 <= a < nm.len() && 0 <= b < nm.len() && a != b
                    implies nm[a] != nm[b] by {
                    if a > 0 && b > 0 {
                        assert(m[a - 1] != m[b - 1]);
                    } else if a == 0 {
                        assert(m.contains(nm[b]));
                    } else {
                        assert(m.contains(nm[a]));
                    }
                }
            }
            assert forall|k: int| 0 <= k < nm.len() implies #[trigger] links.next_at(nm[k]) == (if k + 1
                < nm.len() {
                Some(nm[k + 1])
            } else {
                None
            }) by {
                if k > 0 {
                    assert(old(links).next_at(m[k - 1]) == (if k < m.len() {
                        Some(m[k])
                    } else {
                        None
                    }));
                    assert(m.contains(nm[k]));
                }
            }
            assert forall|k: int| 0 <= k < nm.len() implies #[trigger] nm[k] < links.len() by {
                if k > 0 {
                    assert(m[k - 1] < old(links).len());
                }
            }
        }
    }

    /// Takes the front link off the list and returns it, with no successor.
    pub fn pop(&mut self, links: &mut Links<T>) -> (r: Option<usize>)
        requires
            old(self).wf_in(*old(links)),
        ensures
            final(self).wf_in(*final(links)),
            old(self).view().len() == 0 ==> r is None && final(self).view() == old(self).view()
                && *final(links) == *old(links),
            old(self).view().len() > 0 ==> {
                &&& r == Some(old(self).view()[0])
                &&& final(self).view() == old(self).view().drop_first()
                &&& final(links).next_at(r.unwrap()) is None
                &&& final(links).unchanged_except(*old(links), set![r.unwrap()])
                &&& final(links).owner_at(r.unwrap()) == old(links).owner_at(r.unwrap())
            },
    {
        match self.head {
            Some(h) => {
                proof {
                    assert(self.members@[0] < links.len());
                }
                let n = links.next(h);
                self.head = n;
                links.set_next(h, None);
                proof {
                    let m = old(self).members@;
                    self.members@ = m.drop_first();
                    let nm = self.members@;
                    assert forall|k: int| 0 <= k < nm.len() implies #[trigger] links.next_at(nm[k]) == (
                    if k + 1 < nm.len() {
                        Some(nm[k + 1])
                    } else {
                        None
                    }) by {
                        assert(old(links).next_at(m[k + 1]) == (if k + 2 < m.len() {
                            Some(m[k + 2])
                        } else {
                            None
                        }));
                        assert(m[k + 1] != m[0]);
                    }
                    assert forall|k: int| 0 <= k < nm.len() implies #[trigger] nm[k] < links.len() by {
                        assert(m[k + 1] < old(links).len());
                    }
                    assert(old(links).next_at(m[0]) == (if 1 < m.len() {
                        Some(m[1])
                    } else {
                        None
                    }));
                }
                Some(h)
            },
            None => None,
        }
    }

    /// Takes `link` out of the list. Returns whether it was in the list.
    pub fn remove(&mut self, links: &mut Links<T>, link: usize) -> (r: bool)
        requires
            old(self).wf_in(*old(links)),
            link < old(links).len(),
        ensures
            final(self).wf_in(*final(links)),
            r == old(self).view().contains(link),
            r ==> {
                &&& final(self).view() == old(self).view().remove(old(self).view().index_of(link))
                &&& final(links).next_at(link) is None
                &&& final(links).len() == old(links).len()
                &&& forall|i: usize| i < old(links).len() ==> #[trigger] final(links).owner_at(i) == old(links).owner_at(i)
                &&& old(self).view().index_of(link) > 0 ==> final(links).next_at(
                    old(self).view()[old(self).view().index_of(link) - 1],
                ) == old(links).next_at(link)
                &&& forall|i: usize|
                    i < old(links).len() && i != link && (old(self).view().index_of(link) == 0 || i != old(
                        self,
                    ).view()[old(self).view().index_of(link) - 1]) ==> #[trigger] final(links).next_at(i) == old(
                        links,
                    ).next_at(i)
            },
            !r ==> final(self).view() == old(self).view() && *final(links) == *old(links),
    {
        let ghost m = self.members@;
        let h = match self.head {
            Some(h) => h,
            None => {
                return false;
            },
        };
        proof {
            assert(m[0] < links.len());
        }
        if h == link {
            let n = links.next(h);
            self.head = n;
            links.set_next(h, None);
            proof {
                assert(m.index_of(link) == 0) by {
                    assert(m[0] == link);
                }
                self.members@ = m.remove(0);
                assert(m.remove(0) =~= m.drop_first());
                self.lemma_drop_front(*old(self), *old(links), *links);
                assert(links.unchanged_except(*old(links), set![link, link]));
                assert forall|j: usize| j < old(links).len() implies #[trigger] links.owner_at(j) == old(links).owner_at(j) by {
                    if j != link {
                        assert(!set![link, link].contains(j));
                    }
                }
                assert forall|j: usize| j < old(links).len() && j != link implies #[trigger] links.next_at(j)
                    == old(links).next_at(j) by {
                    assert(!set![link, link].contains(j));
                }
            }
            return true;
        }
        let mut iter = h;
        let ghost mut i: int = 0;
        loop
            invariant
                self.wf_in(*links),
                *self == *old(self),
                *links == *old(links),
                m == self.members@,
                0 <= i < m.len(),
                m[i] == iter,
                forall|j: int| 0 <= j <= i ==> m[j] != link,
            decreases m.len() - i,
        {
            proof {
                assert(m[i] < links.len());
            }
            match links.next(iter) {
                None => {
                    proof {
                        assert(i + 1 >= m.len());
                        assert(!m.contains(link));
                    }
                    return false;
                },
                Some(n) => {
                    proof {
                        assert(i + 1 < m.len());
                        assert(m[i + 1] == n);
                        assert(n < links.len());
                    }
                    if n == link {
                        let after = links.next(link);
                        let ghost l0 = *links;
                        links.set_next(iter, after);
                        let ghost l1 = *links;
                        links.set_next(link, None);
                        proof {
                            assert(iter != link);
                            assert forall|j: usize| j < l0.len() implies #[trigger] links.owner_at(j) == l0.owner_at(j) by {
                                if j != link {
                                    assert(!set![link].contains(j));
                                }
                                if j != iter {
                                    assert(!set![iter].contains(j));
                                }
                                assert(l1.owner_at(j) == l0.owner_at(j));
                            }
                            assert forall|j: usize| j < l0.len() && j != link && j != iter implies #[trigger] links.next_at(
                                j,
                            ) == l0.next_at(j) by {
                                assert(!set![link].contains(j));
                                assert(!set![iter].contains(j));
                            }
                            assert(links.next_at(iter) == l0.next_at(link)) by {
                                assert(!set![link].contains(iter));
                            }
                            assert(m.index_of(link) == i + 1) by {
                                assert forall|j: int| 0 <= j < m.len() && m[j] == link implies j == i + 1 by {
                                    if j != i + 1 {
                                        assert(m[j] != m[i + 1]);
                                    }
                                }
                            }
                            self.members@ = m.remove(i + 1);
                            self.lemma_remove_inner(*old(self), *old(links), *links, i);
                            assert(links.unchanged_except(*old(links), set![link, iter]));
                        }
                        return true;
                    } else {
                        iter = n;
                        proof {
                            i = i + 1;
                        }
                    }
                },
            }
        }
    }

    proof fn lemma_drop_front(&self, old_list: Self, old_links: Links<T>, links: Links<T>)
        requires
            old_list.wf_in(old_links),
            old_list.view().len() > 0,
            self.members@ == old_list.view().drop_first(),
            self.head == (if self.members@.len() == 0 { None } else { Some(self.members@[0]) }),
            links.wf(),
            links.len() == old_links.len(),
            forall|i: usize| i < old_links.len() && i != old_list.view()[0] ==> #[trigger] links.next_at(i) == old_links.next_at(i),
        ensures
            self.wf_in(links),
    {
        let m = old_list.view();
        let nm = self.members@;
        assert(old_links.next_at(m[0]) == (if 1 < m.len() {
            Some(m[1])
        } else {
            None
        }));
        assert forall|k: int| 0 <= k < nm.len() implies #[trigger] links.next_at(nm[k]) == (if k + 1 < nm.len() {
            Some(nm[k + 1])
        } else {
            None
        }) by {
            assert(old_links.next_at(m[k + 1]) == (if k + 2 < m.len() {
                Some(m[k + 2])
            } else {
                None
            }));
            assert(m[k + 1] != m[0]);
        }
        assert forall|k: int| 0 <= k < nm.len() implies #[trigger] nm[k] < links.len() by {
            assert(m[k + 1] < old_links.len());
        }
    }

    proof fn lemma_remove_inner(&self, old_list: Self, old_links: Links<T>, links: Links<T>, i: int)
        requires
            old_list.wf_in(old_links),
            0 <= i,
            i + 1 < old_list.view().len(),
            self.members@ == old_list.view().remove(i + 1),
            self.head == old_list.head,
            links.wf(),
            links.len() == old_links.len(),
            links.next_at(old_list.view()[i]) == old_links.next_at(old_list.view()[i + 1]),
            forall|j: usize| j < old_links.len() && j != old_list.view()[i] && j != old_list.view()[i + 1] ==> #[trigger] links.next_at(j)
                == old_links.next_at(j),
        ensures
            self.wf_in(links),
    {
        let m = old_list.view();
        let nm = self.members@;
        m.remove_ensures(i + 1);
        assert(old_links.next_at(m[i + 1]) == (if i + 2 < m.len() {
            Some(m[i + 2])
        } else {
            None
        }));
        assert forall|k: int| 0 <= k < nm.len() implies #[trigger] links.next_at(nm[k]) == (if k + 1 < nm.len() {
            Some(nm[k + 1])
        } else {
            None
        }) by {
            if k < i {
                assert(old_links.next_at(m[k]) == (if k + 1 < m.len() {
                    Some(m[k + 1])
                } else {
                    None
                }));
                assert(m[k] != m[i] && m[k] != m[i + 1]);
            } else if k > i {
                assert(old_links.next_at(m[k + 1]) == (if k + 2 < m.len() {
                    Some(m[k + 2])
                } else {
                    None
                }));
                assert(m[k + 1] != m[i] && m[k + 1] != m[i + 1]);
            }
        }
        assert forall|k: int| 0 <= k < nm.len() implies #[trigger] nm[k] < links.len() by {
            if k <= i {
                assert(m[k] < old_links.len());
            } else {
                assert(m[k + 1] < old_links.len());
            }
        }
        assert(nm.no_duplicates()) by {
            assert forall|a: int, b: int| 0 <= a < nm.len() && 0 <= b < nm.len() && a != b implies nm[a]
                != nm[b] by {
                let a0 = if a <= i { a } else { a + 1 };
                let b0 = if b <= i { b } else { b + 1 };
                assert(m[a0] != m[b0]);
            }
        }
    }

    /// Moves every member to a new list, leaving this one empty.
    pub fn take(&mut self) -> (r: Self)
        ensures
            r.view() == old(self).view(),
            final(self).view() == Seq::<usize>::empty(),
            forall|links: Links<T>| old(self).wf_in(links) ==> r.wf_in(links) && final(self).wf_in(links),
    {
        let head = self.head;
        self.head = None;
        let ghost m = self.members@;
        proof {
            self.members@ = Seq::empty();
        }
        List { head, members: Ghost(m), marker: core::marker::PhantomData }
    }
}

} // verus!
