//! The storage behind the ordered set: an arena of node slots, a free list of
//! reclaimed slots, and one doubly linked list threaded through the live
//! nodes. Links are slot numbers, so a link can never outlive its node.

use vstd::prelude::*;

verus! {

/// One live element: its value and the slots of its two neighbours.
pub struct Node<T> {
    pub value: T,
    pub prev: Option<usize>,
    pub next: Option<usize>,
}

impl<T> Node<T> {
    /// A node that holds `value` and is linked to nothing.
    pub fn new(value: T) -> (node: Self)
        ensures
            node.value == value,
            node.prev is None,
            node.next is None,
    {
        Node { value, prev: None, next: None }
    }
}

/// An arena of nodes with one doubly linked list running through it.
pub struct NodeList<T> {
    slots: Vec<Option<Node<T>>>,
    free: Vec<usize>,
    head: Option<usize>,
    tail: Option<usize>,
    order: Ghost<Seq<usize>>,
}

impl<T> NodeList<T> {
    /// The slots of the linked nodes, from head to tail.
    pub closed spec fn order(&self) -> Seq<usize> {
        self.order@
    }

    /// The values of the linked nodes, from head to tail.
    pub closed spec fn view(&self) -> Seq<T> {
        Seq::new(self.order@.len(), |i: int| self.node(self.order@[i]).value)
    }

    /// Whether `slot` holds a node, linked or not.
    pub closed spec fn occupied(&self, slot: usize) -> bool {
        slot < self.slots.len() && self.slots[slot as int] is Some
    }

    /// The node that `slot` holds.
    pub closed spec fn node(&self, slot: usize) -> Node<T> {
        self.slots[slot as int].unwrap()
    }

    /// The node at place `i` of the list is stored and points at its two neighbours.
    spec fn linked(&self, i: int) -> bool {
        let slot = self.order@[i];
        &&& self.occupied(slot)
        &&& self.node(slot).prev == if i == 0 {
            None
        } else {
            Some(self.order@[i - 1])
        }
        &&& self.node(slot).next == if i + 1 == self.order@.len() {
            None
        } else {
            Some(self.order@[i + 1])
        }
    }

    /// The list is strictly doubly linked from `head` to `tail`, and no node is in it twice.
    spec fn chained(&self) -> bool {
        &&& self.order@.no_duplicates()
        &&& forall|i: int| 0 <= i < self.order@.len() ==> #[trigger] self.linked(i)
        &&& self.head == if self.order@.len() == 0 {
            None
        } else {
            Some(self.order@[0])
        }
        &&& self.tail == if self.order@.len() == 0 {
            None
        } else {
            Some(self.order@[self.order@.len() - 1])
        }
    }

    /// The free list names each empty slot once, and no other.
    spec fn pooled(&self) -> bool {
        &&& self.free@.no_duplicates()
        &&& forall|j: int| 0 <= j < self.free@.len() ==> !self.occupied(#[trigger] self.free@[j]) && self.free@[j]
            < self.slots.len()
        &&& forall|s: usize| s < self.slots.len() && !#[trigger] self.occupied(s) ==> self.free@.contains(s)
    }

    /// Every stored node is in the list, but for the one in `loose`, which is not.
    spec fn accounted(&self, loose: Option<usize>) -> bool {
        &&& forall|s: usize| #[trigger] self.occupied(s) ==> self.order@.contains(s) || loose == Some(s)
        &&& loose matches Some(p) ==> self.occupied(p) && !self.order@.contains(p)
    }

    /// The invariant, with at most one node stored but outside the list:
    /// that is how a node stands between allocation and attachment, and
    /// between detachment and reclamation.
    pub closed spec fn wf_with(&self, loose: Option<usize>) -> bool {
        &&& self.chained()
        &&& self.pooled()
        &&& self.accounted(loose)
    }

    /// The invariant: every stored node is in the list, and every other slot is on the free list.
    pub open spec fn wf(&self) -> bool {
        self.wf_with(None)
    }

    /// `after` has the list of `self`, with the same links; apart from
    /// `touched` its slots are those of `self`.
    spec fn same_chain(&self, after: Self, touched: Option<usize>) -> bool {
        &&& after.order == self.order
        &&& after.head == self.head
        &&& after.tail == self.tail
        &&& after.slots.len() >= self.slots.len()
        &&& forall|s: usize|
            s < self.slots.len() && touched != Some(s) ==> after.slots[s as int] == #[trigger] self.slots[s as int]
        &&& touched matches Some(s) ==> (self.order@.contains(s) ==> after.occupied(s) && after.node(s).prev
            == self.node(s).prev && after.node(s).next == self.node(s).next)
    }

    /// What the invariant says of the list's order and view.
    pub proof fn lemma_order(&self, loose: Option<usize>)
        requires
            self.wf_with(loose),
        ensures
            self.order().no_duplicates(),
            self@.len() == self.order().len(),
            forall|i: int| 0 <= i < self.order().len() ==> self.occupied(#[trigger] self.order()[i]),
            forall|i: int| 0 <= i < self.order().len() ==> self.node(#[trigger] self.order()[i]).value == self@[i],
            loose matches Some(slot) ==> self.occupied(slot) && !self.order().contains(slot),
    {
        assert forall|i: int| 0 <= i < self.order().len() implies self.occupied(#[trigger] self.order()[i]) by {
            assert(self.linked(i));
        }
    }

    /// A list whose links are untouched stays a list, and its view changes
    /// only where the value of a touched node did.
    proof fn lemma_same_chain(&self, after: Self, touched: Option<usize>)
        requires
            self.chained(),
            self.same_chain(after, touched),
        ensures
            after.chained(),
            after@.len() == self@.len(),
            forall|i: int|
                0 <= i < self.order@.len() && touched != Some(self.order@[i]) ==> #[trigger] after@[i] == self@[i],
    {
        assert forall|i: int| 0 <= i < after.order@.len() implies #[trigger] after.linked(i) by {
            assert(self.linked(i));
        }
        assert forall|i: int| 0 <= i < self.order@.len() && touched != Some(self.order@[i]) implies #[trigger] after@[i]
            == self@[i] by {
            assert(self.linked(i));
        }
    }

    /// The free list stays sound while no slot is filled or emptied.
    proof fn lemma_same_pool(&self, after: Self)
        requires
            self.pooled(),
            after.free == self.free,
            after.slots.len() == self.slots.len(),
            forall|s: usize| after.occupied(s) == self.occupied(s),
        ensures
            after.pooled(),
    {
        assert forall|j: int| 0 <= j < after.free@.len() implies !after.occupied(#[trigger] after.free@[j])
            && after.free@[j] < after.slots.len() by {
            assert(!self.occupied(self.free@[j]));
        }
        assert forall|s: usize| s < after.slots.len() && !#[trigger] after.occupied(s) implies after.free@.contains(
            s,
        ) by {
            assert(!self.occupied(s));
        }
    }

    /// An empty list.
    pub fn new() -> (list: Self)
        ensures
            list.wf(),
            list.order() == Seq::<usize>::empty(),
            list@ == Seq::<T>::empty(),
    {
        NodeList { slots: Vec::new(), free: Vec::new(), head: None, tail: None, order: Ghost(Seq::empty()) }
    }

    /// Stores `node` in a slot of its own, reusing a reclaimed slot if there is one.
    /// The node is not yet in the list.
    pub fn allocate(&mut self, node: Node<T>) -> (slot: usize)
        requires
            old(self).wf(),
        ensures
            final(self).wf_with(Some(slot)),
            final(self).node(slot) == node,
            !old(self).occupied(slot),
            final(self).order() == old(self).order(),
            final(self)@ == old(self)@,
    {
        let slot = match self.free.pop() {
            Some(slot) => {
                assert(old(self).free@[old(self).free@.len() - 1] == slot);
                self.slots[slot] = Some(node);
                proof {
                    assert forall|s: usize| s < self.slots.len() && !#[trigger] self.occupied(s) implies self.free@.contains(
                        s,
                    ) by {
                        assert(!old(self).occupied(s));
                        let j = choose|j: int| 0 <= j < old(self).free@.len() && old(self).free@[j] == s;
                        assert(self.free@[j] == s);
                    }
                    assert forall|j: int| 0 <= j < self.free@.len() implies !self.occupied(#[trigger] self.free@[j])
                        && self.free@[j] < self.slots.len() by {
                        assert(self.free@[j] == old(self).free@[j]);
                    }
                }
                slot
            },
            None => {
                let slot = self.slots.len();
                self.slots.push(Some(node));
                proof {
                    assert forall|s: usize| s < self.slots.len() && !#[trigger] self.occupied(s) implies self.free@.contains(
                        s,
                    ) by {
                        assert(!old(self).occupied(s));
                    }
                    assert forall|j: int| 0 <= j < self.free@.len() implies !self.occupied(#[trigger] self.free@[j])
                        && self.free@[j] < self.slots.len() by {
                        assert(!old(self).occupied(old(self).free@[j]));
                    }
                }
                slot
            },
        };
        proof {
            old(self).lemma_order(None);
            old(self).lemma_same_chain(*self, Some(slot));
            assert forall|s: usize| #[trigger] self.occupied(s) implies self.order@.contains(s) || s == slot by {
                if s != slot {
                    assert(old(self).occupied(s));
                }
            }
            assert(self@ =~= old(self)@);
        }
        slot
    }

    /// Appends the stored, unlinked node in `slot` at the tail of the list.
    pub fn attach(&mut self, slot: usize)
        requires
            old(self).wf_with(Some(slot)),
            old(self).node(slot).next is None,
        ensures
            final(self).wf(),
            final(self).order() == old(self).order().push(slot),
            final(self)@ == old(self)@.push(old(self).node(slot).value),
    {
        let tail = self.tail;
        // prev and next
        self.slots[slot].as_mut().unwrap().prev = tail;
        match tail {
            Some(last) => {
                assert(old(self).linked(old(self).order@.len() - 1));
                self.slots[last].as_mut().unwrap().next = Some(slot);
            },
            None => {},
        }
        // head and tail
        if self.head.is_none() {
            self.head = Some(slot);
        }
        self.tail = Some(slot);
        proof {
            self.order@ = self.order@.push(slot);
            let n = old(self).order@.len() as int;
            assert forall|i: int| 0 <= i < self.order@.len() implies #[trigger] self.linked(i) by {
                if i < n {
                    assert(old(self).linked(i));
                }
            }
            old(self).lemma_same_pool(*self);
            assert forall|s: usize| #[trigger] self.occupied(s) implies self.order@.contains(s) by {
                assert(old(self).occupied(s));
                if s == slot {
                    assert(self.order@[n] == s);
                } else {
                    let i = choose|i: int| 0 <= i < n && old(self).order@[i] == s;
                    assert(self.order@[i] == s);
                }
            }
            assert(self@ =~= old(self)@.push(old(self).node(slot).value)) by {
                assert forall|i: int| 0 <= i < n implies self@[i] == old(self)@[i] by {
                    assert(old(self).linked(i));
                }
            }
        }
    }

    /// Unlinks the node in `slot` from the list and repairs its neighbours'
    /// links and the two endpoints. The node stays stored: the caller reclaims it.
    pub fn detach(&mut self, slot: usize)
        requires
            old(self).wf(),
            old(self).order().contains(slot),
        ensures
            final(self).wf_with(Some(slot)),
            final(self).order() == old(self).order().remove(old(self).order().index_of(slot)),
            final(self)@ == old(self)@.remove(old(self).order().index_of(slot)),
            final(self).node(slot).value == old(self)@[old(self).order().index_of(slot)],
    {
        let ghost at = self.order@.index_of(slot);
        assert(self.linked(at));
        let prev = self.slots[slot].as_ref().unwrap().prev;
        let next = self.slots[slot].as_ref().unwrap().next;
        // prev and next
        match prev {
            Some(before) => {
                assert(self.linked(at - 1));
                self.slots[before].as_mut().unwrap().next = next;
            },
            None => {},
        }
        match next {
            Some(after) => {
                assert(old(self).linked(at + 1));
                self.slots[after].as_mut().unwrap().prev = prev;
            },
            None => {},
        }
        // head and tail
        if self.head == Some(slot) {
            self.head = next;
        }
        if self.tail == Some(slot) {
            self.tail = prev;
        }
        proof {
            self.order@ = self.order@.remove(at);
            let before = old(self).order@;
            // the place in `before` of what now stands at place `i`
            let from = |i: int| if i < at { i } else { i + 1 };
            assert forall|i: int| 0 <= i < self.order@.len() implies #[trigger] self.linked(i) by {
                assert(old(self).linked(from(i)));
                assert(self.order@[i] == before[from(i)]);
            }
            assert forall|i: int, j: int| 0 <= i < self.order@.len() && 0 <= j < self.order@.len() && i != j implies self.order@[i]
                != self.order@[j] by {
                assert(self.order@[i] == before[from(i)] && self.order@[j] == before[from(j)]);
            }
            old(self).lemma_same_pool(*self);
            assert forall|s: usize| #[trigger] self.occupied(s) implies self.order@.contains(s) || s == slot by {
                assert(old(self).occupied(s));
                if s != slot {
                    let a = choose|a: int| 0 <= a < before.len() && before[a] == s;
                    let i = if a < at { a } else { a - 1 };
                    assert(self.order@[i] == s);
                }
            }
            if self.order@.contains(slot) {
                let i = choose|i: int| 0 <= i < self.order@.len() && self.order@[i] == slot;
                assert(before[from(i)] == slot);
            }
            assert(self@ =~= old(self)@.remove(at)) by {
                assert forall|i: int| 0 <= i < self.order@.len() implies self@[i] == old(self)@.remove(at)[i] by {
                    assert(old(self).linked(from(i)));
                }
            }
        }
    }

    /// Takes the stored, unlinked node out of `slot` and puts the slot on the free list.
    pub fn release(&mut self, slot: usize) -> (node: Node<T>)
        requires
            old(self).wf_with(Some(slot)),
        ensures
            final(self).wf(),
            node == old(self).node(slot),
            final(self).order() == old(self).order(),
            final(self)@ == old(self)@,
    {
        let node = self.slots[slot].take().unwrap();
        self.free.push(slot);
        proof {
            old(self).lemma_same_chain(*self, Some(slot));
            assert(self.free@.no_duplicates()) by {
                if old(self).free@.contains(slot) {
                    let j = choose|j: int| 0 <= j < old(self).free@.len() && old(self).free@[j] == slot;
                    assert(!old(self).occupied(old(self).free@[j]));
                }
            }
            assert forall|j: int| 0 <= j < self.free@.len() implies !self.occupied(#[trigger] self.free@[j])
                && self.free@[j] < self.slots.len() by {
                if j < old(self).free@.len() {
                    assert(!old(self).occupied(old(self).free@[j]));
                }
            }
            assert forall|s: usize| s < self.slots.len() && !#[trigger] self.occupied(s) implies self.free@.contains(
                s,
            ) by {
                if s == slot {
                    assert(self.free@[self.free@.len() - 1] == s);
                } else {
                    assert(!old(self).occupied(s));
                    let j = choose|j: int| 0 <= j < old(self).free@.len() && old(self).free@[j] == s;
                    assert(self.free@[j] == s);
                }
            }
            assert forall|s: usize| #[trigger] self.occupied(s) implies self.order@.contains(s) by {
                assert(old(self).occupied(s));
            }
            assert(self@ =~= old(self)@);
        }
        node
    }

    /// The slot of the first node, if the list has one.
    pub fn head(&self) -> (slot: Option<usize>)
        requires
            self.wf(),
        ensures
            slot == if self.order().len() == 0 {
                None
            } else {
                Some(self.order()[0])
            },
    {
        self.head
    }

    /// The slot of the node that follows the linked node in `slot`.
    pub fn next_of(&self, slot: usize) -> (next: Option<usize>)
        requires
            self.wf(),
            self.order().contains(slot),
        ensures
            next == if self.order().index_of(slot) + 1 == self.order().len() {
                None
            } else {
                Some(self.order()[self.order().index_of(slot) + 1])
            },
    {
        assert(self.linked(self.order@.index_of(slot)));
        self.slots[slot].as_ref().unwrap().next
    }

    /// The value of the linked node in `slot`.
    pub fn value(&self, slot: usize) -> (value: &T)
        requires
            self.wf(),
            self.order().contains(slot),
        ensures
            *value == self@[self.order().index_of(slot)],
    {
        assert(self.linked(self.order@.index_of(slot)));
        &self.slots[slot].as_ref().unwrap().value
    }

    /// The value of the linked node in `slot`, to be changed in place.
    pub fn value_mut(&mut self, slot: usize) -> (value: &mut T)
        requires
            old(self).wf(),
            old(self).order().contains(slot),
        ensures
            *value == old(self)@[old(self).order().index_of(slot)],
            final(self).wf(),
            final(self).order() == old(self).order(),
            final(self)@ == old(self)@.update(old(self).order().index_of(slot), *final(value)),
    {
        assert(self.linked(self.order@.index_of(slot)));
        // stated of every list that the borrow can leave behind, since the
        // list itself cannot be named while the borrow lasts
        assert forall|after: Self|
            #![trigger after.wf()]
            #![trigger after.view()]
            self.differs_in_value(after, slot) implies after.wf() && after@ == self@.update(
                self.order@.index_of(slot),
                after.node(slot).value,
            ) by {
            self.lemma_value_replaced(after, slot);
        }
        &mut self.slots[slot].as_mut().unwrap().value
    }

    /// `after` is `self` but for the value of the node in `slot`.
    spec fn differs_in_value(&self, after: Self, slot: usize) -> bool {
        &&& after.slots@ == self.slots@.update(
            slot as int,
            Some(Node { value: after.node(slot).value, prev: self.node(slot).prev, next: self.node(slot).next }),
        )
        &&& after.free == self.free
        &&& after.head == self.head
        &&& after.tail == self.tail
        &&& after.order == self.order
    }

    /// Replacing the value of a linked node changes that place of the view and nothing else.
    proof fn lemma_value_replaced(&self, after: Self, slot: usize)
        requires
            self.wf(),
            self.order@.contains(slot),
            self.differs_in_value(after, slot),
        ensures
            after.wf(),
            after@ == self@.update(self.order@.index_of(slot), after.node(slot).value),
    {
        let at = self.order@.index_of(slot);
        assert(self.linked(at));
        self.lemma_same_chain(after, Some(slot));
        self.lemma_same_pool(after);
        assert forall|s: usize| #[trigger] after.occupied(s) implies after.order@.contains(s) by {
            assert(self.occupied(s));
        }
        assert(after@ =~= self@.update(at, after.node(slot).value));
    }
}

} // verus!
