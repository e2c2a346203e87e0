//! A set that keeps its elements in the order in which they were first inserted.

use vstd::prelude::*;
use std::collections::HashMap;
use crate::entries::{distinct_keys, has_key, keys_of, place_of, put, put_each, values_of, without};
use crate::key::LookupKey;
use crate::list::{Node, NodeList};
use crate::render::{debug_text, list_texts, listing, views};
use std::fmt::Debug;

verus! {

/// A set in insertion order: a hash index from each element's lookup key to
/// its node, and a doubly linked list through the nodes.
///
/// An element is known by its lookup key alone. Inserting a value whose key
/// is present replaces the stored value and leaves its place; removing and
/// inserting again moves it to the end.
pub struct MutOrderedSet<T> {
    index: HashMap<u64, usize>,
    list: NodeList<T>,
    keys: Ghost<Seq<u64>>,
}

impl<T> View for MutOrderedSet<T> {
    type V = Seq<T>;

    /// The stored values, in insertion order.
    open spec fn view(&self) -> Seq<T> {
        values_of(self.entries())
    }
}

impl<T> MutOrderedSet<T> {
    /// The entries: each lookup key with the value stored under it, in insertion order.
    pub closed spec fn entries(&self) -> Seq<(u64, T)> {
        Seq::new(self.keys@.len(), |i: int| (self.keys@[i], self.list@[i]))
    }

    /// The lookup keys, in insertion order.
    pub open spec fn keys(&self) -> Seq<u64> {
        keys_of(self.entries())
    }

    /// The invariant: the index holds exactly the keys of the linked nodes,
    /// each with the slot of its node, and the list is sound.
    pub closed spec fn wf(&self) -> bool {
        &&& self.list.wf()
        &&& self.keys@.len() == self.list.order().len()
        &&& self.keys@.no_duplicates()
        &&& forall|k: u64| self.index@.contains_key(k) <==> self.keys@.contains(k)
        &&& forall|i: int| 0 <= i < self.keys@.len() ==> self.index@[#[trigger] self.keys@[i]] == self.list.order()[i]
    }

    /// In a sound set no key occurs twice.
    pub proof fn lemma_distinct_keys(&self)
        requires
            self.wf(),
        ensures
            distinct_keys(self.entries()),
            self@.len() == self.entries().len(),
            self.keys().len() == self.entries().len(),
    {
        self.list.lemma_order(None);
    }

    /// An empty set.
    pub fn new() -> (set: Self)
        ensures
            set.wf(),
            set.entries() == Seq::<(u64, T)>::empty(),
    {
        let set = MutOrderedSet { index: HashMap::new(), list: NodeList::new(), keys: Ghost(Seq::empty()) };
        assert(set.entries() =~= Seq::<(u64, T)>::empty());
        set
    }

    /// The number of elements.
    pub fn len(&self) -> (n: usize)
        requires
            self.wf(),
        ensures
            n == self@.len(),
    {
        proof {
            self.list.lemma_order(None);
            self.keys@.unique_seq_to_set();
            assert(self.index@.dom() =~= self.keys@.to_set());
        }
        self.index.len()
    }

    /// A pass over the values, from the first inserted to the last.
    pub fn iter(&self) -> (pass: Iter<'_, T>)
        requires
            self.wf(),
        ensures
            pass.wf(),
            pass.remaining() == self@,
    {
        proof {
            self.list.lemma_order(None);
            assert(self.list@ =~= self@);
            assert(self.list@.skip(0) =~= self.list@);
        }
        Iter { list: &self.list, cursor: self.list.head(), at: Ghost(0) }
    }

    /// A pass over the values, from the first inserted to the last, that
    /// hands each out to be changed in place. The lookup keys stay as they are.
    pub fn iter_mut(&mut self) -> (pass: IterMut<'_, T>)
        requires
            old(self).wf(),
        ensures
            pass.wf(),
            pass.position() == 0,
            *pass.target() == *old(self),
            *final(pass.target()) == *final(self),
    {
        proof {
            self.list.lemma_order(None);
        }
        let cursor = self.list.head();
        IterMut { set: self, cursor, at: Ghost(0) }
    }

    /// A pass that takes the set apart: it gives the values away, from the
    /// first inserted to the last, and reclaims each node as it goes.
    pub fn into_iter(self) -> (pass: IntoIter<T>)
        requires
            self.wf(),
        ensures
            pass.wf(),
            pass.remaining() == self@,
    {
        proof {
            self.list.lemma_order(None);
            assert(self.list@ =~= self@);
        }
        IntoIter { list: self.list }
    }

    /// What `len` counts is what a whole pass gives: a pass that `iter`
    /// starts has `len` values to give, no more and no fewer.
    pub proof fn lemma_len_of_pass(&self, pass: Iter<'_, T>, n: usize)
        requires
            self.wf(),
            pass.remaining() == self@,
            n == self@.len(),
        ensures
            pass.remaining().len() == n,
            n == self.entries().len(),
    {
    }

    /// Two passes that `iter` starts on one set, with no change to the set
    /// between them, give the same values in the same order.
    pub proof fn lemma_passes_agree(&self, first: Iter<'_, T>, second: Iter<'_, T>)
        requires
            first.remaining() == self@,
            second.remaining() == self@,
        ensures
            first.remaining() == second.remaining(),
    {
    }

    /// `after` is `self` but for the value stored at place `at`.
    spec fn differs_in_value(&self, after: Self, at: int) -> bool {
        &&& after.index == self.index
        &&& after.keys == self.keys
        &&& after.list.wf()
        &&& after.list.order() == self.list.order()
        &&& after.list@ == self.list@.update(at, after.list@[at])
    }

    /// Replacing a stored value changes that entry's value and nothing else.
    proof fn lemma_value_replaced(&self, after: Self, at: int)
        requires
            self.wf(),
            0 <= at < self.keys@.len(),
            self.differs_in_value(after, at),
        ensures
            after.wf(),
            after.entries() == self.entries().update(at, (self.keys@[at], after.list@[at])),
            after.list@.len() == self.keys@.len(),
    {
        self.list.lemma_order(None);
        after.list.lemma_order(None);
        assert(after.entries() =~= self.entries().update(at, (self.keys@[at], after.list@[at])));
    }

    /// A new key with its node at the tail makes one more entry at the end.
    proof fn lemma_pushed(&self, after: Self, key: u64, slot: usize, value: T)
        requires
            self.wf(),
            !self.keys@.contains(key),
            !self.list.order().contains(slot),
            after.index@ == self.index@.insert(key, slot),
            after.keys@ == self.keys@.push(key),
            after.list.wf(),
            after.list.order() == self.list.order().push(slot),
            after.list@ == self.list@.push(value),
        ensures
            after.wf(),
            after.entries() == self.entries().push((key, value)),
    {
        self.list.lemma_order(None);
        after.list.lemma_order(None);
        let n = self.keys@.len() as int;
        assert forall|k: u64| after.index@.contains_key(k) <==> after.keys@.contains(k) by {
            if self.keys@.contains(k) {
                let i = self.keys@.index_of(k);
                assert(after.keys@[i] == k);
            }
            if k == key {
                assert(after.keys@[n] == k);
            }
        }
        assert forall|i: int| 0 <= i < after.keys@.len() implies after.index@[#[trigger] after.keys@[i]]
            == after.list.order()[i] by {
            if i < n {
                assert(self.keys@[i] == after.keys@[i]);
                assert(self.keys@.contains(self.keys@[i]));
            }
        }
        assert(after.entries() =~= self.entries().push((key, value)));
    }

    /// Without a key and its node, the set is without that entry.
    proof fn lemma_removed(&self, after: Self, key: u64)
        requires
            self.wf(),
            self.keys@.contains(key),
            after.index@ == self.index@.remove(key),
            after.keys@ == self.keys@.remove(self.keys@.index_of(key)),
            after.list.wf(),
            after.list.order() == self.list.order().remove(self.keys@.index_of(key)),
            after.list@ == self.list@.remove(self.keys@.index_of(key)),
        ensures
            after.wf(),
            after.entries() == self.entries().remove(self.keys@.index_of(key)),
    {
        self.list.lemma_order(None);
        after.list.lemma_order(None);
        let at = self.keys@.index_of(key);
        assert(after.keys@.no_duplicates()) by {
            assert forall|i: int, j: int| 0 <= i < after.keys@.len() && 0 <= j < after.keys@.len() && i != j
                implies after.keys@[i] != after.keys@[j] by {
                let a = if i < at { i } else { i + 1 };
                let b = if j < at { j } else { j + 1 };
                assert(after.keys@[i] == self.keys@[a] && after.keys@[j] == self.keys@[b]);
            }
        }
        assert forall|k: u64| after.index@.contains_key(k) <==> after.keys@.contains(k) by {
            if after.keys@.contains(k) {
                let i = after.keys@.index_of(k);
                let a = if i < at { i } else { i + 1 };
                assert(self.keys@[a] == k);
            }
            if self.keys@.contains(k) && k != key {
                let a = self.keys@.index_of(k);
                let i = if a < at { a } else { a - 1 };
                assert(after.keys@[i] == k);
            }
        }
        assert forall|i: int| 0 <= i < after.keys@.len() implies after.index@[#[trigger] after.keys@[i]]
            == after.list.order()[i] by {
            let a = if i < at { i } else { i + 1 };
            assert(after.keys@[i] == self.keys@[a]);
        }
        assert(after.entries() =~= self.entries().remove(at));
    }

    /// Where a key of the set stands: in the entries, and its slot in the list.
    proof fn lemma_place(&self, key: u64)
        requires
            self.wf(),
            self.keys@.contains(key),
        ensures
            has_key(self.entries(), key),
            place_of(self.entries(), key) == self.keys@.index_of(key),
            0 <= self.keys@.index_of(key) < self.keys@.len(),
            self.keys@[self.keys@.index_of(key)] == key,
            self.list.order().contains(self.index@[key]),
            self.list.order().index_of(self.index@[key]) == self.keys@.index_of(key),
            self.list@.len() == self.keys@.len(),
    {
        self.list.lemma_order(None);
        let at = self.keys@.index_of(key);
        assert(self.entries()[at].0 == key);
        let slot = self.index@[key];
        assert(self.list.order()[at] == slot);
    }

    /// A key outside the set is in no entry.
    proof fn lemma_absent(&self, key: u64)
        requires
            self.wf(),
            !self.keys@.contains(key),
        ensures
            !has_key(self.entries(), key),
    {
        self.list.lemma_order(None);
        if has_key(self.entries(), key) {
            let i = place_of(self.entries(), key);
            assert(self.keys@[i] == key);
        }
    }
}

impl<T: LookupKey> MutOrderedSet<T> {
    /// The lookup key of `value`.
    pub fn get_key(&self, value: &T) -> (key: u64)
        ensures
            key == value.lookup_key(),
    {
        value.key()
    }

    /// Stores `value` and hands out what is stored. A value whose lookup key
    /// is present replaces the stored one and keeps its place; any other
    /// gets a new node at the tail.
    pub fn insert(&mut self, value: T) -> (stored: &mut T)
        requires
            old(self).wf(),
        ensures
            *stored == value,
            final(self).wf(),
            final(self).entries() == put(old(self).entries(), value.lookup_key(), *final(stored)),
    {
        let key = self.get_key(&value);
        let found = match self.index.get(&key) {
            Some(slot) => Some(*slot),
            None => None,
        };
        match found {
            Some(slot) => {
                proof {
                    self.lemma_place(key);
                }
                let ghost at = self.keys@.index_of(key);
                assert forall|after: Self|
                    #![trigger after.wf()]
                    #![trigger after.entries()]
                    self.differs_in_value(after, at) implies after.wf() && after.entries()
                    == self.entries().update(at, (key, after.list@[at])) by {
                    self.lemma_value_replaced(after, at);
                }
                let stored = self.list.value_mut(slot);
                *stored = value;
                stored
            },
            None => {
                proof {
                    self.lemma_absent(key);
                    self.list.lemma_order(None);
                }
                let slot = self.list.allocate(Node::new(value));
                self.index.insert(key, slot);
                self.list.attach(slot);
                proof {
                    self.keys@ = self.keys@.push(key);
                    old(self).lemma_pushed(*self, key, slot, value);
                    self.lemma_place(key);
                }
                let ghost at = self.keys@.index_of(key);
                assert forall|after: Self|
                    #![trigger after.wf()]
                    #![trigger after.entries()]
                    self.differs_in_value(after, at) implies after.wf() && after.entries()
                    == self.entries().update(at, (key, after.list@[at])) by {
                    self.lemma_value_replaced(after, at);
                }
                self.list.value_mut(slot)
            },
        }
    }

    /// Removes the element that has the lookup key of `value`, and says
    /// whether there was one. The others keep their order.
    pub fn remove(&mut self, value: &T) -> (found: bool)
        requires
            old(self).wf(),
        ensures
            final(self).wf(),
            found == has_key(old(self).entries(), value.lookup_key()),
            final(self).entries() == without(old(self).entries(), value.lookup_key()),
    {
        let key = self.get_key(value);
        match self.index.remove(&key) {
            Some(slot) => {
                proof {
                    old(self).lemma_place(key);
                }
                self.list.detach(slot);
                let _ = self.list.release(slot);
                proof {
                    self.keys@ = self.keys@.remove(self.keys@.index_of(key));
                    old(self).lemma_removed(*self, key);
                }
                true
            },
            None => {
                proof {
                    assert(self.index@ =~= old(self).index@);
                    old(self).lemma_absent(key);
                }
                false
            },
        }
    }

    /// Inserts each of `values`, first to last.
    pub fn extend(&mut self, values: Vec<T>)
        requires
            old(self).wf(),
        ensures
            final(self).wf(),
            final(self).entries() == put_each(old(self).entries(), values@),
    {
        let ghost all = values@;
        assert(all.skip(0) =~= all);
        for value in it: values
            invariant
                self.wf(),
                it.seq() == all,
                put_each(self.entries(), all.skip(it.index())) == put_each(old(self).entries(), all),
        {
            proof {
                let rest = all.skip(it.index());
                assert(rest[0] == value);
                assert(rest.drop_first() =~= all.skip(it.index() + 1));
            }
            let _ = self.insert(value);
        }
    }
}

impl<T: Debug> MutOrderedSet<T> {
    /// Text for debugging: the values in insertion order between square
    /// brackets, each as its `Debug` impl writes it.
    pub fn render(&self) -> (out: String)
        requires
            self.wf(),
        ensures
            exists|texts: Seq<Seq<char>>| texts.len() == self@.len() && out@ == #[trigger] listing("["@, texts, "]"@),
    {
        let values = self.iter().collect();
        let mut texts: Vec<String> = Vec::new();
        let mut i: usize = 0;
        while i < values.len()
            invariant
                i <= values.len(),
                texts@.len() == i,
            decreases values.len() - i,
        {
            texts.push(debug_text(values[i]));
            i = i + 1;
        }
        let out = list_texts("[", &texts, "]");
        assert(out@ == listing("["@, views(texts@), "]"@));
        out
    }
}

/// A read-only pass over an ordered set.
pub struct Iter<'a, T> {
    list: &'a NodeList<T>,
    cursor: Option<usize>,
    at: Ghost<int>,
}

impl<'a, T> Iter<'a, T> {
    /// The values that the pass has still to give, in order.
    pub closed spec fn remaining(&self) -> Seq<T> {
        self.list@.skip(self.at@)
    }

    /// The invariant: the cursor stands on the node of the next value, or
    /// on none when all are given.
    pub closed spec fn wf(&self) -> bool {
        &&& self.list.wf()
        &&& 0 <= self.at@ <= self.list.order().len()
        &&& self.cursor == if self.at@ == self.list.order().len() {
            None
        } else {
            Some(self.list.order()[self.at@])
        }
    }

    /// The next value, or `None` when the pass is over.
    pub fn next(&mut self) -> (item: Option<&'a T>)
        requires
            old(self).wf(),
        ensures
            final(self).wf(),
            match item {
                Some(value) => {
                    &&& old(self).remaining().len() > 0
                    &&& *value == old(self).remaining()[0]
                    &&& final(self).remaining() == old(self).remaining().drop_first()
                },
                None => old(self).remaining().len() == 0 && final(self).remaining() == old(self).remaining(),
            },
    {
        proof {
            self.list.lemma_order(None);
        }
        match self.cursor {
            Some(slot) => {
                let value = self.list.value(slot);
                self.cursor = self.list.next_of(slot);
                proof {
                    self.at@ = self.at@ + 1;
                    assert(self.remaining() =~= old(self).remaining().drop_first());
                }
                Some(value)
            },
            None => None,
        }
    }

    /// Runs the pass to its end and gathers what it gives, in order.
    pub fn collect(self) -> (all: Vec<&'a T>)
        requires
            self.wf(),
        ensures
            all@.len() == self.remaining().len(),
            forall|i: int| 0 <= i < all@.len() ==> *all@[i] == self.remaining()[i],
    {
        let mut pass = self;
        let mut all: Vec<&'a T> = Vec::new();
        loop
            invariant
                pass.wf(),
                all@.len() + pass.remaining().len() == self.remaining().len(),
                forall|i: int| 0 <= i < all@.len() ==> *all@[i] == self.remaining()[i],
                forall|i: int|
                    0 <= i < pass.remaining().len() ==> pass.remaining()[i] == self.remaining()[all@.len() + i],
            decreases pass.remaining().len(),
        {
            match pass.next() {
                Some(value) => {
                    all.push(value);
                },
                None => {
                    return all;
                },
            }
        }
    }
}

/// A pass over an ordered set that hands the values out to be changed in place.
pub struct IterMut<'a, T> {
    set: &'a mut MutOrderedSet<T>,
    cursor: Option<usize>,
    at: Ghost<int>,
}

impl<'a, T> IterMut<'a, T> {
    /// The set that the pass runs over.
    pub closed spec fn target(&self) -> &'a mut MutOrderedSet<T> {
        self.set
    }

    /// How many values the pass has given.
    pub closed spec fn position(&self) -> int {
        self.at@
    }

    /// The invariant: the set is sound, and the cursor stands on the node of
    /// the next value, or on none when all are given.
    pub closed spec fn wf(&self) -> bool {
        &&& self.set.wf()
        &&& 0 <= self.at@ <= self.set.list.order().len()
        &&& self.cursor == if self.at@ == self.set.list.order().len() {
            None
        } else {
            Some(self.set.list.order()[self.at@])
        }
    }

    /// The values that the pass has still to give, in order.
    pub open spec fn remaining(&self) -> Seq<T> {
        self.target()@.skip(self.position())
    }

    /// The set under a sound pass is sound, and the pass stands within it.
    pub proof fn lemma_target(&self)
        requires
            self.wf(),
        ensures
            self.target().wf(),
            0 <= self.position() <= self.target().entries().len(),
    {
        self.set.list.lemma_order(None);
    }

    /// Once the pass is dropped, the set is what the pass last held.
    pub proof fn lemma_settled(&self)
        requires
            has_resolved(*self),
        ensures
            *final(self.target()) == *self.target(),
    {
    }

    /// The next value, or `None` when the pass is over.
    pub fn next(&mut self) -> (item: Option<&mut T>)
        requires
            old(self).wf(),
        ensures
            final(self).wf(),
            *final(final(self).target()) == *final(old(self).target()),
            match item {
                Some(value) => {
                    &&& 0 <= old(self).position() < old(self).target().entries().len()
                    &&& *value == old(self).target().entries()[old(self).position()].1
                    &&& final(self).position() == old(self).position() + 1
                    &&& final(self).target().entries() == old(self).target().entries().update(
                        old(self).position(),
                        (old(self).target().entries()[old(self).position()].0, *final(value)),
                    )
                },
                None => {
                    &&& old(self).position() == old(self).target().entries().len()
                    &&& final(self).position() == old(self).position()
                    &&& *final(self).target() == *old(self).target()
                },
            },
    {
        proof {
            self.set.list.lemma_order(None);
        }
        match self.cursor {
            Some(slot) => {
                let ghost at = self.at@;
                self.cursor = self.set.list.next_of(slot);
                proof {
                    self.at@ = at + 1;
                }
                assert forall|after: MutOrderedSet<T>|
                    #![trigger after.wf()]
                    #![trigger after.entries()]
                    self.set.differs_in_value(after, at) implies after.wf() && after.entries()
                    == self.set.entries().update(at, (self.set.keys@[at], after.list@[at])) && after.list.order()
                    == self.set.list.order() by {
                    self.set.lemma_value_replaced(after, at);
                }
                Some(self.set.list.value_mut(slot))
            },
            None => None,
        }
    }
}

/// A pass that owns what it runs over and gives the values away.
pub struct IntoIter<T> {
    list: NodeList<T>,
}

impl<T> IntoIter<T> {
    /// The values that the pass has still to give, in order.
    pub closed spec fn remaining(&self) -> Seq<T> {
        self.list@
    }

    /// The invariant: what is left is a sound list.
    pub closed spec fn wf(&self) -> bool {
        self.list.wf()
    }

    /// The next value, or `None` when the pass is over. The node that held
    /// the value is unlinked and its slot reclaimed.
    pub fn next(&mut self) -> (item: Option<T>)
        requires
            old(self).wf(),
        ensures
            final(self).wf(),
            match item {
                Some(value) => {
                    &&& old(self).remaining().len() > 0
                    &&& value == old(self).remaining()[0]
                    &&& final(self).remaining() == old(self).remaining().drop_first()
                },
                None => old(self).remaining().len() == 0 && final(self).remaining() == old(self).remaining(),
            },
    {
        proof {
            self.list.lemma_order(None);
        }
        match self.list.head() {
            Some(slot) => {
                self.list.detach(slot);
                let node = self.list.release(slot);
                proof {
                    assert(self.remaining() =~= old(self).remaining().drop_first());
                }
                Some(node.value)
            },
            None => None,
        }
    }

    /// Runs the pass to its end and gathers what it gives, in order.
    pub fn collect(self) -> (all: Vec<T>)
        requires
            self.wf(),
        ensures
            all@ == self.remaining(),
    {
        let mut pass = self;
        let mut all: Vec<T> = Vec::new();
        loop
            invariant
                pass.wf(),
                all@ + pass.remaining() == self.remaining(),
            decreases pass.remaining().len(),
        {
            let ghost before = pass.remaining();
            match pass.next() {
                Some(value) => {
                    all.push(value);
                    assert(all@ + pass.remaining() =~= self.remaining()) by {
                        assert(before =~= seq![value] + before.drop_first());
                    }
                },
                None => {
                    assert(all@ =~= all@ + pass.remaining());
                    return all;
                },
            }
        }
    }
}

} // verus!
