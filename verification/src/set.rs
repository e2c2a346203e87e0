//! A plain hash-indexed set: one stored value for each lookup key, in no
//! particular order.

use vstd::prelude::*;
use vstd::std_specs::iter::IteratorSpec;
use std::collections::HashMap;
use crate::key::LookupKey;
use crate::render::{debug_text, list_texts, listing, views};
use std::fmt::Debug;

verus! {

/// `items` holds the values of `map`, one for each key, in some order.
pub open spec fn lists_values<T>(items: Seq<T>, map: Map<u64, T>) -> bool {
    exists|keys: Seq<u64>| #[trigger] walks(keys, items, map)
}

/// `keys` names each key of `map` once, and `items` holds the values under them, in that order.
pub open spec fn walks<T>(keys: Seq<u64>, items: Seq<T>, map: Map<u64, T>) -> bool {
    &&& keys.no_duplicates()
    &&& keys.len() == items.len()
    &&& forall|k: u64| map.contains_key(k) <==> keys.contains(k)
    &&& forall|i: int| 0 <= i < keys.len() ==> items[i] == map[#[trigger] keys[i]]
}

/// A listing of the values of `map` has one item for each key.
pub proof fn lemma_lists_each_once<T>(items: Seq<T>, map: Map<u64, T>)
    requires
        lists_values(items, map),
    ensures
        map.dom().finite(),
        items.len() == map.len(),
        forall|i: int| 0 <= i < items.len() ==> map.values().contains(#[trigger] items[i]),
{
    let keys = choose|keys: Seq<u64>| #[trigger] walks(keys, items, map);
    keys.unique_seq_to_set();
    assert(map.dom() =~= keys.to_set());
    assert forall|i: int| 0 <= i < items.len() implies map.values().contains(#[trigger] items[i]) by {
        assert(map.contains_key(keys[i]));
    }
}

/// `map` after each of `values` was stored under its own lookup key, first to last.
pub open spec fn insert_each<T: LookupKey>(map: Map<u64, T>, values: Seq<T>) -> Map<u64, T>
    decreases values.len(),
{
    if values.len() == 0 {
        map
    } else {
        insert_each(map.insert(values[0].lookup_key(), values[0]), values.drop_first())
    }
}

/// `HashMap::get_mut`: the value stored under `key`, to be changed in place,
/// or `None` where the map has no such key and stays as it is. When the reference
/// is dropped, `key` holds what was last written and every other key what it held.
#[verifier::external_body]
fn stored_mut<'a, T>(map: &'a mut HashMap<u64, T>, key: u64) -> (stored: Option<&'a mut T>)
    ensures
        match stored {
            Some(value) => {
                &&& old(map)@.contains_key(key)
                &&& *value == old(map)@[key]
                &&& final(map)@ == old(map)@.insert(key, *final(value))
            },
            None => !old(map)@.contains_key(key) && final(map)@ == old(map)@,
        },
{
    map.get_mut(&key)
}

/// A set with one stored value for each lookup key.
pub struct MutSet<T> {
    map: HashMap<u64, T>,
}

impl<T> View for MutSet<T> {
    type V = Map<u64, T>;

    /// The stored values, each under its lookup key.
    closed spec fn view(&self) -> Map<u64, T> {
        self.map@
    }
}

impl<T> MutSet<T> {
    /// An empty set.
    pub fn new() -> (set: Self)
        ensures
            set@ == Map::<u64, T>::empty(),
    {
        MutSet { map: HashMap::new() }
    }

    /// The number of elements.
    pub fn len(&self) -> (n: usize)
        ensures
            n == self@.len(),
    {
        self.map.len()
    }

    /// A pass over the stored values, in no particular order.
    pub fn iter(&self) -> (pass: Iter<'_, T>)
        ensures
            pass.wf(),
            lists_values(pass.remaining(), self@),
            pass.remaining().len() == self@.len(),
    {
        let mut items: Vec<&T> = Vec::new();
        let ghost mut keys: Seq<u64> = Seq::empty();
        for entry in it: self.map.iter()
            invariant
                it.seq() == self.map.iter().remaining(),
                items@.len() == it.index(),
                keys.len() == it.index(),
                forall|i: int| 0 <= i < it.index() ==> keys[i] == *it.seq()[i].0 && *items@[i] == *it.seq()[i].1,
        {
            items.push(entry.1);
            proof {
                keys = keys.push(*entry.0);
            }
        }
        let pass = Iter { items, at: 0 };
        proof {
            let pairs = self.map.iter().remaining();
            assert forall|i: int, j: int| 0 <= i < keys.len() && 0 <= j < keys.len() && i != j implies keys[i]
                != keys[j] by {
                assert(self.map@.contains_key(*pairs[i].0) && self.map@.contains_key(*pairs[j].0));
                assert(pairs[i] != pairs[j]);
            }
            assert forall|k: u64| self.map@.contains_key(k) implies keys.contains(k) by {
                assert(pairs.contains((&k, &self.map@[k])));
                let i = choose|i: int| 0 <= i < pairs.len() && pairs[i] == (&k, &self.map@[k]);
                assert(keys[i] == k);
            }
            assert forall|i: int| 0 <= i < keys.len() implies pass.remaining()[i] == self.map@[#[trigger] keys[i]]
                && self.map@.contains_key(keys[i]) by {
                assert(self.map@.contains_key(*pairs[i].0));
            }
            assert(walks(keys, pass.remaining(), self@));
            lemma_lists_each_once(pass.remaining(), self@);
        }
        pass
    }
}

impl<T> MutSet<T> {
    /// A pass that hands out every stored value once, to be changed in place,
    /// in no particular order. The lookup keys stay as they are.
    pub fn iter_mut(&mut self) -> (pass: IterMut<'_, T>)
        ensures
            pass.wf(),
            pass.position() == 0,
            *pass.target() == *old(self),
            *final(pass.target()) == *final(self),
    {
        let mut keys: Vec<u64> = Vec::new();
        for key in it: self.map.keys()
            invariant
                it.seq() == self.map.keys().remaining(),
                keys@.len() == it.index(),
                forall|i: int| 0 <= i < it.index() ==> keys@[i] == *it.seq()[i],
        {
            keys.push(*key);
        }
        proof {
            let named = self.map.keys().remaining();
            assert(keys@ =~= named.unref());
            assert forall|i: int, j: int| 0 <= i < keys@.len() && 0 <= j < keys@.len() && i != j implies keys@[i]
                != keys@[j] by {
                assert(named[i] != named[j]);
            }
            assert forall|k: u64| self.map@.contains_key(k) <==> keys@.contains(k) by {
                assert(keys@.to_set().contains(k) <==> keys@.contains(k));
            }
        }
        IterMut { set: self, keys, at: 0 }
    }

    /// A pass that takes the set apart and gives the values away, in no particular order.
    pub fn into_iter(self) -> (pass: IntoIter<T>)
        ensures
            lists_values(pass.remaining(), self@),
            pass.remaining().len() == self@.len(),
    {
        let mut map = self.map;
        let mut keys: Vec<u64> = Vec::new();
        for key in it: map.keys()
            invariant
                it.seq() == map.keys().remaining(),
                keys@.len() == it.index(),
                forall|i: int| 0 <= i < it.index() ==> keys@[i] == *it.seq()[i],
        {
            keys.push(*key);
        }
        proof {
            let named = map.keys().remaining();
            assert(keys@ =~= named.unref());
            assert forall|i: int, j: int| 0 <= i < keys@.len() && 0 <= j < keys@.len() && i != j implies keys@[i]
                != keys@[j] by {
                assert(named[i] != named[j]);
            }
            assert forall|k: u64| map@.contains_key(k) <==> keys@.contains(k) by {
                assert(keys@.to_set().contains(k) <==> keys@.contains(k));
            }
        }
        let mut rest: Vec<T> = Vec::new();
        let mut left = keys.len();
        while left > 0
            invariant
                left <= keys@.len(),
                keys@.no_duplicates(),
                rest@.len() == keys@.len() - left,
                forall|k: u64|
                    map@.contains_key(k) <==> exists|i: int| 0 <= i < left && #[trigger] keys@[i] == k,
                forall|i: int| 0 <= i < keys@.len() ==> self.map@.contains_key(#[trigger] keys@[i]),
                forall|i: int| 0 <= i < left ==> map@[#[trigger] keys@[i]] == self.map@[keys@[i]],
                forall|i: int|
                    0 <= i < rest@.len() ==> #[trigger] rest@[i] == self.map@[keys@[keys@.len() - 1 - i]],
            decreases left,
        {
            left = left - 1;
            let ghost before = map@;
            let taken = map.remove(&keys[left]);
            assert(before.contains_key(keys@[left as int]));
            rest.push(taken.unwrap());
            proof {
                assert forall|k: u64| map@.contains_key(k) <==> exists|i: int|
                    0 <= i < left && #[trigger] keys@[i] == k by {
                    if map@.contains_key(k) {
                        let i = choose|i: int| 0 <= i < left + 1 && #[trigger] keys@[i] == k;
                        assert(i != left);
                    }
                }
            }
        }
        let pass = IntoIter { rest };
        proof {
            assert(walks(keys@, pass.remaining(), self@)) by {
                assert forall|k: u64| self.map@.contains_key(k) <==> keys@.contains(k) by {}
                assert forall|i: int| 0 <= i < keys@.len() implies pass.remaining()[i] == self.map@[#[trigger] keys@[i]] by {
                    assert(pass.remaining()[i] == rest@[rest@.len() - 1 - i]);
                }
            }
            lemma_lists_each_once(pass.remaining(), self@);
        }
        pass
    }
}

impl<T: LookupKey> MutSet<T> {
    /// Stores `value` under its lookup key, in place of what that key held,
    /// and says whether the key is new to the set.
    pub fn insert(&mut self, value: T) -> (fresh: bool)
        ensures
            fresh == !old(self)@.contains_key(value.lookup_key()),
            final(self)@ == old(self)@.insert(value.lookup_key(), value),
    {
        let key = value.key();
        self.map.insert(key, value).is_none()
    }

    /// Inserts each of `values`, first to last.
    pub fn extend(&mut self, values: Vec<T>)
        ensures
            final(self)@ == insert_each(old(self)@, values@),
    {
        let ghost all = values@;
        assert(all.skip(0) =~= all);
        for value in it: values
            invariant
                it.seq() == all,
                insert_each(self@, all.skip(it.index())) == insert_each(old(self)@, all),
        {
            proof {
                let rest = all.skip(it.index());
                assert(rest[0] == value);
                assert(rest.drop_first() =~= all.skip(it.index() + 1));
            }
            self.insert(value);
        }
    }
}

impl<T: Debug> MutSet<T> {
    /// Text for debugging: the values between braces, in no particular
    /// order, each as its `Debug` impl writes it.
    pub fn render(&self) -> (out: String)
        ensures
            exists|texts: Seq<Seq<char>>| texts.len() == self@.len() && out@ == #[trigger] listing("{"@, texts, "}"@),
    {
        let mut pass = self.iter();
        let mut texts: Vec<String> = Vec::new();
        loop
            invariant
                pass.wf(),
                texts@.len() + pass.remaining().len() == self@.len(),
            decreases pass.remaining().len(),
        {
            match pass.next() {
                Some(value) => {
                    texts.push(debug_text(value));
                },
                None => {
                    let out = list_texts("{", &texts, "}");
                    assert(out@ == listing("{"@, views(texts@), "}"@));
                    return out;
                },
            }
        }
    }
}

/// A pass that owns the values of a plain set and gives them away.
pub struct IntoIter<V> {
    rest: Vec<V>,
}

impl<V> IntoIter<V> {
    /// The values that the pass has still to give, in order.
    pub closed spec fn remaining(&self) -> Seq<V> {
        Seq::new(self.rest@.len(), |i: int| self.rest@[self.rest@.len() - 1 - i])
    }

    /// The next value, or `None` when the pass is over.
    pub fn next(&mut self) -> (item: Option<V>)
        ensures
            match item {
                Some(value) => {
                    &&& old(self).remaining().len() > 0
                    &&& value == old(self).remaining()[0]
                    &&& final(self).remaining() == old(self).remaining().drop_first()
                },
                None => old(self).remaining().len() == 0 && final(self).remaining() == old(self).remaining(),
            },
    {
        let item = self.rest.pop();
        proof {
            if item is Some {
                assert(self.remaining() =~= old(self).remaining().drop_first());
            } else {
                assert(self.remaining() =~= old(self).remaining());
            }
        }
        item
    }
}

/// A pass over a plain set that hands the values out to be changed in place.
pub struct IterMut<'a, T> {
    set: &'a mut MutSet<T>,
    keys: Vec<u64>,
    at: usize,
}

impl<'a, T> IterMut<'a, T> {
    /// The set that the pass runs over.
    pub closed spec fn target(&self) -> &'a mut MutSet<T> {
        self.set
    }

    /// The lookup keys in the order in which the pass visits them.
    pub closed spec fn keys(&self) -> Seq<u64> {
        self.keys@
    }

    /// How many values the pass has given.
    pub closed spec fn position(&self) -> int {
        self.at as int
    }

    /// The invariant: the pass names each key of the set once and stands within them.
    pub closed spec fn wf(&self) -> bool {
        &&& self.at <= self.keys@.len()
        &&& self.keys@.no_duplicates()
        &&& forall|k: u64| self.set.map@.contains_key(k) <==> self.keys@.contains(k)
    }

    /// A sound pass visits each key of its set once, and stands within them.
    pub proof fn lemma_target(&self)
        requires
            self.wf(),
        ensures
            self.keys().no_duplicates(),
            forall|k: u64| self.target()@.contains_key(k) <==> self.keys().contains(k),
            self.keys().len() == self.target()@.len(),
            0 <= self.position() <= self.keys().len(),
    {
        self.keys@.unique_seq_to_set();
        assert(self.set.map@.dom() =~= self.keys@.to_set());
    }

    /// Once the pass is dropped, the set is what the pass last held.
    pub proof fn lemma_settled(&self)
        requires
            has_resolved(*self),
        ensures
            *final(self.target()) == *self.target(),
    {
    }

    /// The next value, or `None` when the pass is over.
    pub fn next(&mut self) -> (item: Option<&mut T>)
        requires
            old(self).wf(),
        ensures
            final(self).wf(),
            final(self).keys() == old(self).keys(),
            *final(final(self).target()) == *final(old(self).target()),
            match item {
                Some(value) => {
                    &&& 0 <= old(self).position() < old(self).keys().len()
                    &&& *value == old(self).target()@[old(self).keys()[old(self).position()]]
                    &&& final(self).position() == old(self).position() + 1
                    &&& final(self).target()@ == old(self).target()@.insert(
                        old(self).keys()[old(self).position()],
                        *final(value),
                    )
                },
                None => {
                    &&& old(self).position() == old(self).keys().len()
                    &&& final(self).position() == old(self).position()
                    &&& *final(self).target() == *old(self).target()
                },
            },
    {
        if self.at < self.keys.len() {
            let key = self.keys[self.at];
            assert(self.keys@.contains(key));
            self.at = self.at + 1;
            stored_mut(&mut self.set.map, key)
        } else {
            None
        }
    }
}

/// A read-only pass over a plain set.
pub struct Iter<'a, V> {
    items: Vec<&'a V>,
    at: usize,
}

impl<'a, V> Iter<'a, V> {
    /// The values that the pass has still to give, in order.
    pub closed spec fn remaining(&self) -> Seq<V> {
        Seq::new((self.items@.len() - self.at) as nat, |i: int| *self.items@[self.at + i])
    }

    /// The invariant: the pass stands within its values.
    pub closed spec fn wf(&self) -> bool {
        self.at <= self.items@.len()
    }

    /// The next value, or `None` when the pass is over.
    pub fn next(&mut self) -> (item: Option<&'a V>)
        requires
            old(self).wf(),
        ensures
            final(self).wf(),
            match item {
                Some(value) => {
                    &&& old(self).remaining().len() > 0
                    &&& *value == old(self).remaining()[0]
                    &&& final(self).remaining() == old(self).remaining().drop_first()
                },
                None => old(self).remaining().len() == 0 && final(self).remaining() == old(self).remaining(),
            },
    {
        if self.at < self.items.len() {
            let value = self.items[self.at];
            self.at = self.at + 1;
            proof {
                assert(self.remaining() =~= old(self).remaining().drop_first());
            }
            Some(value)
        } else {
            None
        }
    }
}

} // verus!
