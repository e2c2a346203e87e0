//! The mathematical model of a keyed, ordered collection: a sequence of
//! entries, each a lookup key with the value stored under it, in the order
//! in which the keys were first inserted.

use vstd::prelude::*;
use crate::key::{keys_tell_apart, LookupKey};

verus! {

/// The keys of `entries`, in order.
pub open spec fn keys_of<T>(entries: Seq<(u64, T)>) -> Seq<u64> {
    Seq::new(entries.len(), |i: int| entries[i].0)
}

/// The values of `entries`, in order.
pub open spec fn values_of<T>(entries: Seq<(u64, T)>) -> Seq<T> {
    Seq::new(entries.len(), |i: int| entries[i].1)
}

/// No key occurs twice.
pub open spec fn distinct_keys<T>(entries: Seq<(u64, T)>) -> bool {
    forall|i: int, j: int| 0 <= i < j < entries.len() ==> entries[i].0 != entries[j].0
}

/// Some entry has `key`.
pub open spec fn has_key<T>(entries: Seq<(u64, T)>, key: u64) -> bool {
    exists|i: int| 0 <= i < entries.len() && entries[i].0 == key
}

/// The place of the entry that has `key`, where there is one.
pub open spec fn place_of<T>(entries: Seq<(u64, T)>, key: u64) -> int {
    choose|i: int| 0 <= i < entries.len() && entries[i].0 == key
}

/// `entries` after `value` was stored under `key`: in the place that `key`
/// already has, or else in a new place at the end.
pub open spec fn put<T>(entries: Seq<(u64, T)>, key: u64, value: T) -> Seq<(u64, T)> {
    if has_key(entries, key) {
        entries.update(place_of(entries, key), (key, value))
    } else {
        entries.push((key, value))
    }
}

/// `entries` without the entry that has `key`; the others keep their order.
pub open spec fn without<T>(entries: Seq<(u64, T)>, key: u64) -> Seq<(u64, T)> {
    if has_key(entries, key) {
        entries.remove(place_of(entries, key))
    } else {
        entries
    }
}

/// `entries` after each of `values` was stored under its own lookup key, first to last.
pub open spec fn put_each<T: LookupKey>(entries: Seq<(u64, T)>, values: Seq<T>) -> Seq<(u64, T)>
    decreases values.len(),
{
    if values.len() == 0 {
        entries
    } else {
        put_each(put(entries, values[0].lookup_key(), values[0]), values.drop_first())
    }
}

/// `values`, each with its own lookup key, in order.
pub open spec fn keyed<T: LookupKey>(values: Seq<T>) -> Seq<(u64, T)> {
    Seq::new(values.len(), |i: int| (values[i].lookup_key(), values[i]))
}

/// No two of `values` have the same lookup key.
pub open spec fn distinct_values<T: LookupKey>(values: Seq<T>) -> bool {
    forall|i: int, j: int| 0 <= i < j < values.len() ==> values[i].lookup_key() != values[j].lookup_key()
}

/// Among distinct keys, the entry at place `at` is the one that has its key.
pub proof fn lemma_key_at<T>(entries: Seq<(u64, T)>, at: int)
    requires
        distinct_keys(entries),
        0 <= at < entries.len(),
    ensures
        has_key(entries, entries[at].0),
        place_of(entries, entries[at].0) == at,
{
    let found = place_of(entries, entries[at].0);
    if found < at {
        assert(entries[found].0 != entries[at].0);
    } else if at < found {
        assert(entries[at].0 != entries[found].0);
    }
}

/// Storing under a key that is present replaces that entry's value: no
/// entry moves, none is added, and the others keep what they hold.
pub proof fn lemma_put_present<T>(entries: Seq<(u64, T)>, at: int, value: T)
    requires
        distinct_keys(entries),
        0 <= at < entries.len(),
    ensures
        put(entries, entries[at].0, value) == entries.update(at, (entries[at].0, value)),
        keys_of(put(entries, entries[at].0, value)) == keys_of(entries),
        distinct_keys(put(entries, entries[at].0, value)),
{
    lemma_key_at(entries, at);
    assert(keys_of(entries.update(at, (entries[at].0, value))) =~= keys_of(entries));
}

/// Storing under a key that is absent adds one entry at the end.
pub proof fn lemma_put_absent<T>(entries: Seq<(u64, T)>, key: u64, value: T)
    requires
        distinct_keys(entries),
        !has_key(entries, key),
    ensures
        put(entries, key, value) == entries.push((key, value)),
        keys_of(put(entries, key, value)) == keys_of(entries).push(key),
        distinct_keys(put(entries, key, value)),
{
    let after = entries.push((key, value));
    assert(keys_of(after) =~= keys_of(entries).push(key));
    assert forall|i: int, j: int| 0 <= i < j < after.len() implies after[i].0 != after[j].0 by {
        if j == entries.len() {
            assert(entries[i].0 != key);
        }
    }
}

/// Storing keeps the keys distinct, and makes exactly one key present that may not have been.
pub proof fn lemma_put<T>(entries: Seq<(u64, T)>, key: u64, value: T)
    requires
        distinct_keys(entries),
    ensures
        distinct_keys(put(entries, key, value)),
        has_key(put(entries, key, value), key),
        forall|other: u64| other != key ==> (has_key(put(entries, key, value), other) <==> has_key(entries, other)),
{
    let after = put(entries, key, value);
    if has_key(entries, key) {
        let at = place_of(entries, key);
        lemma_put_present(entries, at, value);
        assert(after[at].0 == key);
        assert forall|other: u64| other != key implies (has_key(after, other) <==> has_key(entries, other)) by {
            if has_key(after, other) {
                let i = place_of(after, other);
                assert(entries[i].0 == other);
            }
            if has_key(entries, other) {
                let i = place_of(entries, other);
                assert(after[i].0 == other);
            }
        }
    } else {
        lemma_put_absent(entries, key, value);
        assert(after[entries.len() as int].0 == key);
        assert forall|other: u64| other != key implies (has_key(after, other) <==> has_key(entries, other)) by {
            if has_key(after, other) {
                let i = place_of(after, other);
                assert(entries[i].0 == other);
            }
            if has_key(entries, other) {
                let i = place_of(entries, other);
                assert(after[i].0 == other);
            }
        }
    }
}

/// Taking a key out keeps the keys distinct and leaves that key absent: a
/// second removal finds nothing and changes nothing.
pub proof fn lemma_without<T>(entries: Seq<(u64, T)>, key: u64)
    requires
        distinct_keys(entries),
    ensures
        distinct_keys(without(entries, key)),
        !has_key(without(entries, key), key),
        without(without(entries, key), key) == without(entries, key),
        !has_key(entries, key) ==> without(entries, key) == entries,
        forall|other: u64| other != key ==> (has_key(without(entries, key), other) <==> has_key(entries, other)),
{
    let after = without(entries, key);
    if has_key(entries, key) {
        let at = place_of(entries, key);
        assert forall|i: int| 0 <= i < after.len() implies after[i] == entries[if i < at { i } else { i + 1 }] by {}
        assert forall|i: int, j: int| 0 <= i < j < after.len() implies after[i].0 != after[j].0 by {
            let a = if i < at { i } else { i + 1 };
            let b = if j < at { j } else { j + 1 };
            assert(entries[a].0 != entries[b].0);
        }
        if has_key(after, key) {
            let i = place_of(after, key);
            let a = if i < at { i } else { i + 1 };
            assert(entries[a].0 == key);
            lemma_key_at(entries, a);
        }
        assert forall|other: u64| other != key implies (has_key(after, other) <==> has_key(entries, other)) by {
            if has_key(after, other) {
                let i = place_of(after, other);
                let a = if i < at { i } else { i + 1 };
                assert(entries[a].0 == other);
            }
            if has_key(entries, other) {
                let a = place_of(entries, other);
                let i = if a < at { a } else { a - 1 };
                assert(after[i].0 == other);
            }
        }
    }
}

/// Taking a key out and storing under it again puts its entry at the end,
/// whatever place it had; the other entries keep their order.
pub proof fn lemma_put_after_without<T>(entries: Seq<(u64, T)>, key: u64, value: T)
    requires
        distinct_keys(entries),
    ensures
        put(without(entries, key), key, value) == without(entries, key).push((key, value)),
        put(without(entries, key), key, value).last() == (key, value),
{
    lemma_without(entries, key);
    lemma_put_absent(without(entries, key), key, value);
}

/// Storing values one after another, none of whose keys is present or
/// occurs twice, appends them in that order.
pub proof fn lemma_put_each_new<T: LookupKey>(entries: Seq<(u64, T)>, values: Seq<T>)
    requires
        distinct_keys(entries),
        distinct_values(values),
        forall|i: int| 0 <= i < values.len() ==> !has_key(entries, #[trigger] values[i].lookup_key()),
    ensures
        put_each(entries, values) == entries + keyed(values),
    decreases values.len(),
{
    if values.len() == 0 {
        assert(entries + keyed(values) =~= entries);
    } else {
        let first = values[0];
        let rest = values.drop_first();
        let next = put(entries, first.lookup_key(), first);
        lemma_put_absent(entries, first.lookup_key(), first);
        lemma_put(entries, first.lookup_key(), first);
        assert forall|i: int| 0 <= i < rest.len() implies !has_key(next, #[trigger] rest[i].lookup_key()) by {
            assert(rest[i] == values[i + 1]);
            assert(values[0].lookup_key() != values[i + 1].lookup_key());
        }
        assert(distinct_values(rest)) by {
            assert forall|i: int, j: int| 0 <= i < j < rest.len() implies rest[i].lookup_key() != rest[j].lookup_key() by {
                assert(rest[i] == values[i + 1] && rest[j] == values[j + 1]);
            }
        }
        lemma_put_each_new(next, rest);
        assert(next + keyed(rest) =~= entries + keyed(values));
    }
}

/// Values with distinct lookup keys, inserted once each into an empty set,
/// stand in the order in which they were inserted.
pub proof fn lemma_insertion_order<T: LookupKey>(values: Seq<T>)
    requires
        distinct_values(values),
    ensures
        put_each(Seq::<(u64, T)>::empty(), values) == keyed(values),
        values_of(put_each(Seq::<(u64, T)>::empty(), values)) == values,
{
    lemma_put_each_new(Seq::<(u64, T)>::empty(), values);
    assert(Seq::<(u64, T)>::empty() + keyed(values) =~= keyed(values));
    assert(values_of(keyed(values)) =~= values);
}

/// Distinct values, of a type whose lookup key tells every two values apart,
/// inserted once each into an empty set, stand in the order in which they
/// were inserted.
pub proof fn lemma_insertion_order_of_distinct<T: LookupKey>(values: Seq<T>)
    requires
        keys_tell_apart::<T>(),
        values.no_duplicates(),
    ensures
        values_of(put_each(Seq::<(u64, T)>::empty(), values)) == values,
{
    lemma_insertion_order(values);
}

} // verus!
