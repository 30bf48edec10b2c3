//! Association lists keyed by strings: the entries of dictionaries and the
//! fields of instances. A key's first entry is the one that counts, and
//! storing under a present key replaces that entry's value in place.

use crate::scope::{lemma_position_of, lemma_position_of_char, lemma_position_of_push, position_of};
use vstd::prelude::*;

verus! {

/// The keys of the entries, in order.
pub open spec fn entry_keys<V>(entries: Seq<(String, V)>) -> Seq<Seq<char>> {
    entries.map_values(|e: (String, V)| e.0@)
}

/// The value stored under `key`.
pub open spec fn lookup<V>(entries: Seq<(String, V)>, key: Seq<char>) -> Option<V> {
    match position_of(entry_keys(entries), key) {
        Some(i) => Some(entries[i].1),
        None => None,
    }
}

/// The entries after storing `value` under `key`: the first entry with that
/// key takes the value, or a new entry is appended.
pub open spec fn store<V>(entries: Seq<(String, V)>, key: String, value: V) -> Seq<(String, V)> {
    match position_of(entry_keys(entries), key@) {
        Some(i) => entries.update(i, (key, value)),
        None => entries.push((key, value)),
    }
}

/// The position of the entry under `key`.
pub fn find_entry<V>(entries: &Vec<(String, V)>, key: &String) -> (pos: Option<usize>)
    ensures
        match pos {
            Some(i) => position_of(entry_keys(entries@), key@) == Some(i as int),
            None => position_of(entry_keys(entries@), key@) is None,
        },
{
    let ghost keys = entry_keys(entries@);
    let mut i: usize = 0;
    while i < entries.len()
        invariant
            i <= entries@.len(),
            keys == entry_keys(entries@),
            forall|j: int| 0 <= j < i ==> keys[j] != key@,
        decreases entries@.len() - i,
    {
        if entries[i].0 == *key {
            proof {
                lemma_position_of_char(keys, key@, i as int);
            }
            return Some(i);
        }
        i += 1;
    }
    proof {
        lemma_position_of_char(keys, key@, i as int);
    }
    None
}

/// The value stored under `key`, if any.
pub fn get_entry<'a, V>(entries: &'a Vec<(String, V)>, key: &String) -> (value: Option<&'a V>)
    ensures
        match value {
            Some(v) => lookup(entries@, key@) == Some(*v),
            None => lookup(entries@, key@) is None,
        },
{
    match find_entry(entries, key) {
        Some(i) => {
            proof {
                lemma_position_of(entry_keys(entries@), key@);
            }
            Some(&entries[i].1)
        },
        None => None,
    }
}

/// Whether an entry is stored under `key`.
pub fn contains_key<V>(entries: &Vec<(String, V)>, key: &String) -> (found: bool)
    ensures
        found == lookup(entries@, key@) is Some,
{
    find_entry(entries, key).is_some()
}

/// Stores `value` under `key`, replacing the value of an existing entry or
/// appending a new one.
pub fn set_entry<V>(entries: &mut Vec<(String, V)>, key: String, value: V)
    ensures
        final(entries)@ == store(old(entries)@, key, value),
{
    proof {
        lemma_position_of(entry_keys(old(entries)@), key@);
    }
    match find_entry(entries, &key) {
        Some(i) => {
            entries.set(i, (key, value));
        },
        None => {
            entries.push((key, value));
        },
    }
}

/// The keys after storing under a key: the same keys when it was present,
/// else the key appended.
pub proof fn lemma_store_keys<V>(entries: Seq<(String, V)>, key: String, value: V)
    ensures
        position_of(entry_keys(entries), key@) is Some ==> entry_keys(store(entries, key, value))
            == entry_keys(entries),
        position_of(entry_keys(entries), key@) is None ==> entry_keys(store(entries, key, value))
            == entry_keys(entries).push(key@),
{
    lemma_position_of(entry_keys(entries), key@);
    if position_of(entry_keys(entries), key@) is Some {
        assert(entry_keys(store(entries, key, value)) =~= entry_keys(entries));
    } else {
        assert(entry_keys(store(entries, key, value)) =~= entry_keys(entries).push(key@));
    }
}

/// Reading a key after storing under it gives the stored value.
pub proof fn lemma_lookup_after_store<V>(entries: Seq<(String, V)>, key: String, value: V)
    ensures
        lookup(store(entries, key, value), key@) == Some(value),
{
    lemma_store_keys(entries, key, value);
    lemma_position_of(entry_keys(entries), key@);
    lemma_position_of_push(entry_keys(entries), key@, key@);
}

/// Storing under one key leaves what every other key reads unchanged.
pub proof fn lemma_lookup_other_after_store<V>(
    entries: Seq<(String, V)>,
    key: String,
    value: V,
    other: Seq<char>,
)
    requires
        other != key@,
    ensures
        lookup(store(entries, key, value), other) == lookup(entries, other),
{
    lemma_store_keys(entries, key, value);
    lemma_position_of(entry_keys(entries), key@);
    lemma_position_of(entry_keys(entries), other);
    lemma_position_of_push(entry_keys(entries), key@, other);
    match position_of(entry_keys(entries), other) {
        Some(j) => {
            match position_of(entry_keys(entries), key@) {
                Some(i) => {
                    assert(i != j);
                },
                None => {},
            }
        },
        None => {},
    }
}

/// Storing keeps the keys free of duplicates.
pub proof fn lemma_store_keeps_keys_distinct<V>(entries: Seq<(String, V)>, key: String, value: V)
    requires
        entry_keys(entries).no_duplicates(),
    ensures
        entry_keys(store(entries, key, value)).no_duplicates(),
{
    lemma_store_keys(entries, key, value);
    lemma_position_of(entry_keys(entries), key@);
}

} // verus!
