//! The table as mathematics: a sequence of entries with distinct keys, in the
//! order in which the keys first arrived.

use vstd::prelude::*;

verus! {

/// A key with its value.
pub type Entry = (Seq<char>, i32);

/// Whether some entry of `entries` has the key `key`.
pub open spec fn has_key(entries: Seq<Entry>, key: Seq<char>) -> bool {
    exists|i: int| 0 <= i < entries.len() && (#[trigger] entries[i]).0 == key
}

/// Where `key` stands in `entries`; meaningful when `has_key(entries, key)`.
pub open spec fn position(entries: Seq<Entry>, key: Seq<char>) -> int {
    choose|i: int| 0 <= i < entries.len() && (#[trigger] entries[i]).0 == key
}

/// No two entries share a key.
pub open spec fn distinct_keys(entries: Seq<Entry>) -> bool {
    forall|i: int, j: int|
        0 <= i < j < entries.len() ==> (#[trigger] entries[i]).0 != (#[trigger] entries[j]).0
}

/// The value stored under `key`, if any.
pub open spec fn lookup(entries: Seq<Entry>, key: Seq<char>) -> Option<i32> {
    if has_key(entries, key) {
        Some(entries[position(entries, key)].1)
    } else {
        None
    }
}

/// The entries after `key` has been given `value`: a known key keeps its place
/// and takes the new value, a new key goes to the end.
pub open spec fn put(entries: Seq<Entry>, key: Seq<char>, value: i32) -> Seq<Entry> {
    if has_key(entries, key) {
        entries.update(position(entries, key), (key, value))
    } else {
        entries.push((key, value))
    }
}

/// The entries after `key` has been taken out; the others keep their order.
pub open spec fn without(entries: Seq<Entry>, key: Seq<char>) -> Seq<Entry> {
    if has_key(entries, key) {
        entries.remove(position(entries, key))
    } else {
        entries
    }
}

/// With distinct keys, an index that holds `key` is the position of `key`.
pub proof fn lemma_position(entries: Seq<Entry>, key: Seq<char>, at: int)
    requires
        distinct_keys(entries),
        0 <= at < entries.len(),
        entries[at].0 == key,
    ensures
        has_key(entries, key),
        position(entries, key) == at,
        lookup(entries, key) == Some(entries[at].1),
{
    let p = position(entries, key);
    assert(0 <= p < entries.len() && entries[p].0 == key);
    if p < at {
        assert(entries[p].0 != entries[at].0);
    } else if at < p {
        assert(entries[at].0 != entries[p].0);
    }
}

} // verus!
