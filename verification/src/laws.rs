//! What the operations of the table amount to when they follow one another,
//! stated over the entries that a table shows as its view.
//!
//! `HashMap::insert` turns the view `e` into `put(e, key, value)` whenever it
//! succeeds, `HashMap::remove` turns it into `without(e, key)`, and
//! `HashMap::get` answers `lookup(e, key)`. Each lemma below reads as a
//! statement about calls of those three.

use crate::model::distinct_keys;
use crate::model::has_key;
use crate::model::lemma_position;
use crate::model::lookup;
use crate::model::position;
use crate::model::put;
use crate::model::without;
use crate::model::Entry;
use crate::probing::lands_at;
use crate::probing::slot_after;
use vstd::prelude::*;

verus! {

/// Storing a value keeps the keys distinct, and the key is then found with
/// that value, wherever its probe had to go.
pub proof fn lemma_put_then_lookup(entries: Seq<Entry>, key: Seq<char>, value: i32)
    requires
        distinct_keys(entries),
    ensures
        distinct_keys(put(entries, key, value)),
        lookup(put(entries, key, value), key) == Some(value),
{
    let after = put(entries, key, value);
    if has_key(entries, key) {
        let p = position(entries, key);
        assert forall|i: int, j: int| 0 <= i < j < after.len() implies (#[trigger] after[i]).0 != (
        #[trigger] after[j]).0 by {
            assert(entries[i].0 != entries[j].0);
        }
        lemma_position(after, key, p);
    } else {
        let n = entries.len() as int;
        assert forall|i: int, j: int| 0 <= i < j < after.len() implies (#[trigger] after[i]).0 != (
        #[trigger] after[j]).0 by {
            if j < n {
                assert(entries[i].0 != entries[j].0);
            } else {
                assert(entries[i].0 != key);
            }
        }
        lemma_position(after, key, n);
    }
}

/// Storing a value under one key leaves what is found under every other key
/// as it was.
pub proof fn lemma_put_keeps_others(
    entries: Seq<Entry>,
    key: Seq<char>,
    value: i32,
    other: Seq<char>,
)
    requires
        distinct_keys(entries),
        other != key,
    ensures
        has_key(put(entries, key, value), other) == has_key(entries, other),
        lookup(put(entries, key, value), other) == lookup(entries, other),
{
    let after = put(entries, key, value);
    lemma_put_then_lookup(entries, key, value);
    if has_key(entries, other) {
        let q = position(entries, other);
        assert(after[q] == entries[q]);
        lemma_position(after, other, q);
        lemma_position(entries, other, q);
    } else {
        assert forall|i: int| 0 <= i < after.len() implies (#[trigger] after[i]).0 != other by {
            if i < entries.len() {
                assert(entries[i].0 != other);
            }
        }
    }
}

/// Storing a second value under a key that is already stored replaces the
/// first: the table is as if only the second had been stored, so the key
/// still has one entry, at the place it had, with the later value.
pub proof fn lemma_second_put_replaces(
    entries: Seq<Entry>,
    key: Seq<char>,
    first: i32,
    second: i32,
)
    requires
        distinct_keys(entries),
    ensures
        put(put(entries, key, first), key, second) == put(entries, key, second),
        put(put(entries, key, first), key, second).len() == put(entries, key, first).len(),
        position(put(put(entries, key, first), key, second), key) == position(
            put(entries, key, first),
            key,
        ),
        lookup(put(put(entries, key, first), key, second), key) == Some(second),
        distinct_keys(put(put(entries, key, first), key, second)),
{
    let once = put(entries, key, first);
    let twice = put(once, key, second);
    lemma_put_then_lookup(entries, key, first);
    lemma_put_then_lookup(once, key, second);
    let p = position(once, key);
    assert(twice == once.update(p, (key, second)));
    lemma_position(twice, key, p);
    if has_key(entries, key) {
        lemma_position(entries, key, position(entries, key));
        lemma_position(once, key, position(entries, key));
    } else {
        lemma_position(once, key, entries.len() as int);
    }
    assert(twice =~= put(entries, key, second));
}

/// A key that is not stored yet goes to the end of the insertion order, and
/// the entries before it stay as they were.
pub proof fn lemma_new_key_goes_last(entries: Seq<Entry>, key: Seq<char>, value: i32)
    requires
        !has_key(entries, key),
    ensures
        put(entries, key, value).len() == entries.len() + 1,
        put(entries, key, value).last() == (key, value),
        put(entries, key, value).drop_last() == entries,
        entries.len() > 0 ==> put(entries, key, value).first() == entries.first(),
{
    assert(put(entries, key, value).drop_last() =~= entries);
}

/// Four distinct keys stored into an empty table stand in the order in which
/// they were stored: the first stored is first, the last stored is last.
pub proof fn lemma_four_keys_in_order(
    k1: Seq<char>,
    k2: Seq<char>,
    k3: Seq<char>,
    k4: Seq<char>,
    v1: i32,
    v2: i32,
    v3: i32,
    v4: i32,
)
    requires
        k1 != k2,
        k1 != k3,
        k1 != k4,
        k2 != k3,
        k2 != k4,
        k3 != k4,
    ensures
        put(put(put(put(Seq::empty(), k1, v1), k2, v2), k3, v3), k4, v4) == seq![
            (k1, v1),
            (k2, v2),
            (k3, v3),
            (k4, v4),
        ],
{
    let e0 = Seq::<Entry>::empty();
    let e1 = put(e0, k1, v1);
    assert(e1 =~= seq![(k1, v1)]);
    let e2 = put(e1, k2, v2);
    assert(!has_key(e1, k2));
    assert(e2 =~= seq![(k1, v1), (k2, v2)]);
    let e3 = put(e2, k3, v3);
    assert(!has_key(e2, k3));
    assert(e3 =~= seq![(k1, v1), (k2, v2), (k3, v3)]);
    let e4 = put(e3, k4, v4);
    assert(!has_key(e3, k4));
    assert(e4 =~= seq![(k1, v1), (k2, v2), (k3, v3), (k4, v4)]);
}

/// Removing a key takes its entry out and leaves every other entry where it
/// stood relative to the rest.
pub proof fn lemma_without_keeps_order(entries: Seq<Entry>, key: Seq<char>, at: int)
    requires
        distinct_keys(entries),
        0 <= at < entries.len(),
        entries[at].0 == key,
    ensures
        without(entries, key) == entries.remove(at),
        without(entries, key) == entries.subrange(0, at) + entries.subrange(
            at + 1,
            entries.len() as int,
        ),
        distinct_keys(without(entries, key)),
        !has_key(without(entries, key), key),
{
    lemma_position(entries, key, at);
    let after = entries.remove(at);
    assert forall|i: int, j: int| 0 <= i < j < after.len() implies (#[trigger] after[i]).0 != (
    #[trigger] after[j]).0 by {
        let i0 = if i < at { i } else { i + 1 };
        let j0 = if j < at { j } else { j + 1 };
        assert(entries[i0].0 != entries[j0].0);
    }
    assert forall|i: int| 0 <= i < after.len() implies (#[trigger] after[i]).0 != key by {
        let i0 = if i < at { i } else { i + 1 };
        if i0 < at {
            assert(entries[i0].0 != entries[at].0);
        } else {
            assert(entries[at].0 != entries[i0].0);
        }
    }
}

/// Once the first key is removed, the key that came second is first.
pub proof fn lemma_without_first(entries: Seq<Entry>)
    requires
        distinct_keys(entries),
        entries.len() > 0,
    ensures
        without(entries, entries.first().0) == entries.drop_first(),
        entries.len() > 1 ==> without(entries, entries.first().0).first() == entries[1],
{
    lemma_without_keeps_order(entries, entries.first().0, 0);
    assert(entries.remove(0) =~= entries.drop_first());
}

/// Once the last key is removed, the key that came before it is last.
pub proof fn lemma_without_last(entries: Seq<Entry>)
    requires
        distinct_keys(entries),
        entries.len() > 0,
    ensures
        without(entries, entries.last().0) == entries.drop_last(),
        entries.len() > 1 ==> without(entries, entries.last().0).last() == entries[entries.len()
            - 2],
{
    lemma_without_keeps_order(entries, entries.last().0, entries.len() - 1);
    assert(entries.remove(entries.len() - 1) =~= entries.drop_last());
}

/// Removing one key leaves what is found under every other key as it was:
/// a key that was displaced past the removed one is still reached.
pub proof fn lemma_without_keeps_others(entries: Seq<Entry>, gone: Seq<char>, other: Seq<char>)
    requires
        distinct_keys(entries),
        other != gone,
    ensures
        has_key(without(entries, gone), other) == has_key(entries, other),
        lookup(without(entries, gone), other) == lookup(entries, other),
{
    if has_key(entries, gone) {
        let p = position(entries, gone);
        lemma_without_keeps_order(entries, gone, p);
        let after = without(entries, gone);
        if has_key(entries, other) {
            let q = position(entries, other);
            lemma_position(entries, other, q);
            let q1 = if q < p { q } else { q - 1 };
            assert(after[q1] == entries[q]);
            lemma_position(after, other, q1);
        } else {
            assert forall|i: int| 0 <= i < after.len() implies (#[trigger] after[i]).0 != other by {
                let i0 = if i < p { i } else { i + 1 };
                assert(entries[i0].0 != other);
            }
        }
    }
}

/// A removed key is not found any more, and storing it again puts it last.
pub proof fn lemma_without_then_lookup(entries: Seq<Entry>, key: Seq<char>, value: i32)
    requires
        distinct_keys(entries),
    ensures
        distinct_keys(without(entries, key)),
        lookup(without(entries, key), key) is None,
        put(without(entries, key), key, value) == without(entries, key).push((key, value)),
{
    if has_key(entries, key) {
        lemma_without_keeps_order(entries, key, position(entries, key));
    }
}

/// Nothing is found in a table without entries, and it has no first and no
/// last entry.
pub proof fn lemma_empty_holds_nothing(key: Seq<char>)
    ensures
        distinct_keys(Seq::<Entry>::empty()),
        !has_key(Seq::<Entry>::empty(), key),
        lookup(Seq::<Entry>::empty(), key) is None,
        without(Seq::<Entry>::empty(), key) == Seq::<Entry>::empty(),
        Seq::<Entry>::empty().len() == 0,
{
}

/// Storing a key that was not there and removing it again leaves the entries
/// as they were; a table that held nothing else is empty again.
pub proof fn lemma_put_then_without(entries: Seq<Entry>, key: Seq<char>, value: i32)
    requires
        distinct_keys(entries),
        !has_key(entries, key),
    ensures
        without(put(entries, key, value), key) == entries,
        without(put(Seq::empty(), key, value), key) == Seq::<Entry>::empty(),
{
    let after = put(entries, key, value);
    lemma_put_then_lookup(entries, key, value);
    lemma_without_keeps_order(after, key, entries.len() as int);
    assert(after.remove(entries.len() as int) =~= entries);
    let single = put(Seq::<Entry>::empty(), key, value);
    lemma_put_then_lookup(Seq::<Entry>::empty(), key, value);
    lemma_without_keeps_order(single, key, 0);
    assert(single.remove(0) =~= Seq::<Entry>::empty());
}

/// A key whose first slot is taken while the next is free lands in the next.
pub proof fn lemma_collision_moves_on(taken: Seq<usize>, cap: int, start: int)
    requires
        0 <= start < cap,
        cap > 1,
        taken.contains(start as usize),
        !taken.contains(slot_after(start, 1, cap) as usize),
    ensures
        lands_at(taken, cap, start, slot_after(start, 1, cap)),
{
}

} // verus!
