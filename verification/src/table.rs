//! The table itself: its slots, its invariant and its operations.

use crate::hashing::index_for;
use crate::hashing::key_to_index;
use crate::hashing::same_text;
use crate::model::distinct_keys;
use crate::model::has_key;
use crate::model::lemma_position;
use crate::model::lookup;
use crate::model::position;
use crate::model::put;
use crate::model::without;
use crate::model::Entry;
use crate::probing::lands_at;
use crate::probing::lemma_taken_count;
use crate::probing::next_slot;
use crate::probing::slot_after;
use crate::probing::steps_to;
use vstd::pervasive::unreached;
use vstd::prelude::*;

verus! {

/// How many slots a table gets for each entry it is expected to hold.
///
/// This only trades space against collisions; nothing depends on its value.
pub const GROWTH_FACTOR: usize = 2;

/// The table size for an expected number of entries.
pub fn optimal_initial_size_factor(initial_guess: usize) -> (size: usize)
    requires
        initial_guess * GROWTH_FACTOR <= usize::MAX,
    ensures
        size == initial_guess * GROWTH_FACTOR,
{
    initial_guess * GROWTH_FACTOR
}

/// A key with its value, and the slots of its neighbours in insertion order.
///
/// The two links are the table's business: `HashMap::insert` ignores whatever
/// a caller put there, and the items a table hands out carry the links as
/// stored.
#[derive(Debug, Clone, PartialEq)]
pub struct MapItem {
    pub key: String,
    pub value: i32,
    pub index_prev: Option<usize>,
    pub index_next: Option<usize>,
}

impl View for MapItem {
    type V = Entry;

    open spec fn view(&self) -> Entry {
        (self.key@, self.value)
    }
}

impl MapItem {
    /// An item for `key` and `value`, not linked to anything.
    pub fn new(key: &str, value: i32) -> (item: Self)
        ensures
            item@ == (key@, value),
            item.index_prev is None,
            item.index_next is None,
    {
        MapItem { key: key.to_owned(), value, index_prev: None, index_next: None }
    }
}

/// Why an insertion was refused.
#[derive(Debug, Clone, Copy, PartialEq, Eq, Structural)]
pub enum TableError {
    /// Every slot holds some other key.
    CapacityExceeded,
}

/// One place in the table.
enum Slot {
    /// Never used since the table was made: a probe may stop here.
    Empty,
    /// Held an entry that was removed: a probe goes on past it, an insertion
    /// may use it.
    Deleted,
    /// Holds an entry.
    Occupied(MapItem),
}

/// What a probe for a key comes to.
enum Probe {
    /// The key is stored in this slot.
    Found(usize),
    /// The key is not stored, and this is the slot where it would go.
    Vacant(usize),
    /// The key is not stored and no slot is free.
    Full,
}

/// Points the backward link of the entry in slot `index` at `prev`.
fn set_prev(items: &mut Vec<Slot>, index: usize, prev: Option<usize>)
    requires
        index < old(items)@.len(),
        old(items)@[index as int] is Occupied,
    ensures
        final(items)@ == old(items)@.update(
            index as int,
            Slot::Occupied(MapItem { index_prev: prev, ..old(items)@[index as int]->Occupied_0 }),
        ),
{
    match &mut items[index] {
        Slot::Occupied(item) => {
            item.index_prev = prev;
        },
        _ => {},
    }
    assert(items@ =~= old(items)@.update(
        index as int,
        Slot::Occupied(MapItem { index_prev: prev, ..old(items)@[index as int]->Occupied_0 }),
    ));
}

/// Points the forward link of the entry in slot `index` at `next`.
fn set_next(items: &mut Vec<Slot>, index: usize, next: Option<usize>)
    requires
        index < old(items)@.len(),
        old(items)@[index as int] is Occupied,
    ensures
        final(items)@ == old(items)@.update(
            index as int,
            Slot::Occupied(MapItem { index_next: next, ..old(items)@[index as int]->Occupied_0 }),
        ),
{
    match &mut items[index] {
        Slot::Occupied(item) => {
            item.index_next = next;
        },
        _ => {},
    }
    assert(items@ =~= old(items)@.update(
        index as int,
        Slot::Occupied(MapItem { index_next: next, ..old(items)@[index as int]->Occupied_0 }),
    ));
}

/// Replaces the value of the entry in slot `index`.
fn set_value(items: &mut Vec<Slot>, index: usize, value: i32)
    requires
        index < old(items)@.len(),
        old(items)@[index as int] is Occupied,
    ensures
        final(items)@ == old(items)@.update(
            index as int,
            Slot::Occupied(MapItem { value: value, ..old(items)@[index as int]->Occupied_0 }),
        ),
{
    match &mut items[index] {
        Slot::Occupied(item) => {
            item.value = value;
        },
        _ => {},
    }
    assert(items@ =~= old(items)@.update(
        index as int,
        Slot::Occupied(MapItem { value: value, ..old(items)@[index as int]->Occupied_0 }),
    ));
}

/// A fixed-capacity hash table with linear probing that remembers the order
/// in which its keys first arrived.
pub struct HashMap {
    items: Vec<Slot>,
    capacity: usize,
    last_touched: Option<usize>,
    first_touched: Option<usize>,
    order: Ghost<Seq<usize>>,
}

impl View for HashMap {
    type V = Seq<Entry>;

    /// The entries, in the order in which their keys first arrived.
    closed spec fn view(&self) -> Seq<Entry> {
        Seq::new(self.order@.len(), |p: int| self.item(self.order@[p] as int)@)
    }
}

impl HashMap {
    /// The number of slots, fixed when the table is made.
    pub closed spec fn cap(&self) -> usize {
        self.capacity
    }

    /// The occupied slots, in the order in which their keys first arrived.
    pub closed spec fn chain(&self) -> Seq<usize> {
        self.order@
    }

    /// The slot of the entry at place `p` of the insertion order, if there is
    /// such a place.
    pub open spec fn link(&self, p: int) -> Option<usize> {
        if 0 <= p < self.chain().len() {
            Some(self.chain()[p])
        } else {
            None
        }
    }

    spec fn holds(&self, i: int) -> bool {
        0 <= i < self.items@.len() && self.items@[i] is Occupied
    }

    spec fn item(&self, i: int) -> MapItem {
        self.items@[i]->Occupied_0
    }

    spec fn home(&self, i: int) -> int {
        index_for(self.item(i).key@, self.capacity) as int
    }

    /// The chain lists the occupied slots, each once, but for `pending`.
    spec fn chain_sound(&self, pending: Option<usize>) -> bool {
        &&& self.order@.no_duplicates()
        &&& forall|p: int| 0 <= p < self.order@.len() ==> self.holds(#[trigger] self.order@[p] as int)
        &&& forall|i: int| #[trigger]
            self.holds(i) ==> self.order@.contains(i as usize) || pending == Some(i as usize)
        &&& pending matches Some(j) ==> self.holds(j as int) && !self.order@.contains(j)
    }

    /// The entry at place `p` of the chain names the slots before and after
    /// it.
    spec fn linked_at(&self, p: int) -> bool {
        &&& self.item(self.order@[p] as int).index_prev == self.link(p - 1)
        &&& self.item(self.order@[p] as int).index_next == self.link(p + 1)
    }

    /// Each chained slot names its neighbours, and the table names both ends.
    spec fn links_sound(&self) -> bool {
        let n = self.order@.len();
        &&& forall|p: int| 0 <= p < n ==> #[trigger] self.linked_at(p)
        &&& self.first_touched == self.link(0)
        &&& self.last_touched == self.link(n - 1)
    }

    /// No key is stored twice.
    spec fn keys_sound(&self) -> bool {
        forall|i: int, j: int|
            #![trigger self.holds(i), self.holds(j)]
            self.holds(i) && self.holds(j) && i != j ==> self.item(i).key@ != self.item(j).key@
    }

    /// A probe for the key in slot `i` does not stop at its step `d`.
    spec fn passes(&self, i: int, d: int) -> bool {
        self.holds(i) && 0 <= d < steps_to(self.home(i), i, self.capacity as int) ==> !(
        self.items@[slot_after(self.home(i), d, self.capacity as int)] is Empty)
    }

    /// Every stored key is reached by a probe from its own start.
    spec fn probes_sound(&self) -> bool {
        forall|i: int, d: int| #[trigger] self.passes(i, d)
    }

    spec fn inv(&self, pending: Option<usize>) -> bool {
        &&& self.items@.len() == self.capacity
        &&& self.chain_sound(pending)
        &&& self.links_sound()
        &&& self.keys_sound()
        &&& self.probes_sound()
    }

    /// The table is in order: what every operation expects and leaves behind.
    pub closed spec fn wf(&self) -> bool {
        self.inv(None)
    }

    /// The table is in order but for slot `index`, which holds an entry that
    /// the chain does not list yet.
    pub closed spec fn wf_but_unlinked(&self, index: usize) -> bool {
        self.inv(Some(index))
    }

    /// The entry that slot `index` holds.
    pub closed spec fn entry_in(&self, index: usize) -> Entry {
        self.item(index as int)@
    }

    /// Slot `i` does not end a probe for `key`: it is not empty and does not
    /// hold `key`.
    spec fn seen(&self, key: Seq<char>, i: int) -> bool {
        &&& 0 <= i < self.items@.len()
        &&& !(self.items@[i] is Empty)
        &&& self.holds(i) ==> self.item(i).key@ != key
    }

    /// No slot holds `key`.
    spec fn absent(&self, key: Seq<char>) -> bool {
        forall|i: int| #[trigger] self.holds(i) ==> self.item(i).key@ != key
    }

    /// What `locate` promises of its answer for `key`.
    spec fn located(&self, key: Seq<char>, found: Probe) -> bool {
        let cap = self.capacity as int;
        let start = index_for(key, self.capacity) as int;
        match found {
            Probe::Found(i) => self.holds(i as int) && self.item(i as int).key@ == key,
            Probe::Vacant(i) => {
                &&& self.absent(key)
                &&& i < cap
                &&& !self.holds(i as int)
                &&& forall|d: int|
                    0 <= d < steps_to(start, i as int, cap) ==> self.holds(
                        #[trigger] slot_after(start, d, cap),
                    )
            },
            Probe::Full => {
                &&& self.absent(key)
                &&& forall|i: int| 0 <= i < cap ==> self.holds(i)
            },
        }
    }

    /// Probes for `key` from its start: past occupied slots and tombstones,
    /// until the key, a never-used slot or the whole table has been seen.
    fn locate(&self, key: &str) -> (found: Probe)
        requires
            self.inv(None),
        ensures
            self.located(key@, found),
    {
        if self.capacity == 0 {
            return Probe::Full;
        }
        let start_index = key_to_index(key, self.capacity);
        let mut index = start_index;
        let mut reusable: Option<usize> = None;
        let mut steps: usize = 0;
        let ghost cap = self.capacity as int;
        let ghost start = start_index as int;
        while steps < self.capacity
            invariant
                self.inv(None),
                cap == self.capacity,
                0 < cap,
                start == index_for(key@, self.capacity),
                0 <= start < cap,
                steps <= cap,
                index == slot_after(start, steps as int, cap),
                index < cap,
                forall|d: int|
                    0 <= d < steps ==> self.seen(key@, #[trigger] slot_after(start, d, cap)),
                match reusable {
                    Some(f) => {
                        &&& f < cap
                        &&& !self.holds(f as int)
                        &&& steps_to(start, f as int, cap) < steps
                        &&& forall|d: int|
                            0 <= d < steps_to(start, f as int, cap) ==> self.holds(
                                #[trigger] slot_after(start, d, cap),
                            )
                    },
                    None => forall|d: int|
                        0 <= d < steps ==> self.holds(#[trigger] slot_after(start, d, cap)),
                },
            decreases cap - steps,
        {
            match &self.items[index] {
                Slot::Occupied(item) => {
                    if same_text(item.key.as_str(), key) {
                        return Probe::Found(index);
                    }
                },
                Slot::Deleted => {
                    if reusable.is_none() {
                        reusable = Some(index);
                    }
                },
                Slot::Empty => {
                    proof {
                        assert forall|i: int| #[trigger] self.holds(i) implies self.item(i).key@
                            != key@ by {
                            if self.item(i).key@ == key@ {
                                let d = steps_to(start, i, cap);
                                if d < steps {
                                    assert(self.seen(key@, slot_after(start, d, cap)));
                                } else {
                                    assert(self.passes(i, steps as int));
                                }
                            }
                        }
                    }
                    return match reusable {
                        Some(f) => Probe::Vacant(f),
                        None => Probe::Vacant(index),
                    };
                },
            }
            index = next_slot(index, self.capacity);
            steps = steps + 1;
        }
        proof {
            assert forall|i: int| #[trigger] self.holds(i) implies self.item(i).key@ != key@ by {
                assert(self.seen(key@, slot_after(start, steps_to(start, i, cap), cap)));
            }
            if reusable is None {
                assert forall|i: int| 0 <= i < cap implies self.holds(i) by {
                    assert(self.holds(slot_after(start, steps_to(start, i, cap), cap)));
                }
            }
        }
        match reusable {
            Some(f) => Probe::Vacant(f),
            None => Probe::Full,
        }
    }

    /// The keys of the view are distinct, and the view is as long as the chain.
    proof fn lemma_view_distinct(&self)
        requires
            self.inv(None),
        ensures
            distinct_keys(self@),
            self@.len() == self.order@.len(),
    {
        assert forall|p: int, q: int| 0 <= p < q < self@.len() implies (#[trigger] self@[p]).0 != (
        #[trigger] self@[q]).0 by {
            assert(self.holds(self.order@[p] as int));
            assert(self.holds(self.order@[q] as int));
        }
    }

    /// An occupied slot shows in the view at its place in the chain.
    proof fn lemma_view_of_slot(&self, i: usize) -> (p: int)
        requires
            self.inv(None),
            self.holds(i as int),
        ensures
            0 <= p < self.order@.len(),
            self.order@[p] == i,
            p == self.order@.index_of(i),
            self@[p] == self.item(i as int)@,
            has_key(self@, self.item(i as int).key@),
            position(self@, self.item(i as int).key@) == p,
    {
        assert(self.order@.contains(i));
        let p = self.order@.index_of(i);
        self.lemma_view_distinct();
        lemma_position(self@, self.item(i as int).key@, p);
        p
    }

    /// A key that no slot holds does not show in the view.
    proof fn lemma_view_of_absent(&self, key: Seq<char>)
        requires
            self.inv(None),
            self.absent(key),
        ensures
            !has_key(self@, key),
    {
        assert forall|p: int| 0 <= p < self@.len() implies (#[trigger] self@[p]).0 != key by {
            assert(self.holds(self.order@[p] as int));
        }
    }

    /// The item that an occupied slot holds.
    fn occupant(&self, index: usize) -> (item: &MapItem)
        requires
            self.holds(index as int),
        ensures
            *item == self.item(index as int),
    {
        match &self.items[index] {
            Slot::Occupied(item) => item,
            _ => unreached(),
        }
    }

    /// An empty table with `GROWTH_FACTOR` slots for each of the `size`
    /// entries it is expected to hold.
    pub fn new(size: usize) -> (table: Self)
        requires
            size * GROWTH_FACTOR <= usize::MAX,
        ensures
            table.wf(),
            table@ == Seq::<Entry>::empty(),
            table.chain() == Seq::<usize>::empty(),
            table.cap() == size * GROWTH_FACTOR,
    {
        let vec_size = optimal_initial_size_factor(size);
        let mut vec: Vec<Slot> = Vec::new();
        while vec.len() < vec_size
            invariant
                vec@.len() <= vec_size,
                forall|i: int| 0 <= i < vec@.len() ==> vec@[i] is Empty,
            decreases vec_size - vec@.len(),
        {
            vec.push(Slot::Empty);
        }
        let table = HashMap {
            items: vec,
            capacity: vec_size,
            last_touched: None,
            first_touched: None,
            order: Ghost(Seq::empty()),
        };
        assert(table@ =~= Seq::<Entry>::empty());
        table
    }

    /// Appends the entry in slot `index`, which the chain does not list yet,
    /// to the insertion order.
    pub fn update_neighbours(&mut self, index: usize)
        requires
            old(self).wf_but_unlinked(index),
        ensures
            final(self).wf(),
            final(self).cap() == old(self).cap(),
            final(self).chain() == old(self).chain().push(index),
            final(self)@ == old(self)@.push(old(self).entry_in(index)),
    {
        if self.first_touched.is_none() {
            self.first_touched = Some(index);
            set_prev(&mut self.items, index, None);
        } else {
            let last = self.last_touched.unwrap();
            assert(self.holds(self.order@[self.order@.len() - 1] as int));
            set_prev(&mut self.items, index, Some(last));
            set_next(&mut self.items, last, Some(index));
        }
        set_next(&mut self.items, index, None);
        self.last_touched = Some(index);
        self.order = Ghost(self.order@.push(index));
        proof {
            let before = *old(self);
            assert forall|i: int|
                #![trigger self.holds(i)]
                #![trigger before.holds(i)]
                self.holds(i) == before.holds(i) by {}
            assert forall|i: int| #[trigger] before.holds(i) implies self.item(i).key
                == before.item(i).key && self.item(i).value == before.item(i).value by {}
            let n = before.order@.len() as int;
            assert forall|p: int, q: int|
                0 <= p < self.order@.len() && 0 <= q < self.order@.len() && p != q implies self.order@[p]
                != self.order@[q] by {
                if p < n && q < n {
                    assert(before.order@[p] != before.order@[q]);
                } else if p < n {
                    assert(before.order@[p] == self.order@[p]);
                } else {
                    assert(before.order@[q] == self.order@[q]);
                }
            }
            assert forall|i: int| #[trigger] self.holds(i) implies self.order@.contains(
                i as usize,
            ) by {
                if i == index {
                    assert(self.order@[n] == index);
                } else {
                    assert(before.holds(i));
                    let p = before.order@.index_of(i as usize);
                    assert(self.order@[p] == i);
                }
            }
            assert forall|p: int| 0 <= p < self.order@.len() implies self.holds(
                #[trigger] self.order@[p] as int,
            ) by {
                if p < n {
                    assert(before.holds(before.order@[p] as int));
                }
            }
            assert(self.chain_sound(None));
            assert forall|q: int| 0 <= q < n + 1 implies #[trigger] self.linked_at(q) by {
                if q < n {
                    assert(before.linked_at(q));
                    assert(before.holds(before.order@[q] as int));
                    assert(self.order@[q] == before.order@[q]);
                    if q > 0 {
                        assert(self.order@[q - 1] == before.order@[q - 1]);
                    }
                    if q + 1 < n {
                        assert(self.order@[q + 1] == before.order@[q + 1]);
                        assert(before.order@[q] != before.order@[n - 1]);
                    }
                }
            }
            assert(self.links_sound());
            assert(self.keys_sound());
            assert forall|i: int, d: int| #[trigger] self.passes(i, d) by {
                assert(before.passes(i, d));
            }
            assert(self@ =~= before@.push(before.entry_in(index)));
        }
    }

    /// Stores `key_val.value` under `key_val.key`.
    ///
    /// A key that is already stored keeps its slot and its place in the
    /// insertion order and takes the new value. A new key goes into the first
    /// slot on its probe that holds no entry, and to the end of the insertion
    /// order. When the key is new and every slot is occupied, nothing changes
    /// and the insertion is refused.
    pub fn insert(&mut self, key_val: MapItem) -> (outcome: Result<(), TableError>)
        requires
            old(self).wf(),
        ensures
            final(self).wf(),
            final(self).cap() == old(self).cap(),
            outcome is Ok <==> has_key(old(self)@, key_val.key@) || old(self)@.len() < old(
                self,
            ).cap(),
            outcome is Ok ==> final(self)@ == put(old(self)@, key_val.key@, key_val.value),
            outcome matches Err(refusal) ==> refusal == TableError::CapacityExceeded && *final(self)
                == *old(self),
            has_key(old(self)@, key_val.key@) ==> final(self).chain() == old(self).chain(),
            outcome is Ok && !has_key(old(self)@, key_val.key@) ==> {
                &&& final(self).chain() == old(self).chain().push(final(self).chain().last())
                &&& lands_at(
                    old(self).chain(),
                    old(self).cap() as int,
                    index_for(key_val.key@, old(self).cap()) as int,
                    final(self).chain().last() as int,
                )
            },
    {
        let ghost before = *self;
        let ghost key = key_val.key@;
        let ghost cap = self.capacity as int;
        match self.locate(key_val.key.as_str()) {
            Probe::Found(index) => {
                set_value(&mut self.items, index, key_val.value);
                proof {
                    let p = before.lemma_view_of_slot(index);
                    assert forall|i: int|
                        #![trigger self.holds(i)]
                        #![trigger before.holds(i)]
                        self.holds(i) == before.holds(i) by {}
                    assert forall|i: int| #[trigger] before.holds(i) implies self.item(i).key
                        == before.item(i).key && self.item(i).index_prev == before.item(
                        i,
                    ).index_prev && self.item(i).index_next == before.item(i).index_next by {}
                    assert forall|q: int| 0 <= q < self.order@.len() implies self.holds(
                        #[trigger] self.order@[q] as int,
                    ) by {
                        assert(before.holds(before.order@[q] as int));
                    }
                    assert(self.chain_sound(None));
                    assert forall|q: int| 0 <= q < self.order@.len() implies #[trigger] self.linked_at(
                        q,
                    ) by {
                        assert(before.linked_at(q));
                        assert(before.holds(before.order@[q] as int));
                    }
                    assert(self.links_sound());
                    assert(self.keys_sound());
                    assert forall|i: int, d: int| #[trigger] self.passes(i, d) by {
                        assert(before.passes(i, d));
                    }
                    assert(self@ =~= before@.update(p, (key, key_val.value)));
                }
                Ok(())
            },
            Probe::Vacant(index) => {
                self.items[index] = Slot::Occupied(key_val);
                proof {
                    before.lemma_view_of_absent(key);
                    assert(!before.order@.contains(index)) by {
                        if before.order@.contains(index) {
                            let p = before.order@.index_of(index);
                            assert(before.holds(before.order@[p] as int));
                        }
                    }
                    assert forall|p: int| 0 <= p < before.order@.len() implies (
                    #[trigger] before.order@[p]) < cap && before.order@[p] != index by {
                        assert(before.holds(before.order@[p] as int));
                    }
                    lemma_taken_count(before.order@, before.capacity);
                    before.lemma_view_distinct();
                    assert forall|i: int|
                        #![trigger self.holds(i)]
                        #![trigger before.holds(i)]
                        i != index implies self.holds(i) == before.holds(i) && (before.holds(i)
                        ==> self.item(i) == before.item(i)) by {}
                    assert forall|q: int| 0 <= q < self.order@.len() implies self.holds(
                        #[trigger] self.order@[q] as int,
                    ) by {
                        assert(before.holds(before.order@[q] as int));
                    }
                    assert(self.chain_sound(Some(index)));
                    assert forall|q: int| 0 <= q < self.order@.len() implies #[trigger] self.linked_at(
                        q,
                    ) by {
                        assert(before.linked_at(q));
                        assert(before.holds(before.order@[q] as int));
                    }
                    assert(self.links_sound());
                    assert(self.keys_sound());
                    let start = index_for(key, self.capacity) as int;
                    assert forall|i: int, d: int| #[trigger] self.passes(i, d) by {
                        if i == index {
                            if 0 <= d < steps_to(start, i, cap) {
                                assert(before.holds(slot_after(start, d, cap)));
                            }
                        } else {
                            assert(before.passes(i, d));
                        }
                    }
                    assert(self@ =~= before@);
                    assert(lands_at(before.order@, cap, start, index as int)) by {
                        assert forall|d: int| 0 <= d < steps_to(start, index as int, cap) implies
                            before.order@.contains(#[trigger] slot_after(start, d, cap) as usize) by {
                            assert(before.holds(slot_after(start, d, cap)));
                        }
                    }
                }
                self.update_neighbours(index);
                Ok(())
            },
            Probe::Full => {
                proof {
                    before.lemma_view_of_absent(key);
                    before.lemma_view_distinct();
                    assert forall|p: int| 0 <= p < before.order@.len() implies (
                    #[trigger] before.order@[p]) < cap by {
                        assert(before.holds(before.order@[p] as int));
                    }
                    assert forall|slot: usize| slot < before.capacity implies before.order@.contains(
                        slot,
                    ) by {
                        assert(before.holds(slot as int));
                    }
                    lemma_taken_count(before.order@, before.capacity);
                }
                Err(TableError::CapacityExceeded)
            },
        }
    }

    /// Slot `i` of `after` is slot `i` of `self`, with its links led around
    /// slot `index` where they pointed at it.
    spec fn rewired(&self, after: &Self, index: usize, i: int) -> bool {
        let gone = self.item(index as int);
        match self.items@[i] {
            Slot::Occupied(item) => after.items@[i] == Slot::Occupied(
                MapItem {
                    index_prev: if gone.index_next == Some(i as usize) {
                        gone.index_prev
                    } else {
                        item.index_prev
                    },
                    index_next: if gone.index_prev == Some(i as usize) {
                        gone.index_next
                    } else {
                        item.index_next
                    },
                    ..item
                },
            ),
            other => after.items@[i] == other,
        }
    }

    /// `after` is `self` with the entry in slot `index` taken out of the
    /// chain and a tombstone left in its slot.
    spec fn unlinks(&self, after: &Self, index: usize) -> bool {
        let gone = self.item(index as int);
        &&& after.capacity == self.capacity
        &&& after.items@.len() == self.items@.len()
        &&& after.order@ == self.order@.remove(self.order@.index_of(index))
        &&& after.first_touched == if gone.index_prev is None {
            gone.index_next
        } else {
            self.first_touched
        }
        &&& after.last_touched == if gone.index_next is None {
            gone.index_prev
        } else {
            self.last_touched
        }
        &&& after.items@[index as int] is Deleted
        &&& forall|i: int|
            0 <= i < self.items@.len() && i != index ==> #[trigger] self.rewired(after, index, i)
    }

    /// Taking a slot out of the chain keeps the chain a list of the occupied
    /// slots.
    proof fn lemma_unlink_chain(&self, after: &Self, index: usize)
        requires
            self.inv(None),
            self.order@.contains(index),
            self.unlinks(after, index),
        ensures
            after.chain_sound(None),
            forall|i: int|
                #![trigger after.holds(i)]
                after.holds(i) <==> self.holds(i) && i != index,
            forall|i: int| #[trigger]
                after.holds(i) ==> after.item(i)@ == self.item(i)@,
            forall|q: int|
                0 <= q < after.order@.len() ==> #[trigger] after.order@[q] == self.order@[if q
                    < self.order@.index_of(index) {
                    q
                } else {
                    q + 1
                }],
            after.order@.len() == self.order@.len() - 1,
    {
        let p = self.order@.index_of(index);
        assert forall|i: int| #![trigger after.holds(i)] after.holds(i) <==> self.holds(i) && i
            != index by {
            if 0 <= i < self.items@.len() && i != index {
                assert(self.rewired(after, index, i));
            }
        }
        assert forall|i: int| #[trigger] after.holds(i) implies after.item(i)@ == self.item(i)@ by {
            assert(self.rewired(after, index, i));
        }
        assert forall|q: int| 0 <= q < after.order@.len() implies after.holds(
            #[trigger] after.order@[q] as int,
        ) by {
            let r = if q < p { q } else { q + 1 };
            assert(self.holds(self.order@[r] as int));
            assert(self.order@[r] != self.order@[p]);
        }
        assert forall|i: int| #[trigger] after.holds(i) implies after.order@.contains(
            i as usize,
        ) by {
            assert(self.holds(i));
            let r = self.order@.index_of(i as usize);
            let q = if r < p { r } else { r - 1 };
            assert(after.order@[q] == i);
        }
        assert forall|q: int, r: int|
            0 <= q < after.order@.len() && 0 <= r < after.order@.len() && q != r implies after.order@[q]
            != after.order@[r] by {
            let q0 = if q < p { q } else { q + 1 };
            let r0 = if r < p { r } else { r + 1 };
            assert(self.order@[q0] != self.order@[r0]);
        }
    }

    /// Taking a slot out of the chain, with the links led around it, keeps
    /// the links in step with the chain.
    proof fn lemma_unlink_links(&self, after: &Self, index: usize)
        requires
            self.inv(None),
            self.order@.contains(index),
            self.unlinks(after, index),
        ensures
            after.links_sound(),
    {
        self.lemma_unlink_chain(after, index);
        let p = self.order@.index_of(index);
        let n = self.order@.len() as int;
        assert(self.linked_at(p));
        assert forall|q: int| 0 <= q < after.order@.len() implies #[trigger] after.linked_at(q) by {
            let r = if q < p { q } else { q + 1 };
            let i = self.order@[r];
            assert(after.order@[q] == i);
            assert(self.holds(i as int));
            assert(i != index);
            assert(self.rewired(after, index, i as int));
            assert(self.linked_at(r));
            if q > 0 {
                assert(after.order@[q - 1] == self.order@[if q - 1 < p { q - 1 } else { q }]);
            }
            if q + 1 < after.order@.len() {
                assert(after.order@[q + 1] == self.order@[if q + 1 < p { q + 1 } else { q + 2 }]);
            }
            if p > 0 {
                assert(self.order@[p - 1] != self.order@[p]);
                if r != p - 1 {
                    assert(self.order@[r] != self.order@[p - 1]);
                }
            }
            if p + 1 < n {
                assert(self.order@[p + 1] != self.order@[p]);
                if r != p + 1 {
                    assert(self.order@[r] != self.order@[p + 1]);
                }
            }
        }
        if after.order@.len() > 0 {
            assert(after.order@[0] == self.order@[if 0 < p { 0int } else { 1int }]);
            let m = after.order@.len() - 1;
            assert(after.order@[m] == self.order@[if m < p { m } else { m + 1 }]);
        }
    }

    /// Taking a slot out of the chain and leaving a tombstone keeps the table
    /// in order, and takes the slot's entry out of the view.
    proof fn lemma_unlink(&self, after: &Self, index: usize)
        requires
            self.inv(None),
            self.order@.contains(index),
            self.unlinks(after, index),
        ensures
            after.inv(None),
            after@ == self@.remove(self.order@.index_of(index)),
    {
        self.lemma_unlink_chain(after, index);
        self.lemma_unlink_links(after, index);
        let p = self.order@.index_of(index);
        assert forall|i: int, j: int|
            #![trigger after.holds(i), after.holds(j)]
            after.holds(i) && after.holds(j) && i != j implies after.item(i).key@ != after.item(
            j,
        ).key@ by {
            assert(self.holds(i) && self.holds(j));
        }
        assert forall|i: int, d: int| #[trigger] after.passes(i, d) by {
            if after.holds(i) {
                assert(self.holds(i));
                assert(self.passes(i, d));
                let cap = self.capacity as int;
                if 0 <= d < steps_to(self.home(i), i, cap) {
                    let at = slot_after(self.home(i), d, cap);
                    if at != index {
                        assert(self.rewired(after, index, at));
                    }
                }
            }
        }
        assert(after@ =~= self@.remove(p)) by {
            assert forall|q: int| 0 <= q < after.order@.len() implies after@[q] == self@.remove(
                p,
            )[q] by {
                assert(after.holds(after.order@[q] as int));
            }
        }
    }

    /// Takes the entry in slot `index` out of the insertion order, joining
    /// its neighbours to each other, and leaves a tombstone in its slot.
    pub fn rewire_neighbours_and_remove(&mut self, index: usize)
        requires
            old(self).wf(),
            old(self).chain().contains(index),
        ensures
            final(self).wf(),
            final(self).cap() == old(self).cap(),
            final(self).chain() == old(self).chain().remove(old(self).chain().index_of(index)),
            final(self)@ == old(self)@.remove(old(self).chain().index_of(index)),
    {
        let ghost before = *self;
        let ghost p = self.order@.index_of(index);
        let ghost n = self.order@.len() as int;
        assert(self.holds(self.order@[p] as int));
        assert(self.linked_at(p));
        let (prev, next) = {
            let item = self.occupant(index);
            (item.index_prev, item.index_next)
        };
        assert(prev == self.link(p - 1) && next == self.link(p + 1));
        proof {
            if p > 0 {
                assert(self.holds(self.order@[p - 1] as int));
                assert(self.order@[p - 1] != self.order@[p]);
            }
            if p + 1 < n {
                assert(self.holds(self.order@[p + 1] as int));
                assert(self.order@[p + 1] != self.order@[p]);
            }
            if p > 0 && p + 1 < n {
                assert(self.order@[p - 1] != self.order@[p + 1]);
            }
        }
        match prev {
            Some(pred) => {
                set_next(&mut self.items, pred, next);
            },
            None => {
                self.first_touched = next;
            },
        }
        match next {
            Some(succ) => {
                set_prev(&mut self.items, succ, prev);
            },
            None => {
                self.last_touched = prev;
            },
        }
        self.items[index] = Slot::Deleted;
        self.order = Ghost(self.order@.remove(p));
        proof {
            assert forall|i: int| 0 <= i < before.items@.len() && i != index implies #[trigger] before.rewired(
                &*self,
                index,
                i,
            ) by {}
            before.lemma_unlink(&*self, index);
        }
    }

    /// Takes `key` and its value out of the table; the other entries keep
    /// their slots and their order. A key that is not stored changes nothing.
    pub fn remove(&mut self, key: &str)
        requires
            old(self).wf(),
        ensures
            final(self).wf(),
            final(self).cap() == old(self).cap(),
            final(self)@ == without(old(self)@, key@),
            has_key(old(self)@, key@) ==> final(self).chain() == old(self).chain().remove(
                position(old(self)@, key@),
            ),
            !has_key(old(self)@, key@) ==> *final(self) == *old(self),
    {
        match self.locate(key) {
            Probe::Found(index) => {
                proof {
                    self.lemma_view_of_slot(index);
                }
                self.rewire_neighbours_and_remove(index);
            },
            _ => {
                proof {
                    self.lemma_view_of_absent(key@);
                }
            },
        }
    }

    /// The value stored under `key`, if any.
    pub fn get(&self, key: &str) -> (value: Option<i32>)
        requires
            self.wf(),
        ensures
            value == lookup(self@, key@),
    {
        match self.locate(key) {
            Probe::Found(index) => {
                proof {
                    self.lemma_view_of_slot(index);
                }
                Some(self.occupant(index).value)
            },
            _ => {
                proof {
                    self.lemma_view_of_absent(key@);
                }
                None
            },
        }
    }

    /// A copy of the item that an occupied slot holds.
    fn copy_of(&self, index: usize) -> (copy: MapItem)
        requires
            self.holds(index as int),
        ensures
            copy == self.item(index as int),
    {
        let item = self.occupant(index);
        MapItem {
            key: item.key.clone(),
            value: item.value,
            index_prev: item.index_prev,
            index_next: item.index_next,
        }
    }

    /// The entry whose key arrived first, as stored; none in an empty table.
    pub fn get_first(&self) -> (first: Option<MapItem>)
        requires
            self.wf(),
        ensures
            first is Some <==> self@.len() > 0,
            first matches Some(item) ==> {
                &&& item@ == self@.first()
                &&& item.index_prev is None
                &&& item.index_next == self.link(1)
            },
    {
        proof {
            self.lemma_view_distinct();
        }
        if self.first_touched.is_some() {
            let index = self.first_touched.unwrap();
            assert(self.holds(self.order@[0] as int));
            assert(self.linked_at(0));
            Some(self.copy_of(index))
        } else {
            None
        }
    }

    /// The entry whose key arrived last, as stored; none in an empty table.
    pub fn get_last(&self) -> (last: Option<MapItem>)
        requires
            self.wf(),
        ensures
            last is Some <==> self@.len() > 0,
            last matches Some(item) ==> {
                &&& item@ == self@.last()
                &&& item.index_prev == self.link(self@.len() - 2)
                &&& item.index_next is None
            },
    {
        proof {
            self.lemma_view_distinct();
        }
        match self.last_touched {
            Some(index) => {
                assert(self.holds(self.order@[self.order@.len() - 1] as int));
                assert(self.linked_at(self.order@.len() - 1));
                Some(self.copy_of(index))
            },
            None => None,
        }
    }

    /// The entries in insertion order, read off the chain from its head.
    pub fn entries(&self) -> (all: Vec<(String, i32)>)
        requires
            self.wf(),
        ensures
            all@.len() == self@.len(),
            forall|p: int| 0 <= p < all@.len() ==> (#[trigger] all@[p].0@, all@[p].1) == self@[p],
    {
        proof {
            self.lemma_view_distinct();
        }
        let mut all: Vec<(String, i32)> = Vec::new();
        let mut cursor = self.first_touched;
        while cursor.is_some()
            invariant
                self.inv(None),
                self@.len() == self.order@.len(),
                all@.len() <= self.order@.len(),
                cursor == self.link(all@.len() as int),
                forall|p: int|
                    0 <= p < all@.len() ==> (#[trigger] all@[p].0@, all@[p].1) == self@[p],
            decreases self.order@.len() - all@.len(),
        {
            let index = cursor.unwrap();
            assert(self.holds(self.order@[all@.len() as int] as int));
            assert(self.linked_at(all@.len() as int));
            let item = self.occupant(index);
            all.push((item.key.clone(), item.value));
            cursor = item.index_next;
        }
        all
    }

    /// What holds of every table that is in order: no key is stored twice,
    /// the chain lists one slot of the table for each entry and none twice,
    /// and there are no more entries than slots.
    pub proof fn lemma_wf(&self)
        requires
            self.wf(),
        ensures
            distinct_keys(self@),
            self.chain().len() == self@.len(),
            self.chain().no_duplicates(),
            forall|p: int| 0 <= p < self.chain().len() ==> (#[trigger] self.chain()[p]) < self.cap(),
            self@.len() <= self.cap(),
    {
        self.lemma_view_distinct();
        assert forall|p: int| 0 <= p < self.order@.len() implies (#[trigger] self.order@[p])
            < self.capacity by {
            assert(self.holds(self.order@[p] as int));
        }
        lemma_taken_count(self.order@, self.capacity);
    }
}

} // verus!
