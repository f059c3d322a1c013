//! The arithmetic of a linear probe that wraps at the end of the table.

use vstd::arithmetic::div_mod::lemma_small_mod;
use vstd::prelude::*;
use vstd::seq_lib::seq_to_set_is_finite;
use vstd::set_lib::lemma_int_range;
use vstd::set_lib::lemma_len_subset;
use vstd::set_lib::set_int_range;

verus! {

/// The slot a probe is at once it has taken `steps` steps from `start`, in a
/// table of `cap` slots: `(start + steps) mod cap`, for `start` below `cap` and
/// at most `cap` steps.
pub open spec fn slot_after(start: int, steps: int, cap: int) -> int {
    if start + steps < cap {
        start + steps
    } else {
        start + steps - cap
    }
}

/// The number of steps that take a probe from `start` to `slot`.
pub open spec fn steps_to(start: int, slot: int, cap: int) -> int {
    if slot >= start {
        slot - start
    } else {
        slot - start + cap
    }
}

/// Whether a probe from `start` comes to rest at `slot`: `slot` is the first
/// slot on its way that is not among `taken`.
pub open spec fn lands_at(taken: Seq<usize>, cap: int, start: int, slot: int) -> bool {
    &&& 0 <= slot < cap
    &&& !taken.contains(slot as usize)
    &&& forall|steps: int|
        0 <= steps < steps_to(start, slot, cap) ==> taken.contains(
            #[trigger] slot_after(start, steps, cap) as usize,
        )
}

/// The probe wraps as the remainder does: its slot after some steps is the
/// sum of start and steps, modulo the number of slots.
pub proof fn lemma_slot_after_is_modular(start: int, steps: int, cap: int)
    requires
        0 <= start < cap,
        0 <= steps <= cap,
    ensures
        slot_after(start, steps, cap) == (start + steps) % cap,
{
    let sum = start + steps;
    if sum < cap {
        lemma_small_mod(sum as nat, cap as nat);
    } else {
        assert(sum % cap == sum - cap) by (nonlinear_arith)
            requires
                cap <= sum < 2 * cap,
        ;
    }
}

/// A probe that goes on for as many steps as there are slots meets every
/// slot: counting the steps to a slot and taking them leads to it.
pub proof fn lemma_probe_meets_every_slot(start: int, cap: int, slot: int)
    requires
        0 <= start < cap,
        0 <= slot < cap,
    ensures
        0 <= steps_to(start, slot, cap) < cap,
        slot_after(start, steps_to(start, slot, cap), cap) == slot,
{
}

/// A probe meets no slot twice before it has seen them all: the slot after
/// some steps is that many steps away.
pub proof fn lemma_probe_meets_no_slot_twice(start: int, cap: int, steps: int)
    requires
        0 <= start < cap,
        0 <= steps < cap,
    ensures
        0 <= slot_after(start, steps, cap) < cap,
        steps_to(start, slot_after(start, steps, cap), cap) == steps,
{
}

/// The place at which a probe lands is determined by where it starts and by
/// which slots are taken.
pub proof fn lemma_landing_is_unique(taken: Seq<usize>, cap: int, start: int, a: int, b: int)
    requires
        0 <= start < cap,
        lands_at(taken, cap, start, a),
        lands_at(taken, cap, start, b),
    ensures
        a == b,
{
    let da = steps_to(start, a, cap);
    let db = steps_to(start, b, cap);
    if da < db {
        assert(taken.contains(slot_after(start, da, cap) as usize));
    } else if db < da {
        assert(taken.contains(slot_after(start, db, cap) as usize));
    }
}

/// Slots that are each taken once are no more than there are slots; they are
/// fewer while one is free, and as many once none is.
pub proof fn lemma_taken_count(taken: Seq<usize>, cap: usize)
    requires
        taken.no_duplicates(),
        forall|p: int| 0 <= p < taken.len() ==> (#[trigger] taken[p]) < cap,
    ensures
        taken.len() <= cap,
        (exists|slot: usize| slot < cap && !taken.contains(slot)) ==> taken.len() < cap,
        (forall|slot: usize| slot < cap ==> taken.contains(slot)) ==> taken.len() == cap,
{
    let ints = taken.map_values(|slot: usize| slot as int);
    assert(ints.len() == taken.len());
    assert(ints.no_duplicates()) by {
        assert forall|p: int, q: int| 0 <= p < ints.len() && 0 <= q < ints.len() && p != q implies ints[p]
            != ints[q] by {
            assert(taken[p] != taken[q]);
        }
    }
    ints.unique_seq_to_set();
    seq_to_set_is_finite(ints);
    let all = set_int_range(0, cap as int);
    lemma_int_range(0, cap as int);
    assert forall|x: int| ints.to_set().contains(x) implies all.contains(x) && taken.contains(
        x as usize,
    ) by {
        let p = choose|p: int| 0 <= p < ints.len() && ints[p] == x;
        assert(taken[p] < cap);
        assert(taken[p] == x);
    }
    assert(ints.to_set().subset_of(all));
    lemma_len_subset(ints.to_set(), all);
    if exists|slot: usize| slot < cap && !taken.contains(slot) {
        let slot = choose|slot: usize| slot < cap && !taken.contains(slot);
        assert(ints.to_set().subset_of(all.remove(slot as int)));
        lemma_len_subset(ints.to_set(), all.remove(slot as int));
    }
    if forall|slot: usize| slot < cap ==> taken.contains(slot) {
        assert forall|x: int| all.contains(x) implies ints.to_set().contains(x) by {
            assert(taken.contains(x as usize));
            let p = choose|p: int| 0 <= p < taken.len() && taken[p] == x as usize;
            assert(ints[p] == x);
        }
        assert(all.subset_of(ints.to_set()));
        lemma_len_subset(all, ints.to_set());
    }
}

/// One step of the probe, as the table takes it.
pub fn next_slot(index: usize, capacity: usize) -> (next: usize)
    requires
        index < capacity,
    ensures
        next == slot_after(index as int, 1, capacity as int),
        next < capacity,
{
    proof {
        lemma_slot_after_is_modular(index as int, 1, capacity as int);
    }
    (index + 1) % capacity
}

} // verus!
