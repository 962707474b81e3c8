//! The mathematics of linear probing, stated over a plain sequence of slots.
//!
//! A slot array is a `Seq<Option<(K, V)>>`: `None` is an empty slot, and
//! `Some((key, value))` an occupied one. Everything here is specification and
//! proof; the executable table is shown to follow it.

use vstd::prelude::*;
use crate::hashable::Hashable;

verus! {

/// The slot at which the search for `key` starts.
pub open spec fn home<K: Hashable>(key: K, capacity: int) -> int {
    key.spec_hash() as int % capacity
}

/// The number of forward steps, wrapping at the end of the array, that lead
/// from `start` to `index`.
pub open spec fn dist(start: int, index: int, capacity: int) -> int {
    if index >= start {
        index - start
    } else {
        index - start + capacity
    }
}

/// The slot that follows `index` in probe order.
pub open spec fn next_slot(index: int, capacity: int) -> int {
    (index + 1) % capacity
}

/// Slot `index` is occupied by an entry for `key`.
pub open spec fn holds<K, V>(slots: Seq<Option<(K, V)>>, index: int, key: K) -> bool {
    &&& 0 <= index < slots.len()
    &&& slots[index] is Some
    &&& slots[index].unwrap().0 == key
}

/// Some slot is occupied by an entry for `key`.
pub open spec fn has_key<K, V>(slots: Seq<Option<(K, V)>>, key: K) -> bool {
    exists|index: int| holds(slots, index, key)
}

/// A slot that holds `key`, where there is one.
pub open spec fn slot_of<K, V>(slots: Seq<Option<(K, V)>>, key: K) -> int {
    choose|index: int| holds(slots, index, key)
}

/// The map from keys to values that a slot array stands for.
pub open spec fn contents<K, V>(slots: Seq<Option<(K, V)>>) -> Map<K, V> {
    Map::new(|key: K| has_key(slots, key), |key: K| slots[slot_of(slots, key)].unwrap().1)
}

/// The number of occupied slots.
pub open spec fn occupancy<K, V>(slots: Seq<Option<(K, V)>>) -> nat
    decreases slots.len(),
{
    if slots.len() == 0 {
        0
    } else {
        occupancy(slots.drop_last()) + if slots.last() is Some {
            1nat
        } else {
            0nat
        }
    }
}

/// No key occupies two slots.
pub open spec fn distinct<K, V>(slots: Seq<Option<(K, V)>>) -> bool {
    forall|i: int, j: int|
        0 <= i < slots.len() && 0 <= j < slots.len() && i != j && (#[trigger] slots[i]) is Some && (
        #[trigger] slots[j]) is Some ==> slots[i].unwrap().0 != slots[j].unwrap().0
}

/// Every entry is reachable: in probe order from the home of its key, no
/// empty slot comes before the entry.
pub open spec fn well_placed<K: Hashable, V>(slots: Seq<Option<(K, V)>>) -> bool {
    forall|i: int, j: int|
        0 <= i < slots.len() && 0 <= j < slots.len() && (#[trigger] slots[i]) is Some && (
        #[trigger] slots[j]) is None ==> dist(
            home(slots[i].unwrap().0, slots.len() as int),
            i,
            slots.len() as int,
        ) < dist(home(slots[i].unwrap().0, slots.len() as int), j, slots.len() as int)
}

/// The slot array stands for a map and every lookup finds its key.
pub open spec fn coherent<K: Hashable, V>(slots: Seq<Option<(K, V)>>) -> bool {
    &&& slots.len() > 0
    &&& distinct(slots)
    &&& well_placed(slots)
}

/// `index` is the empty slot that comes first in probe order from `start`.
pub open spec fn is_landing<K, V>(slots: Seq<Option<(K, V)>>, start: int, index: int) -> bool {
    &&& 0 <= index < slots.len()
    &&& slots[index] is None
    &&& forall|j: int|
        0 <= j < slots.len() && (#[trigger] slots[j]) is None ==> dist(
            start,
            index,
            slots.len() as int,
        ) <= dist(start, j, slots.len() as int)
}

/// The empty slot that comes first in probe order from `start`, where the
/// array has an empty slot.
pub open spec fn landing<K, V>(slots: Seq<Option<(K, V)>>, start: int) -> int {
    choose|index: int| is_landing(slots, start, index)
}

/// The slot array after a new entry has been stored in the first empty slot
/// in probe order from the home of its key.
pub open spec fn placed<K: Hashable, V>(slots: Seq<Option<(K, V)>>, key: K, value: V) -> Seq<
    Option<(K, V)>,
> {
    slots.update(landing(slots, home(key, slots.len() as int)), Some((key, value)))
}

/// An array of `capacity` empty slots.
pub open spec fn vacant<K, V>(capacity: nat) -> Seq<Option<(K, V)>> {
    Seq::new(capacity, |i: int| None)
}

/// The array of twice the length into which the entries of the first `upto`
/// slots have been placed, in slot order.
pub open spec fn rehashed<K: Hashable, V>(slots: Seq<Option<(K, V)>>, upto: nat) -> Seq<
    Option<(K, V)>,
>
    decreases upto,
{
    if upto == 0 {
        vacant(2 * slots.len())
    } else {
        let rest = rehashed(slots, (upto - 1) as nat);
        match slots[upto - 1] {
            Some((key, value)) => placed(rest, key, value),
            None => rest,
        }
    }
}

/// The slot array after growth: twice as long, every entry placed anew.
pub open spec fn regrown<K: Hashable, V>(slots: Seq<Option<(K, V)>>) -> Seq<Option<(K, V)>> {
    rehashed(slots, slots.len())
}

/// The slot array after `key` has been bound to `value`: an entry for `key`
/// is overwritten where it stands; a new key is placed, after growth if every
/// slot is occupied.
pub open spec fn inserted<K: Hashable, V>(slots: Seq<Option<(K, V)>>, key: K, value: V) -> Seq<
    Option<(K, V)>,
> {
    if has_key(slots, key) {
        slots.update(slot_of(slots, key), Some((key, value)))
    } else if occupancy(slots) >= slots.len() {
        placed(regrown(slots), key, value)
    } else {
        placed(slots, key, value)
    }
}

} // verus!
