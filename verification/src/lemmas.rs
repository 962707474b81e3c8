//! Facts about slot arrays: counting, lookup, placement and growth.

use vstd::prelude::*;
use vstd::arithmetic::div_mod::lemma_mod_bound;
use crate::hashable::Hashable;
use crate::probe::{
    coherent, contents, dist, distinct, has_key, holds, home, inserted, is_landing, landing,
    occupancy, placed, regrown, rehashed, slot_of, vacant,
};

verus! {

/// An array cannot hold more entries than it has slots.
pub proof fn lemma_occupancy_bound<K, V>(slots: Seq<Option<(K, V)>>)
    ensures
        occupancy(slots) <= slots.len(),
    decreases slots.len(),
{
    if slots.len() > 0 {
        lemma_occupancy_bound(slots.drop_last());
    }
}

/// An array with fewer entries than slots has an empty slot.
pub proof fn lemma_vacancy<K, V>(slots: Seq<Option<(K, V)>>) -> (index: int)
    requires
        occupancy(slots) < slots.len(),
    ensures
        0 <= index < slots.len(),
        slots[index] is None,
    decreases slots.len(),
{
    if slots.last() is None {
        slots.len() - 1
    } else {
        lemma_vacancy(slots.drop_last())
    }
}

/// An array of empty slots holds no entry.
pub proof fn lemma_occupancy_vacant<K, V>(capacity: nat)
    ensures
        occupancy(vacant::<K, V>(capacity)) == 0,
    decreases capacity,
{
    if capacity > 0 {
        assert(vacant::<K, V>(capacity).drop_last() == vacant::<K, V>((capacity - 1) as nat));
        lemma_occupancy_vacant::<K, V>((capacity - 1) as nat);
    }
}

/// Writing an entry into a slot raises the count by one if the slot was
/// empty and leaves it unchanged otherwise.
pub proof fn lemma_occupancy_update<K, V>(slots: Seq<Option<(K, V)>>, index: int, entry: (K, V))
    requires
        0 <= index < slots.len(),
    ensures
        occupancy(slots.update(index, Some(entry))) == occupancy(slots) + if slots[index] is None {
            1nat
        } else {
            0nat
        },
    decreases slots.len(),
{
    let after = slots.update(index, Some(entry));
    if index == slots.len() - 1 {
        assert(after.drop_last() == slots.drop_last());
    } else {
        assert(after.drop_last() == slots.drop_last().update(index, Some(entry)));
        lemma_occupancy_update(slots.drop_last(), index, entry);
    }
}

/// With distinct keys, an occupied slot decides what the map holds for its key.
pub proof fn lemma_contents_at<K, V>(slots: Seq<Option<(K, V)>>, index: int)
    requires
        distinct(slots),
        0 <= index < slots.len(),
        slots[index] is Some,
    ensures
        contents(slots).contains_key(slots[index].unwrap().0),
        contents(slots)[slots[index].unwrap().0] == slots[index].unwrap().1,
        slot_of(slots, slots[index].unwrap().0) == index,
{
    let key = slots[index].unwrap().0;
    assert(holds(slots, index, key));
    let found = slot_of(slots, key);
    assert(holds(slots, found, key));
    assert(found == index);
}

/// Dropping the last slot drops at most its own key from the map.
pub proof fn lemma_contents_last<K, V>(slots: Seq<Option<(K, V)>>)
    requires
        slots.len() > 0,
        distinct(slots),
    ensures
        distinct(slots.drop_last()),
        match slots.last() {
            Some((key, value)) => {
                &&& !has_key(slots.drop_last(), key)
                &&& contents(slots) == contents(slots.drop_last()).insert(key, value)
            },
            None => contents(slots) == contents(slots.drop_last()),
        },
{
    let rest = slots.drop_last();
    let last = slots.len() - 1;
    assert(distinct(rest)) by {
        assert forall|i: int, j: int|
            0 <= i < rest.len() && 0 <= j < rest.len() && i != j && (#[trigger] rest[i]) is Some
                && (#[trigger] rest[j]) is Some implies rest[i].unwrap().0
            != rest[j].unwrap().0 by {
            assert(slots[i] is Some && slots[j] is Some);
        }
    }
    let expected = match slots.last() {
        Some((key, value)) => contents(rest).insert(key, value),
        None => contents(rest),
    };
    if slots.last() is Some {
        let key = slots.last().unwrap().0;
        if has_key(rest, key) {
            let index = slot_of(rest, key);
            assert(holds(rest, index, key));
            assert(slots[index] is Some && slots[last] is Some);
            assert(false);
        }
    }
    assert forall|key: K| contents(slots).contains_key(key) <==> expected.contains_key(key) by {
        if has_key(slots, key) {
            let index = slot_of(slots, key);
            assert(holds(slots, index, key));
            if index < last {
                assert(holds(rest, index, key));
            }
        }
        if has_key(rest, key) {
            let index = slot_of(rest, key);
            assert(holds(rest, index, key));
            assert(holds(slots, index, key));
        }
        if slots.last() is Some && slots.last().unwrap().0 == key {
            assert(holds(slots, last, key));
        }
    }
    assert forall|key: K| contents(slots).contains_key(key) implies contents(slots)[key]
        == expected[key] by {
        let index = slot_of(slots, key);
        assert(holds(slots, index, key));
        lemma_contents_at(slots, index);
        if index < last {
            assert(holds(rest, index, key));
            lemma_contents_at(rest, index);
        }
    }
    assert(contents(slots) =~= expected);
}

/// With distinct keys, the map has as many keys as the array has entries.
pub proof fn lemma_contents_len<K, V>(slots: Seq<Option<(K, V)>>)
    requires
        distinct(slots),
    ensures
        contents(slots).dom().finite(),
        contents(slots).len() == occupancy(slots),
    decreases slots.len(),
{
    if slots.len() == 0 {
        assert forall|key: K| !has_key(slots, key) by {
            if has_key(slots, key) {
                assert(holds(slots, slot_of(slots, key), key));
            }
        }
        assert(contents(slots).dom() =~= Set::empty());
    } else {
        lemma_contents_last(slots);
        lemma_contents_len(slots.drop_last());
    }
}

/// An array of empty slots is coherent and stands for the empty map.
pub proof fn lemma_vacant<K: Hashable, V>(capacity: nat)
    requires
        capacity > 0,
    ensures
        coherent(vacant::<K, V>(capacity)),
        contents(vacant::<K, V>(capacity)) == Map::<K, V>::empty(),
        occupancy(vacant::<K, V>(capacity)) == 0,
{
    let slots = vacant::<K, V>(capacity);
    lemma_occupancy_vacant::<K, V>(capacity);
    assert forall|key: K| !has_key(slots, key) by {
        if has_key(slots, key) {
            assert(holds(slots, slot_of(slots, key), key));
        }
    }
    assert(contents(slots) =~= Map::<K, V>::empty());
}

/// At most one slot is the first empty one in probe order.
pub proof fn lemma_landing_unique<K, V>(
    slots: Seq<Option<(K, V)>>,
    start: int,
    first: int,
    second: int,
)
    requires
        0 <= start < slots.len(),
        is_landing(slots, start, first),
        is_landing(slots, start, second),
    ensures
        first == second,
{
    assert(slots[first] is None && slots[second] is None);
}

/// A slot that is the first empty one in probe order is the one that
/// `landing` names.
pub proof fn lemma_landing_at<K, V>(slots: Seq<Option<(K, V)>>, start: int, index: int)
    requires
        0 <= start < slots.len(),
        is_landing(slots, start, index),
    ensures
        landing(slots, start) == index,
{
    lemma_landing_unique(slots, start, index, landing(slots, start));
}

/// Where every slot nearer than `reach` steps from `start` is occupied and
/// some slot is empty, there is a first empty slot in probe order.
proof fn lemma_landing_from<K, V>(
    slots: Seq<Option<(K, V)>>,
    start: int,
    reach: int,
    vacancy: int,
) -> (index: int)
    requires
        0 <= start < slots.len(),
        0 <= vacancy < slots.len(),
        slots[vacancy] is None,
        0 <= reach,
        forall|j: int|
            0 <= j < slots.len() && dist(start, j, slots.len() as int) < reach ==> (
            #[trigger] slots[j]) is Some,
    ensures
        is_landing(slots, start, index),
    decreases slots.len() - reach,
{
    let capacity = slots.len() as int;
    assert(reach <= dist(start, vacancy, capacity));
    let candidate = if start + reach < capacity {
        start + reach
    } else {
        start + reach - capacity
    };
    assert(dist(start, candidate, capacity) == reach);
    if slots[candidate] is None {
        candidate
    } else {
        assert forall|j: int|
            0 <= j < slots.len() && dist(start, j, capacity) < reach + 1 implies (
        #[trigger] slots[j]) is Some by {
            if dist(start, j, capacity) == reach {
                assert(j == candidate);
            }
        }
        lemma_landing_from(slots, start, reach + 1, vacancy)
    }
}

/// An array with an empty slot has a first empty slot in probe order from
/// any start, and `landing` names it.
pub proof fn lemma_landing<K, V>(slots: Seq<Option<(K, V)>>, start: int)
    requires
        0 <= start < slots.len(),
        occupancy(slots) < slots.len(),
    ensures
        is_landing(slots, start, landing(slots, start)),
{
    let vacancy = lemma_vacancy(slots);
    let index = lemma_landing_from(slots, start, 0, vacancy);
}

/// Storing a new entry in an empty slot adds its key to the map, whichever
/// empty slot it is.
pub proof fn lemma_contents_fill<K, V>(slots: Seq<Option<(K, V)>>, index: int, key: K, value: V)
    requires
        distinct(slots),
        0 <= index < slots.len(),
        slots[index] is None,
        !has_key(slots, key),
    ensures
        distinct(slots.update(index, Some((key, value)))),
        contents(slots.update(index, Some((key, value)))) == contents(slots).insert(key, value),
{
    let after = slots.update(index, Some((key, value)));
    assert forall|i: int, j: int|
        0 <= i < after.len() && 0 <= j < after.len() && i != j && (#[trigger] after[i]) is Some && (
        #[trigger] after[j]) is Some implies after[i].unwrap().0 != after[j].unwrap().0 by {
        if i != index && j != index {
            assert(slots[i] is Some && slots[j] is Some);
        } else if i == index {
            assert(!holds(slots, j, key));
        } else {
            assert(!holds(slots, i, key));
        }
    }
    let expected = contents(slots).insert(key, value);
    assert forall|other: K| contents(after).contains_key(other) <==> expected.contains_key(
        other,
    ) by {
        if has_key(after, other) {
            let found = slot_of(after, other);
            assert(holds(after, found, other));
            if found != index {
                assert(holds(slots, found, other));
            }
        }
        if has_key(slots, other) {
            let found = slot_of(slots, other);
            assert(holds(slots, found, other));
            assert(holds(after, found, other));
        }
        if other == key {
            assert(holds(after, index, other));
        }
    }
    assert forall|other: K| contents(after).contains_key(other) implies contents(after)[other]
        == expected[other] by {
        let found = slot_of(after, other);
        assert(holds(after, found, other));
        lemma_contents_at(after, found);
        if found != index {
            assert(holds(slots, found, other));
            lemma_contents_at(slots, found);
        }
    }
    assert(contents(after) =~= expected);
}

/// Placing a new key keeps the array coherent and binds the key in the map.
pub proof fn lemma_placed<K: Hashable, V>(slots: Seq<Option<(K, V)>>, key: K, value: V)
    requires
        coherent(slots),
        !has_key(slots, key),
        occupancy(slots) < slots.len(),
    ensures
        is_landing(
            slots,
            home(key, slots.len() as int),
            landing(slots, home(key, slots.len() as int)),
        ),
        placed(slots, key, value).len() == slots.len(),
        coherent(placed(slots, key, value)),
        contents(placed(slots, key, value)) == contents(slots).insert(key, value),
        occupancy(placed(slots, key, value)) == occupancy(slots) + 1,
{
    let capacity = slots.len() as int;
    let start = home(key, capacity);
    lemma_mod_bound(key.spec_hash() as int, capacity);
    lemma_landing(slots, start);
    let index = landing(slots, start);
    let after = placed(slots, key, value);
    lemma_contents_fill(slots, index, key, value);
    lemma_occupancy_update(slots, index, (key, value));
    assert forall|i: int, j: int|
        0 <= i < after.len() && 0 <= j < after.len() && (#[trigger] after[i]) is Some && (
        #[trigger] after[j]) is None implies dist(home(after[i].unwrap().0, capacity), i, capacity)
        < dist(home(after[i].unwrap().0, capacity), j, capacity) by {
        assert(slots[j] is None);
        if i != index {
            assert(slots[i] is Some);
        }
    }
}

/// Overwriting the value of a key that is present keeps the array coherent
/// and rebinds the key in the map.
pub proof fn lemma_overwritten<K: Hashable, V>(slots: Seq<Option<(K, V)>>, key: K, value: V)
    requires
        coherent(slots),
        has_key(slots, key),
    ensures
        holds(slots, slot_of(slots, key), key),
        coherent(slots.update(slot_of(slots, key), Some((key, value)))),
        contents(slots.update(slot_of(slots, key), Some((key, value)))) == contents(slots).insert(
            key,
            value,
        ),
        occupancy(slots.update(slot_of(slots, key), Some((key, value)))) == occupancy(slots),
{
    let capacity = slots.len() as int;
    let index = slot_of(slots, key);
    let after = slots.update(index, Some((key, value)));
    lemma_occupancy_update(slots, index, (key, value));
    assert forall|i: int, j: int|
        0 <= i < after.len() && 0 <= j < after.len() && i != j && (#[trigger] after[i]) is Some && (
        #[trigger] after[j]) is Some implies after[i].unwrap().0 != after[j].unwrap().0 by {
        assert(slots[i] is Some && slots[j] is Some);
    }
    assert forall|i: int, j: int|
        0 <= i < after.len() && 0 <= j < after.len() && (#[trigger] after[i]) is Some && (
        #[trigger] after[j]) is None implies dist(home(after[i].unwrap().0, capacity), i, capacity)
        < dist(home(after[i].unwrap().0, capacity), j, capacity) by {
        assert(slots[i] is Some && slots[j] is None);
    }
    let expected = contents(slots).insert(key, value);
    assert forall|other: K| contents(after).contains_key(other) <==> expected.contains_key(
        other,
    ) by {
        if has_key(after, other) {
            let found = slot_of(after, other);
            assert(holds(after, found, other));
            assert(holds(slots, found, other));
        }
        if has_key(slots, other) {
            let found = slot_of(slots, other);
            assert(holds(slots, found, other));
            assert(holds(after, found, other));
        }
    }
    assert forall|other: K| contents(after).contains_key(other) implies contents(after)[other]
        == expected[other] by {
        let found = slot_of(after, other);
        assert(holds(after, found, other));
        lemma_contents_at(after, found);
        assert(holds(slots, found, other));
        lemma_contents_at(slots, found);
    }
    assert(contents(after) =~= expected);
}

/// Rehashing a prefix of an array with distinct keys gives a coherent array
/// of twice the length that stands for the same map as the prefix.
pub proof fn lemma_rehashed<K: Hashable, V>(slots: Seq<Option<(K, V)>>, upto: nat)
    requires
        slots.len() > 0,
        distinct(slots),
        upto <= slots.len(),
    ensures
        rehashed(slots, upto).len() == 2 * slots.len(),
        coherent(rehashed(slots, upto)),
        contents(rehashed(slots, upto)) == contents(slots.take(upto as int)),
        occupancy(rehashed(slots, upto)) == occupancy(slots.take(upto as int)),
    decreases upto,
{
    if upto == 0 {
        lemma_vacant::<K, V>(2 * slots.len());
        assert(slots.take(0) == vacant::<K, V>(0));
        lemma_occupancy_vacant::<K, V>(0);
        assert forall|key: K| !has_key(slots.take(0), key) by {
            if has_key(slots.take(0), key) {
                assert(holds(slots.take(0), slot_of(slots.take(0), key), key));
            }
        }
        assert(contents(slots.take(0)) =~= Map::<K, V>::empty());
    } else {
        let before = (upto - 1) as nat;
        let rest = rehashed(slots, before);
        let prefix = slots.take(upto as int);
        lemma_rehashed(slots, before);
        assert(prefix.drop_last() == slots.take(before as int));
        assert(distinct(prefix)) by {
            assert forall|i: int, j: int|
                0 <= i < prefix.len() && 0 <= j < prefix.len() && i != j && (
                #[trigger] prefix[i]) is Some && (#[trigger] prefix[j]) is Some implies prefix[i]
                    .unwrap().0 != prefix[j].unwrap().0 by {
                assert(slots[i] is Some && slots[j] is Some);
            }
        }
        lemma_contents_last(prefix);
        lemma_occupancy_bound(slots.take(before as int));
        match slots[upto - 1] {
            Some((key, value)) => {
                assert(prefix.last() == Some((key, value)));
                assert(!has_key(rest, key)) by {
                    assert(contents(rest).contains_key(key) == has_key(rest, key));
                    assert(contents(prefix.drop_last()).contains_key(key) == has_key(
                        prefix.drop_last(),
                        key,
                    ));
                }
                lemma_placed(rest, key, value);
            },
            None => {},
        }
    }
}

/// Growth keeps the map: the regrown array is coherent, twice as long, and
/// stands for the same map with the same number of entries.
pub proof fn lemma_regrown<K: Hashable, V>(slots: Seq<Option<(K, V)>>)
    requires
        slots.len() > 0,
        distinct(slots),
    ensures
        regrown(slots).len() == 2 * slots.len(),
        coherent(regrown(slots)),
        contents(regrown(slots)) == contents(slots),
        occupancy(regrown(slots)) == occupancy(slots),
{
    lemma_rehashed(slots, slots.len());
    assert(slots.take(slots.len() as int) == slots);
}

/// Binding a key keeps the array coherent and changes the map as `Map::insert`
/// does; the array doubles exactly when a new key meets a full array.
pub proof fn lemma_inserted<K: Hashable, V>(slots: Seq<Option<(K, V)>>, key: K, value: V)
    requires
        coherent(slots),
    ensures
        coherent(inserted(slots, key, value)),
        contents(inserted(slots, key, value)) == contents(slots).insert(key, value),
        occupancy(inserted(slots, key, value)) == occupancy(slots) + if has_key(slots, key) {
            0nat
        } else {
            1nat
        },
        inserted(slots, key, value).len() == if !has_key(slots, key) && occupancy(slots)
            >= slots.len() {
            2 * slots.len()
        } else {
            slots.len()
        },
{
    lemma_occupancy_bound(slots);
    if has_key(slots, key) {
        lemma_overwritten(slots, key, value);
    } else if occupancy(slots) >= slots.len() {
        lemma_regrown(slots);
        assert(has_key(regrown(slots), key) == contents(regrown(slots)).contains_key(key));
        assert(has_key(slots, key) == contents(slots).contains_key(key));
        lemma_placed(regrown(slots), key, value);
    } else {
        lemma_placed(slots, key, value);
    }
}

} // verus!
