//! What holds of every table, stated over slot arrays and the maps they
//! stand for. The table's operations are specified by `inserted`, `regrown`
//! and `contents`, so each statement here is one about the table.

use vstd::prelude::*;
use crate::hashable::Hashable;
use vstd::arithmetic::div_mod::{lemma_mod_bound, lemma_mod_self_0, lemma_small_mod};
use crate::lemmas::{
    lemma_contents_at, lemma_contents_len, lemma_inserted, lemma_landing_at,
    lemma_occupancy_bound, lemma_overwritten, lemma_regrown, lemma_vacant,
};
use crate::probe::{
    coherent, contents, has_key, holds, home, inserted, is_landing, next_slot, occupancy,
    regrown, slot_of, vacant,
};

verus! {

/// A table without entries holds no key.
pub proof fn law_vacant_holds_nothing<K: Hashable, V>(capacity: nat, key: K)
    requires
        capacity > 0,
    ensures
        coherent(vacant::<K, V>(capacity)),
        occupancy(vacant::<K, V>(capacity)) == 0,
        !contents(vacant::<K, V>(capacity)).contains_key(key),
{
    lemma_vacant::<K, V>(capacity);
}

/// The count never exceeds the capacity, and it is the number of keys of the
/// map.
pub proof fn law_count_is_size<K: Hashable, V>(slots: Seq<Option<(K, V)>>)
    requires
        coherent(slots),
    ensures
        occupancy(slots) <= slots.len(),
        contents(slots).dom().finite(),
        contents(slots).len() == occupancy(slots),
{
    lemma_occupancy_bound(slots);
    lemma_contents_len(slots);
}

/// After a key has been bound to a value, a lookup of the key gives that
/// value.
pub proof fn law_insert_then_get<K: Hashable, V>(slots: Seq<Option<(K, V)>>, key: K, value: V)
    requires
        coherent(slots),
    ensures
        coherent(inserted(slots, key, value)),
        contents(inserted(slots, key, value)).contains_key(key),
        contents(inserted(slots, key, value))[key] == value,
{
    lemma_inserted(slots, key, value);
}

/// Binding the same key twice leaves one entry for it, with the later value:
/// the second binding does not raise the count, and the map is the one that
/// the later binding alone would have given.
pub proof fn law_second_insert_updates<K: Hashable, V>(
    slots: Seq<Option<(K, V)>>,
    key: K,
    first: V,
    second: V,
)
    requires
        coherent(slots),
    ensures
        contents(inserted(inserted(slots, key, first), key, second))[key] == second,
        contents(inserted(inserted(slots, key, first), key, second)) == contents(
            inserted(slots, key, second),
        ),
        occupancy(inserted(inserted(slots, key, first), key, second)) == occupancy(
            inserted(slots, key, first),
        ),
        inserted(inserted(slots, key, first), key, second).len() == inserted(
            slots,
            key,
            first,
        ).len(),
{
    let once = inserted(slots, key, first);
    lemma_inserted(slots, key, first);
    lemma_inserted(slots, key, second);
    lemma_inserted(once, key, second);
    assert(has_key(once, key) == contents(once).contains_key(key));
    assert(contents(slots).insert(key, first).insert(key, second) =~= contents(slots).insert(
        key,
        second,
    ));
}

/// A key that was never bound is absent: binding one key changes what a
/// lookup gives for no other key, so a key absent before is absent after.
pub proof fn law_other_keys_untouched<K: Hashable, V>(
    slots: Seq<Option<(K, V)>>,
    key: K,
    value: V,
    other: K,
)
    requires
        coherent(slots),
        other != key,
    ensures
        contents(inserted(slots, key, value)).contains_key(other) == contents(slots).contains_key(
            other,
        ),
        contents(slots).contains_key(other) ==> contents(inserted(slots, key, value))[other]
            == contents(slots)[other],
{
    lemma_inserted(slots, key, value);
}

/// A value written in place, through the slot of its key, is the value that
/// a later lookup of the key gives; no other key is affected.
pub proof fn law_write_in_place<K: Hashable, V>(slots: Seq<Option<(K, V)>>, key: K, written: V)
    requires
        coherent(slots),
        has_key(slots, key),
    ensures
        coherent(slots.update(slot_of(slots, key), Some((key, written)))),
        contents(slots.update(slot_of(slots, key), Some((key, written)))) == contents(
            slots,
        ).insert(key, written),
        contents(slots.update(slot_of(slots, key), Some((key, written))))[key] == written,
{
    lemma_overwritten(slots, key, written);
}

/// Two distinct keys that start their search at the same slot are both
/// found, each with its own value, after both have been bound.
pub proof fn law_colliding_keys_coexist<K: Hashable, V>(
    slots: Seq<Option<(K, V)>>,
    first_key: K,
    first: V,
    second_key: K,
    second: V,
)
    requires
        coherent(slots),
        first_key != second_key,
        home(first_key, slots.len() as int) == home(second_key, slots.len() as int),
    ensures
        contents(inserted(inserted(slots, first_key, first), second_key, second)).contains_key(
            first_key,
        ),
        contents(inserted(inserted(slots, first_key, first), second_key, second))[first_key]
            == first,
        contents(inserted(inserted(slots, first_key, first), second_key, second)).contains_key(
            second_key,
        ),
        contents(inserted(inserted(slots, first_key, first), second_key, second))[second_key]
            == second,
{
    lemma_inserted(slots, first_key, first);
    lemma_inserted(inserted(slots, first_key, first), second_key, second);
}

/// A new key that meets a full array doubles it, and every key bound before
/// is still bound to its value afterwards.
pub proof fn law_full_table_doubles<K: Hashable, V>(
    slots: Seq<Option<(K, V)>>,
    key: K,
    value: V,
    earlier: K,
)
    requires
        coherent(slots),
        occupancy(slots) == slots.len(),
        !contents(slots).contains_key(key),
        contents(slots).contains_key(earlier),
    ensures
        inserted(slots, key, value).len() == 2 * slots.len(),
        contents(inserted(slots, key, value)).contains_key(earlier),
        contents(inserted(slots, key, value))[earlier] == contents(slots)[earlier],
        contents(inserted(slots, key, value))[key] == value,
{
    lemma_inserted(slots, key, value);
}

/// Growth changes the slots, not the map: the same keys are bound to the
/// same values before and after, and the count is the same.
pub proof fn law_growth_keeps_contents<K: Hashable, V>(slots: Seq<Option<(K, V)>>)
    requires
        coherent(slots),
    ensures
        regrown(slots).len() == 2 * slots.len(),
        coherent(regrown(slots)),
        contents(regrown(slots)) == contents(slots),
        occupancy(regrown(slots)) == occupancy(slots),
{
    lemma_regrown(slots);
}

/// Where a key is held, its slot is the only one that holds it, and the map
/// binds the key to the value in that slot.
pub proof fn law_one_slot_per_key<K: Hashable, V>(slots: Seq<Option<(K, V)>>, index: int, key: K)
    requires
        coherent(slots),
        holds(slots, index, key),
    ensures
        slot_of(slots, key) == index,
        contents(slots).contains_key(key),
        contents(slots)[key] == slots[index].unwrap().1,
{
    lemma_contents_at(slots, index);
}

/// A new key whose home slot is empty is stored there.
pub proof fn law_free_home_is_taken<K: Hashable, V>(slots: Seq<Option<(K, V)>>, key: K, value: V)
    requires
        coherent(slots),
        !has_key(slots, key),
        slots[home(key, slots.len() as int)] is None,
    ensures
        inserted(slots, key, value) == slots.update(
            home(key, slots.len() as int),
            Some((key, value)),
        ),
{
    let capacity = slots.len() as int;
    let start = home(key, capacity);
    lemma_mod_bound(key.spec_hash() as int, capacity);
    assert(occupancy(slots) < slots.len()) by {
        lemma_occupancy_bound(slots);
        if occupancy(slots) == slots.len() {
            lemma_full(slots, start);
        }
    }
    assert(is_landing(slots, start, start));
    lemma_landing_at(slots, start, start);
}

/// A new key whose home slot is occupied, and the slot after it empty, is
/// stored in the slot after its home.
pub proof fn law_collision_takes_next<K: Hashable, V>(
    slots: Seq<Option<(K, V)>>,
    key: K,
    value: V,
)
    requires
        coherent(slots),
        !has_key(slots, key),
        slots[home(key, slots.len() as int)] is Some,
        slots[next_slot(home(key, slots.len() as int), slots.len() as int)] is None,
    ensures
        inserted(slots, key, value) == slots.update(
            next_slot(home(key, slots.len() as int), slots.len() as int),
            Some((key, value)),
        ),
{
    let capacity = slots.len() as int;
    let start = home(key, capacity);
    lemma_mod_bound(key.spec_hash() as int, capacity);
    let after = next_slot(start, capacity);
    if start + 1 < capacity {
        lemma_small_mod((start + 1) as nat, capacity as nat);
    } else {
        lemma_mod_self_0(capacity);
    }
    assert(occupancy(slots) < slots.len()) by {
        lemma_occupancy_bound(slots);
        if occupancy(slots) == slots.len() {
            lemma_full(slots, after);
        }
    }
    assert(is_landing(slots, start, after));
    lemma_landing_at(slots, start, after);
}

/// In an array with as many entries as slots, every slot is occupied.
proof fn lemma_full<K, V>(slots: Seq<Option<(K, V)>>, index: int)
    requires
        occupancy(slots) == slots.len(),
        0 <= index < slots.len(),
    ensures
        slots[index] is Some,
    decreases slots.len(),
{
    lemma_occupancy_bound(slots.drop_last());
    if index < slots.len() - 1 {
        lemma_full(slots.drop_last(), index);
    }
}

} // verus!
