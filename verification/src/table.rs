//! The table: a vector of cells searched by linear probing, doubled when a
//! new key meets a full array.

use vstd::prelude::*;
use vstd::arithmetic::div_mod::{lemma_mod_bound, lemma_mod_self_0, lemma_small_mod};
use vstd::arithmetic::power2::{lemma2_to64, lemma_pow2_pos, lemma_pow2_unfold, pow2};
use vstd::laws_eq::obeys_concrete_eq;
use crate::hashable::Hashable;
use crate::lemmas::{
    lemma_contents_at, lemma_contents_len, lemma_inserted, lemma_landing_at,
    lemma_occupancy_bound, lemma_overwritten, lemma_placed, lemma_regrown, lemma_rehashed,
    lemma_vacancy, lemma_vacant,
};
use crate::probe::{
    coherent, contents, dist, has_key, holds, home, inserted, is_landing, next_slot, occupancy,
    placed, regrown, rehashed, slot_of, vacant,
};

verus! {

/// The number of slots of a new table.
pub const INITIAL_CAPACITY: usize = 8;

/// A length that a slot array can have: the initial capacity, doubled any
/// number of times.
pub open spec fn is_capacity(length: nat) -> bool {
    exists|doublings: nat| length == INITIAL_CAPACITY * #[trigger] pow2(doublings)
}

/// One unit of storage. While `taken` is false the key and the value are
/// placeholders, to be overwritten.
struct HashCell<Key, Value> {
    key: Key,
    value: Value,
    taken: bool,
}

impl<Key, Value> HashCell<Key, Value> {
    /// The entry that the cell stands for.
    spec fn slot(self) -> Option<(Key, Value)> {
        if self.taken {
            Some((self.key, self.value))
        } else {
            None
        }
    }
}

/// The slot array that a vector of cells stands for.
spec fn slots_of<Key, Value>(cells: Seq<HashCell<Key, Value>>) -> Seq<Option<(Key, Value)>> {
    Seq::new(cells.len(), |i: int| cells[i].slot())
}

/// An open-addressing hash table from `Key` to `Value`.
pub struct HashBrown<Key, Value> {
    cells: Vec<HashCell<Key, Value>>,
    taken_count: usize,
}

impl<Key, Value> View for HashBrown<Key, Value> {
    type V = Map<Key, Value>;

    /// The map that the table stands for.
    open spec fn view(&self) -> Map<Key, Value> {
        contents(self.slots())
    }
}

impl<Key, Value> HashBrown<Key, Value> {
    /// The slot array, one element per cell, in storage order.
    pub closed spec fn slots(&self) -> Seq<Option<(Key, Value)>> {
        slots_of(self.cells@)
    }

    /// The number of entries that the table has counted.
    pub closed spec fn spec_taken_count(&self) -> nat {
        self.taken_count as nat
    }
}

impl<Key: Hashable, Value> HashBrown<Key, Value> {
    /// The table's invariant: the slot array has a permitted length, stands
    /// for a map in which every key can be found, and the count is the number
    /// of occupied slots.
    pub open spec fn wf(&self) -> bool {
        &&& is_capacity(self.slots().len())
        &&& coherent(self.slots())
        &&& self.spec_taken_count() == occupancy(self.slots())
    }

    /// In every state the table has at least the initial capacity, the count
    /// does not exceed the capacity, and the count is the number of keys of
    /// the map.
    pub proof fn lemma_sizes(&self)
        requires
            self.wf(),
        ensures
            self.slots().len() >= INITIAL_CAPACITY,
            self.spec_taken_count() <= self.slots().len(),
            self@.dom().finite(),
            self@.len() == self.spec_taken_count(),
    {
        let doublings = choose|doublings: nat|
            self.slots().len() == INITIAL_CAPACITY * #[trigger] pow2(doublings);
        lemma_pow2_pos(doublings);
        lemma_occupancy_bound(self.slots());
        lemma_contents_len(self.slots());
    }
}

/// A vector of `capacity` cells, none of them taken.
fn vacant_cells<Key: Default, Value: Default>(capacity: usize) -> (cells: Vec<
    HashCell<Key, Value>,
>)
    ensures
        cells@.len() == capacity,
        slots_of(cells@) == vacant::<Key, Value>(capacity as nat),
{
    let mut cells: Vec<HashCell<Key, Value>> = Vec::new();
    let mut made: usize = 0;
    while made < capacity
        invariant
            made <= capacity,
            cells@.len() == made,
            forall|i: int| 0 <= i < made ==> !(#[trigger] cells@[i]).taken,
        decreases capacity - made,
    {
        cells.push(HashCell { key: Key::default(), value: Value::default(), taken: false });
        made += 1;
    }
    assert(slots_of(cells@) =~= vacant::<Key, Value>(capacity as nat));
    cells
}

/// The slot after `index`, wrapping to the first at the end of the array.
fn step(index: usize, capacity: usize) -> (next: usize)
    requires
        index < capacity,
    ensures
        next == next_slot(index as int, capacity as int),
        next == if index + 1 < capacity {
            index + 1
        } else {
            0
        },
{
    proof {
        if index + 1 < capacity {
            lemma_small_mod((index + 1) as nat, capacity as nat);
        } else {
            lemma_mod_self_0(capacity as int);
        }
    }
    (index + 1) % capacity
}

/// Stores a new entry in the first cell, in probe order from the home of its
/// key, that is not taken.
fn place<Key: Hashable, Value>(cells: &mut Vec<HashCell<Key, Value>>, key: Key, value: Value)
    requires
        occupancy(slots_of(old(cells)@)) < old(cells)@.len(),
    ensures
        slots_of(final(cells)@) == placed(slots_of(old(cells)@), key, value),
{
    let capacity = cells.len();
    let ghost slots = slots_of(cells@);
    let ghost vacancy = lemma_vacancy(slots);
    let ghost start = home(key, capacity as int);
    proof {
        lemma_mod_bound(key.spec_hash() as int, capacity as int);
    }
    let mut index = key.hash() % capacity;
    while cells[index].taken
        invariant
            cells@ == old(cells)@,
            slots == slots_of(cells@),
            capacity == cells@.len(),
            0 <= start < capacity,
            index < capacity,
            0 <= vacancy < capacity,
            slots[vacancy] is None,
            forall|j: int|
                0 <= j < capacity && dist(start, j, capacity as int) < dist(
                    start,
                    index as int,
                    capacity as int,
                ) ==> (#[trigger] slots[j]) is Some,
        decreases dist(start, vacancy, capacity as int) - dist(
            start,
            index as int,
            capacity as int,
        ),
    {
        proof {
            assert(slots[index as int] is Some);
            assert(dist(start, index as int, capacity as int) < dist(
                start,
                vacancy,
                capacity as int,
            ));
        }
        let ghost before = index;
        index = step(index, capacity);
        proof {
            assert forall|j: int|
                0 <= j < capacity && dist(start, j, capacity as int) < dist(
                    start,
                    index as int,
                    capacity as int,
                ) implies (#[trigger] slots[j]) is Some by {
                if dist(start, j, capacity as int) == dist(start, before as int, capacity as int) {
                    assert(j == before);
                }
            }
        }
    }
    proof {
        assert(slots[index as int] is None);
        assert(is_landing(slots, start, index as int));
        lemma_landing_at(slots, start, index as int);
    }
    cells[index] = HashCell { key, value, taken: true };
    assert(slots_of(cells@) =~= placed(slots, key, value));
}

impl<Key: Default + Hashable + PartialEq, Value: Default> HashBrown<Key, Value> {
    /// An empty table of the initial capacity.
    pub fn new() -> (table: Self)
        ensures
            table.wf(),
            table.slots() == vacant::<Key, Value>(INITIAL_CAPACITY as nat),
            table.spec_taken_count() == 0,
            table@ == Map::<Key, Value>::empty(),
    {
        let table = Self { cells: vacant_cells(INITIAL_CAPACITY), taken_count: 0 };
        proof {
            lemma_vacant::<Key, Value>(INITIAL_CAPACITY as nat);
            lemma2_to64();
            assert(INITIAL_CAPACITY == INITIAL_CAPACITY * pow2(0));
        }
        table
    }

    /// The number of slots.
    pub fn capacity(&self) -> (length: usize)
        ensures
            length == self.slots().len(),
    {
        self.cells.len()
    }

    /// The number of occupied slots.
    pub fn taken_count(&self) -> (count: usize)
        ensures
            count == self.spec_taken_count(),
    {
        self.taken_count
    }

    /// The entry stored in slot `index`, if the slot is occupied.
    pub fn slot(&self, index: usize) -> (entry: Option<(&Key, &Value)>)
        requires
            index < self.slots().len(),
        ensures
            match entry {
                Some((key, value)) => self.slots()[index as int] == Some((*key, *value)),
                None => self.slots()[index as int] is None,
            },
    {
        let cell = &self.cells[index];
        if cell.taken {
            Some((&cell.key, &cell.value))
        } else {
            None
        }
    }

    /// The slot that holds `key`, if the key is present.
    ///
    /// The search starts at the home of the key and goes forward, for at most
    /// one round of the array, until it meets the key or an empty slot.
    pub fn get_index(&self, key: &Key) -> (found: Option<usize>)
        requires
            self.wf(),
            obeys_concrete_eq::<Key>(),
        ensures
            found is Some <==> self@.contains_key(*key),
            found matches Some(index) ==> holds(self.slots(), index as int, *key) && index
                == slot_of(self.slots(), *key),
    {
        let capacity = self.cells.len();
        let ghost slots = self.slots();
        let ghost start = home(*key, capacity as int);
        proof {
            reveal(obeys_concrete_eq);
            lemma_mod_bound(key.spec_hash() as int, capacity as int);
        }
        let mut index = key.hash() % capacity;
        let mut round: usize = 0;
        while round < capacity
            invariant_except_break
                round < capacity ==> dist(start, index as int, capacity as int) == round,
                round == capacity ==> index == start,
                forall|j: int|
                    0 <= j < capacity && dist(start, j, capacity as int) < round ==> !holds(
                        slots,
                        j,
                        *key,
                    ) && (#[trigger] slots[j]) is Some,
            invariant
                capacity == self.cells@.len(),
                slots == self.slots(),
                obeys_concrete_eq::<Key>(),
                self.wf(),
                0 <= start < capacity,
                start == home(*key, capacity as int),
                index < capacity,
                round <= capacity,
            ensures
                holds(slots, index as int, *key) || !has_key(slots, *key),
            decreases capacity - round,
        {
            proof {
                reveal(obeys_concrete_eq);
            }
            if self.cells[index].taken == false {
                proof {
                    if has_key(slots, *key) {
                        let at = slot_of(slots, *key);
                        assert(holds(slots, at, *key));
                        assert(slots[at] is Some && slots[index as int] is None);
                    }
                }
                break ;
            }
            if self.cells[index].key == *key {
                assert(holds(slots, index as int, *key));
                break ;
            }
            proof {
                assert(!holds(slots, index as int, *key));
                assert(slots[index as int] is Some);
            }
            let ghost before = index;
            index = step(index, capacity);
            round += 1;
            proof {
                if round < capacity {
                    assert(dist(start, index as int, capacity as int) == round);
                }
                assert forall|j: int|
                    0 <= j < capacity && dist(start, j, capacity as int) < round implies !holds(
                    slots,
                    j,
                    *key,
                ) && (#[trigger] slots[j]) is Some by {
                    if dist(start, j, capacity as int) == round - 1 {
                        assert(j == before);
                    }
                }
                if round == capacity {
                    if has_key(slots, *key) {
                        let at = slot_of(slots, *key);
                        assert(holds(slots, at, *key));
                        assert(slots[at] is Some);
                    }
                }
            }
        }
        if self.cells[index].taken && self.cells[index].key == *key {
            proof {
                assert(holds(slots, index as int, *key));
                lemma_contents_at(slots, index as int);
            }
            return Some(index);
        } else {
            proof {
                assert(!holds(slots, index as int, *key));
            }
            return None;
        }
    }

    /// The value bound to `key`, if the key is present.
    pub fn get(&self, key: &Key) -> (value: Option<&Value>)
        requires
            self.wf(),
            obeys_concrete_eq::<Key>(),
        ensures
            value == if self@.contains_key(*key) {
                Some(&self@[*key])
            } else {
                None
            },
    {
        match self.get_index(key) {
            Some(index) => {
                proof {
                    lemma_contents_at(self.slots(), index as int);
                }
                Some(&self.cells[index].value)
            },
            None => None,
        }
    }

    /// The value bound to `key`, for the caller to change in place, if the
    /// key is present.
    ///
    /// Whatever the caller writes through the reference becomes the value
    /// bound to `key`; nothing else in the table changes.
    pub fn get_mut(&mut self, key: &Key) -> (value: Option<&mut Value>)
        requires
            old(self).wf(),
            obeys_concrete_eq::<Key>(),
        ensures
            value is Some <==> old(self)@.contains_key(*key),
            match value {
                Some(bound) => {
                    &&& *bound == old(self)@[*key]
                    &&& final(self).wf()
                    &&& final(self).slots() == old(self).slots().update(
                        slot_of(old(self).slots(), *key),
                        Some((*key, *final(bound))),
                    )
                    &&& final(self)@ == old(self)@.insert(*key, *final(bound))
                    &&& final(self).spec_taken_count() == old(self).spec_taken_count()
                },
                None => *final(self) == *old(self),
            },
    {
        match self.get_index(key) {
            Some(index) => {
                proof {
                    let slots = self.slots();
                    lemma_contents_at(slots, index as int);
                    assert forall|written: Value|
                        {
                            let after = #[trigger] slots.update(
                                index as int,
                                Some((*key, written)),
                            );
                            &&& coherent(after)
                            &&& contents(after) == contents(slots).insert(*key, written)
                            &&& occupancy(after) == occupancy(slots)
                        } by {
                        lemma_overwritten(slots, *key, written);
                    }
                }
                let ghost before = self.cells@;
                let bound = &mut self.cells[index].value;
                proof {
                    let cell = HashCell {
                        key: before[index as int].key,
                        value: *final(bound),
                        taken: true,
                    };
                    let after = before.update(index as int, cell);
                    assert(slots_of(after) =~= slots_of(before).update(
                        index as int,
                        Some((*key, *final(bound))),
                    ));
                }
                Some(bound)
            },
            None => None,
        }
    }

    /// Doubles the slot array and places every entry anew, in slot order.
    ///
    /// The map and the count stay as they were; the slots that the entries
    /// occupy may change.
    pub fn extend(&mut self)
        requires
            old(self).wf(),
            2 * old(self).slots().len() <= usize::MAX,
        ensures
            final(self).wf(),
            final(self).slots() == regrown(old(self).slots()),
            final(self).slots().len() == 2 * old(self).slots().len(),
            final(self).spec_taken_count() == old(self).spec_taken_count(),
            final(self)@ == old(self)@,
    {
        let capacity = self.cells.len();
        let ghost slots = self.slots();
        assert(capacity > 0);
        let mut grown: Vec<HashCell<Key, Value>> = vacant_cells(capacity * 2);
        let mut cells: Vec<HashCell<Key, Value>> = Vec::new();
        core::mem::swap(&mut self.cells, &mut cells);
        for cell in moving: cells
            invariant
                slots.len() == capacity,
                capacity > 0,
                coherent(slots),
                moving.seq().len() == capacity,
                forall|i: int|
                    0 <= i < capacity ==> (#[trigger] moving.seq()[i]).slot() == slots[i],
                slots_of(grown@) == rehashed(slots, moving.index() as nat),
        {
            let ghost at = moving.index();
            proof {
                assert(cell.slot() == slots[at]);
                lemma_rehashed(slots, at as nat);
                lemma_occupancy_bound(slots.take(at));
            }
            if cell.taken {
                place(&mut grown, cell.key, cell.value);
            }
        }
        self.cells = grown;
        proof {
            lemma_regrown(slots);
            let doublings = choose|doublings: nat|
                slots.len() == INITIAL_CAPACITY * #[trigger] pow2(doublings);
            lemma_pow2_unfold(doublings + 1);
            assert(2 * slots.len() == INITIAL_CAPACITY * pow2(doublings + 1));
        }
    }

    /// Binds `key` to `value`.
    ///
    /// A key that is present keeps its slot and gets the new value. A new key
    /// is stored in the first empty slot in probe order from its home, after
    /// the array has been doubled if every slot was occupied.
    pub fn insert(&mut self, key: Key, value: Value)
        requires
            old(self).wf(),
            obeys_concrete_eq::<Key>(),
            old(self)@.contains_key(key) || old(self).spec_taken_count() < old(self).slots().len()
                || 2 * old(self).slots().len() <= usize::MAX,
        ensures
            final(self).wf(),
            final(self).slots() == inserted(old(self).slots(), key, value),
            final(self)@ == old(self)@.insert(key, value),
            final(self).spec_taken_count() == old(self).spec_taken_count() + if old(
                self,
            )@.contains_key(key) {
                0nat
            } else {
                1nat
            },
            final(self).slots().len() == if !old(self)@.contains_key(key) && old(
                self,
            ).spec_taken_count() >= old(self).slots().len() {
                2 * old(self).slots().len()
            } else {
                old(self).slots().len()
            },
    {
        proof {
            lemma_inserted(self.slots(), key, value);
            lemma_occupancy_bound(self.slots());
        }
        if let Some(old_val) = self.get_mut(&key) {
            *old_val = value;
        } else {
            if self.taken_count >= self.cells.len() {
                self.extend();
            }
            proof {
                lemma_occupancy_bound(self.slots());
                assert(self.taken_count < self.cells@.len());
                assert(has_key(self.slots(), key) == self@.contains_key(key));
                lemma_placed(self.slots(), key, value);
            }
            place(&mut self.cells, key, value);
            self.taken_count += 1;
        }
    }
}

} // verus!
