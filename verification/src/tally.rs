//! Counting how often each key occurs in a stream of random keys.

use vstd::prelude::*;
use crate::hashable::lemma_integer_keys;
use crate::probe::{contents, has_key, inserted, vacant};
use crate::table::{HashBrown, INITIAL_CAPACITY};

verus! {

/// A key drawn at random.
///
/// Calls `rand::random::<i32>()`, which draws from the thread-local
/// generator. Nothing is claimed of the key: every `i32` may come back, and
/// two calls may differ.
#[verifier::external_body]
fn random_key() -> (key: i32) {
    rand::random::<i32>()
}

/// The count of `key` after one more occurrence: a key seen before has its
/// count raised by one, a new key starts at one.
pub open spec fn next_count(counts: Map<i32, i32>, key: i32) -> i32 {
    if counts.contains_key(key) {
        (counts[key] + 1) as i32
    } else {
        1
    }
}

/// The counts after one more occurrence of `key`.
pub open spec fn counted(counts: Map<i32, i32>, key: i32) -> Map<i32, i32> {
    counts.insert(key, next_count(counts, key))
}

/// The counts of the keys of a sequence, taken in order.
pub open spec fn counted_all(keys: Seq<i32>) -> Map<i32, i32>
    decreases keys.len(),
{
    if keys.len() == 0 {
        Map::empty()
    } else {
        counted(counted_all(keys.drop_last()), keys.last())
    }
}

/// The slot array of a table, new at first, that has counted the keys of a
/// sequence, taken in order.
pub open spec fn counting(keys: Seq<i32>) -> Seq<Option<(i32, i32)>>
    decreases keys.len(),
{
    if keys.len() == 0 {
        vacant(INITIAL_CAPACITY as nat)
    } else {
        let before = counting(keys.drop_last());
        inserted(before, keys.last(), next_count(contents(before), keys.last()))
    }
}

/// Records one occurrence of `key`.
pub fn count_key(table: &mut HashBrown<i32, i32>, key: i32)
    requires
        old(table).wf(),
        old(table)@.contains_key(key) ==> old(table)@[key] < i32::MAX,
        old(table)@.contains_key(key) || old(table).spec_taken_count() < old(table).slots().len()
            || 2 * old(table).slots().len() <= usize::MAX,
    ensures
        final(table).wf(),
        final(table).slots() == inserted(old(table).slots(), key, next_count(old(table)@, key)),
        final(table)@ == counted(old(table)@, key),
        final(table).spec_taken_count() == old(table).spec_taken_count() + if old(
            table,
        )@.contains_key(key) {
            0nat
        } else {
            1nat
        },
        final(table).slots().len() == if !old(table)@.contains_key(key) && old(
            table,
        ).spec_taken_count() >= old(table).slots().len() {
            2 * old(table).slots().len()
        } else {
            old(table).slots().len()
        },
{
    proof {
        lemma_integer_keys();
        assert(has_key(table.slots(), key) == table@.contains_key(key));
    }
    if let Some(value) = table.get_mut(&key) {
        *value += 1;
    } else {
        table.insert(key, 1);
    }
}

/// Draws `rounds` random keys and counts the occurrences of each.
///
/// Whatever keys were drawn, the table is the one that counting them in
/// order gives: for some sequence of `rounds` keys, its slots are those of
/// `counting` and it stands for the counts of that sequence.
pub fn count_random_keys(rounds: u32) -> (table: HashBrown<i32, i32>)
    requires
        rounds <= i32::MAX,
    ensures
        table.wf(),
        exists|keys: Seq<i32>|
            keys.len() == rounds && table.slots() == #[trigger] counting(keys) && table@
                == counted_all(keys),
{
    let mut table: HashBrown<i32, i32> = HashBrown::new();
    let ghost mut keys: Seq<i32> = Seq::empty();
    let mut round: u32 = 0;
    while round < rounds
        invariant
            rounds <= i32::MAX,
            round <= rounds,
            table.wf(),
            keys.len() == round,
            table.slots() == counting(keys),
            table@ == counted_all(keys),
            table.spec_taken_count() <= round,
            table.slots().len() <= INITIAL_CAPACITY || table.slots().len() <= 2 * table.spec_taken_count(),
            forall|key: i32| #[trigger] table@.contains_key(key) ==> table@[key] <= round,
        decreases rounds - round,
    {
        let key = random_key();
        let ghost before = table@;
        count_key(&mut table, key);
        proof {
            let longer = keys.push(key);
            assert(longer.drop_last() == keys);
            assert(longer.last() == key);
            keys = longer;
            assert forall|other: i32| #[trigger] table@.contains_key(other) implies table@[other]
                <= round + 1 by {
                if other != key {
                    assert(before.contains_key(other));
                }
            }
        }
        round += 1;
    }
    table
}

} // verus!
