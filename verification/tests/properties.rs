use hash_table::hashable::Hashable;
use hash_table::table::HashBrown;
use hash_table::tally::{count_key, count_random_keys};

#[test]
fn new_table_has_eight_empty_slots() {
    let table: HashBrown<i32, i32> = HashBrown::new();
    assert_eq!(table.capacity(), 8);
    assert_eq!(table.taken_count(), 0);
    for index in 0..8 {
        assert_eq!(table.slot(index), None);
    }
    assert_eq!(table.get(&0), None);
    assert_eq!(table.get_index(&0), None);
}

#[test]
fn insert_then_get_gives_the_value() {
    let mut table: HashBrown<i32, i32> = HashBrown::new();
    for key in [0, 5, -3, i32::MAX, i32::MIN] {
        table.insert(key, key.wrapping_mul(7));
        assert_eq!(table.get(&key), Some(&key.wrapping_mul(7)));
    }
    assert_eq!(table.taken_count(), 5);
}

#[test]
fn second_insert_updates_in_place() {
    let mut table: HashBrown<i32, String> = HashBrown::new();
    table.insert(3, "first".to_string());
    let slot = table.get_index(&3);
    assert_eq!(table.taken_count(), 1);
    table.insert(3, "second".to_string());
    assert_eq!(table.taken_count(), 1);
    assert_eq!(table.capacity(), 8);
    assert_eq!(table.get_index(&3), slot);
    assert_eq!(table.get(&3), Some(&"second".to_string()));
}

#[test]
fn absent_keys_stay_absent() {
    let mut table: HashBrown<i32, i32> = HashBrown::new();
    assert_eq!(table.get(&4), None);
    table.insert(12, 1);
    table.insert(20, 2);
    assert_eq!(table.get(&4), None);
    assert_eq!(table.get_index(&4), None);
    assert!(table.get_mut(&4).is_none());
    assert_eq!(table.taken_count(), 2);
}

#[test]
fn absent_key_in_a_full_table() {
    let mut table: HashBrown<i32, i32> = HashBrown::new();
    for key in 0..8 {
        table.insert(key, key + 100);
    }
    assert_eq!(table.capacity(), 8);
    assert_eq!(table.taken_count(), 8);
    assert_eq!(table.get(&8), None);
    assert_eq!(table.get_index(&99), None);
    for key in 0..8 {
        assert_eq!(table.get(&key), Some(&(key + 100)));
    }
}

#[test]
fn get_mut_writes_through() {
    let mut table: HashBrown<i32, i32> = HashBrown::new();
    table.insert(1, 10);
    table.insert(2, 20);
    if let Some(value) = table.get_mut(&1) {
        assert_eq!(*value, 10);
        *value += 5;
    }
    assert_eq!(table.get(&1), Some(&15));
    assert_eq!(table.get(&2), Some(&20));
    assert_eq!(table.taken_count(), 2);
}

#[test]
fn colliding_keys_probe_forward() {
    let mut table: HashBrown<i32, &str> = HashBrown::new();
    table.insert(1, "one");
    table.insert(9, "nine");
    assert_eq!(table.get(&1), Some(&"one"));
    assert_eq!(table.get(&9), Some(&"nine"));
    assert_eq!(table.get_index(&1), Some(1));
    assert_eq!(table.get_index(&9), Some(2));
    assert_eq!(table.slot(1), Some((&1, &"one")));
    assert_eq!(table.slot(2), Some((&9, &"nine")));
    assert_eq!(table.slot(3), None);
}

#[test]
fn probing_wraps_to_the_first_slot() {
    let mut table: HashBrown<i32, i32> = HashBrown::new();
    table.insert(7, 70);
    table.insert(15, 150);
    table.insert(23, 230);
    assert_eq!(table.get_index(&7), Some(7));
    assert_eq!(table.get_index(&15), Some(0));
    assert_eq!(table.get_index(&23), Some(1));
    assert_eq!(table.get(&15), Some(&150));
    assert_eq!(table.get(&23), Some(&230));
    assert_eq!(table.get(&31), None);
}

#[test]
fn ninth_key_doubles_the_table() {
    let mut table: HashBrown<i32, i32> = HashBrown::new();
    for key in 0..8 {
        table.insert(key, key * key);
    }
    assert_eq!(table.capacity(), 8);
    table.insert(8, 64);
    assert_eq!(table.capacity(), 16);
    assert_eq!(table.taken_count(), 9);
    for key in 0..9 {
        assert_eq!(table.get(&key), Some(&(key * key)));
    }
}

#[test]
fn update_of_a_full_table_does_not_grow() {
    let mut table: HashBrown<i32, i32> = HashBrown::new();
    for key in 0..8 {
        table.insert(key, 0);
    }
    table.insert(3, 33);
    assert_eq!(table.capacity(), 8);
    assert_eq!(table.taken_count(), 8);
    assert_eq!(table.get(&3), Some(&33));
}

#[test]
fn capacity_doubles_again_and_again() {
    let mut table: HashBrown<i32, i32> = HashBrown::new();
    for key in 0..100 {
        table.insert(key * 8, key);
    }
    assert_eq!(table.capacity(), 128);
    assert_eq!(table.taken_count(), 100);
    for key in 0..100 {
        assert_eq!(table.get(&(key * 8)), Some(&key));
    }
    assert_eq!(table.get(&4), None);
}

#[test]
fn extend_keeps_every_entry() {
    let mut table: HashBrown<i32, i32> = HashBrown::new();
    table.insert(1, 10);
    table.insert(9, 90);
    table.insert(17, 170);
    table.extend();
    assert_eq!(table.capacity(), 16);
    assert_eq!(table.taken_count(), 3);
    assert_eq!(table.get(&1), Some(&10));
    assert_eq!(table.get(&9), Some(&90));
    assert_eq!(table.get(&17), Some(&170));
    assert_eq!(table.get(&25), None);
}

#[test]
fn extend_places_entries_in_slot_order() {
    let mut table: HashBrown<i32, i32> = HashBrown::new();
    table.insert(17, 170);
    table.insert(1, 10);
    table.insert(9, 90);
    assert_eq!(table.get_index(&17), Some(1));
    assert_eq!(table.get_index(&1), Some(2));
    assert_eq!(table.get_index(&9), Some(3));
    table.extend();
    assert_eq!(table.get_index(&17), Some(1));
    assert_eq!(table.get_index(&1), Some(2));
    assert_eq!(table.get_index(&9), Some(9));
}

#[test]
fn string_digest_is_djb2() {
    assert_eq!("".to_string().hash(), 5381);
    assert_eq!("a".to_string().hash(), 177670);
    assert_eq!("Hello".to_string().hash(), 210676686969u64 as usize);
    assert_eq!("World".to_string().hash(), 210694841677u64 as usize);
}

#[test]
fn string_digest_wraps() {
    let long = "x".repeat(40);
    assert_eq!(long.hash(), 17569932911619400901u64 as usize);
}

#[test]
fn integer_digest_is_the_bit_pattern() {
    assert_eq!(0i32.hash(), 0);
    assert_eq!(42i32.hash(), 42);
    assert_eq!(i32::MAX.hash(), 2147483647);
    assert_eq!((-1i32).hash(), usize::MAX);
    assert_eq!((-42i32).hash(), usize::MAX - 41);
    assert_eq!(i32::MIN.hash(), usize::MAX - 2147483647);
}

#[test]
fn digests_repeat() {
    let key = "repeat".to_string();
    assert_eq!(key.hash(), key.hash());
    assert_eq!((-7i32).hash(), (-7i32).hash());
}

#[test]
fn negative_keys_are_found() {
    let mut table: HashBrown<i32, i32> = HashBrown::new();
    table.insert(-1, 1);
    table.insert(-9, 9);
    assert_eq!(table.get_index(&-1), Some(7));
    assert_eq!(table.get_index(&-9), Some(0));
    assert_eq!(table.get(&-1), Some(&1));
    assert_eq!(table.get(&-9), Some(&9));
}

#[test]
fn string_keys_are_found() {
    let mut table: HashBrown<String, usize> = HashBrown::new();
    for word in ["alpha", "beta", "gamma", "delta", "epsilon", "zeta", "eta", "theta", "iota"] {
        table.insert(word.to_string(), word.len());
    }
    assert_eq!(table.capacity(), 16);
    assert_eq!(table.get(&"gamma".to_string()), Some(&5));
    assert_eq!(table.get(&"iota".to_string()), Some(&4));
    assert_eq!(table.get(&"kappa".to_string()), None);
}

#[test]
fn count_key_starts_at_one_and_adds_one() {
    let mut table: HashBrown<i32, i32> = HashBrown::new();
    count_key(&mut table, 5);
    assert_eq!(table.get(&5), Some(&1));
    count_key(&mut table, 5);
    count_key(&mut table, 6);
    count_key(&mut table, 5);
    assert_eq!(table.get(&5), Some(&3));
    assert_eq!(table.get(&6), Some(&1));
    assert_eq!(table.taken_count(), 2);
}

#[test]
fn random_counts_add_up() {
    let table = count_random_keys(1000);
    let mut total: i64 = 0;
    let mut entries = 0;
    for index in 0..table.capacity() {
        if let Some((key, count)) = table.slot(index) {
            assert!(*count >= 1);
            assert_eq!(table.get(key), Some(count));
            total += *count as i64;
            entries += 1;
        }
    }
    assert_eq!(total, 1000);
    assert_eq!(entries, table.taken_count());
    assert!(table.taken_count() <= table.capacity());
}

#[test]
fn no_rounds_no_counts() {
    let table = count_random_keys(0);
    assert_eq!(table.capacity(), 8);
    assert_eq!(table.taken_count(), 0);
}
