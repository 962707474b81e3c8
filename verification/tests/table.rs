use hash_table::hashable::Hashable;
use hash_table::table::HashBrown;

#[derive(Default, Clone, Debug, PartialEq)]
struct TestKey(String);

impl Hashable for TestKey {
    fn hash(&self) -> usize {
        self.0.hash()
    }
}

#[derive(Default, Clone, Debug, PartialEq)]
struct CollisionKey(usize);

impl Hashable for CollisionKey {
    fn hash(&self) -> usize {
        self.0 % 8 // Force collisions in the initial 8 buckets
    }
}

#[test]
fn test_new() {
    let hb: HashBrown<TestKey, i32> = HashBrown::new();
    assert_eq!(hb.capacity(), 8);
    assert_eq!(hb.taken_count(), 0);
}

#[test]
fn test_insert_and_get() {
    let mut hb = HashBrown::new();
    hb.insert(TestKey("key1".to_string()), 42);
    hb.insert(TestKey("key2".to_string()), 24);

    assert_eq!(hb.get(&TestKey("key1".to_string())), Some(&42));
    assert_eq!(hb.get(&TestKey("key2".to_string())), Some(&24));
    assert_eq!(hb.get(&TestKey("key3".to_string())), None);
}

#[test]
fn test_update_existing_key() {
    let mut hb = HashBrown::new();
    hb.insert(TestKey("key1".to_string()), 42);
    hb.insert(TestKey("key1".to_string()), 100);

    assert_eq!(hb.get(&TestKey("key1".to_string())), Some(&100));
}

#[test]
fn test_extend() {
    let mut hb = HashBrown::new();
    for i in 0..10 {
        hb.insert(TestKey(format!("key{}", i)), i);
    }

    assert!(hb.capacity() > 8);
    for i in 0..10 {
        assert_eq!(hb.get(&TestKey(format!("key{}", i))), Some(&i));
    }
}

#[test]
fn test_get_mut() {
    let mut hb = HashBrown::new();
    hb.insert(TestKey("key1".to_string()), 42);

    if let Some(value) = hb.get_mut(&TestKey("key1".to_string())) {
        *value = 100;
    }

    assert_eq!(hb.get(&TestKey("key1".to_string())), Some(&100));
}

#[test]
fn test_collision_handling() {
    let mut hb = HashBrown::new();
    for i in 0..20 {
        hb.insert(CollisionKey(i), i as i32);
    }

    for i in 0..20 {
        assert_eq!(hb.get(&CollisionKey(i)), Some(&(i as i32)));
    }
}

#[test]
fn test_string_hash() {
    let s1 = "Hello".to_string();
    let s2 = "World".to_string();
    assert_ne!(s1.hash(), s2.hash());
}

#[test]
fn test_i32_hash() {
    let n1: i32 = 42;
    let n2: i32 = -42;
    assert_ne!(n1.hash(), n2.hash());
}
