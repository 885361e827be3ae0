use std::collections::hash_map::DefaultHasher;
use std::hash::{Hash, Hasher};
use whiteboard::hashmap::HashMap;
use whiteboard::key::Key;

fn std_hash<T: Hash>(value: &T) -> u64 {
    let mut state = DefaultHasher::new();
    value.hash(&mut state);
    state.finish()
}

fn id(n: u8) -> [u8; 16] {
    let mut bytes = [0u8; 16];
    bytes[0] = n;
    bytes[15] = n.wrapping_mul(7);
    bytes
}

#[test]
fn new_table_is_empty() {
    let table: HashMap<u64, u32> = HashMap::new();
    assert!(table.is_empty());
    assert_eq!(table.value_count(), 0);
    assert_eq!(table.get(1), None);
    assert_eq!(table.get_ref(1), None);
    assert!(table.entries().is_empty());
}

#[test]
fn get_after_put_returns_the_value() {
    let mut table: HashMap<u64, u32> = HashMap::new();
    table.put(7, 70);
    assert_eq!(table.get(7), Some(70));
    assert_eq!(table.get_ref(7), Some(&70));
    assert_eq!(table.get(8), None);
    assert!(!table.is_empty());
}

#[test]
fn second_put_replaces_without_growing() {
    let mut table: HashMap<u64, u32> = HashMap::new();
    table.put(7, 70);
    assert_eq!(table.value_count(), 1);
    table.put(7, 71);
    assert_eq!(table.get(7), Some(71));
    assert_eq!(table.value_count(), 1);
    assert_eq!(table.entries().len(), 1);
}

#[test]
fn last_put_wins_over_many_keys() {
    let mut table: HashMap<u64, u64> = HashMap::new();
    for round in 0..3u64 {
        for key in 0..100u64 {
            table.put(key, key * 10 + round);
        }
    }
    assert_eq!(table.value_count(), 100);
    for key in 0..100u64 {
        assert_eq!(table.get(key), Some(key * 10 + 2));
    }
    assert_eq!(table.get(100), None);
}

#[test]
fn keys_that_share_a_bucket_are_kept_apart() {
    // More keys than buckets: some bucket holds two of them.
    let mut table: HashMap<u64, u64> = HashMap::new();
    for key in 0..17u64 {
        table.put(key, key + 1000);
    }
    let mut buckets = [0usize; 16];
    for key in 0..17u64 {
        buckets[(key.hash_code() % 16) as usize] += 1;
        assert_eq!(table.get(key), Some(key + 1000));
    }
    assert!(buckets.iter().any(|&n| n >= 2));
    assert_eq!(table.value_count(), 17);
}

#[test]
fn or_insert_is_taken_once() {
    let mut table: HashMap<u64, u32> = HashMap::new();
    assert!(table.or_insert(&3, 30));
    assert!(!table.or_insert(&3, 31));
    assert!(!table.or_insert(&3, 32));
    assert_eq!(table.get(3), Some(30));
    assert_eq!(table.value_count(), 1);
    assert!(table.or_insert(&4, 40));
    assert_eq!(table.get(4), Some(40));
    assert_eq!(table.value_count(), 2);
}

#[test]
fn or_insert_does_not_overwrite_a_put() {
    let mut table: HashMap<u64, u32> = HashMap::new();
    table.put(3, 30);
    assert!(!table.or_insert(&3, 99));
    assert_eq!(table.get(3), Some(30));
}

#[test]
fn update_with_replaces_the_value_of_a_key() {
    let mut table: HashMap<u64, u32> = HashMap::new();
    table.put(1, 10);
    table.put(2, 20);
    assert!(table.update_with(&1, |v| *v + 5));
    assert_eq!(table.get(1), Some(15));
    assert_eq!(table.get(2), Some(20));
    assert_eq!(table.value_count(), 2);
}

#[test]
fn update_with_reports_a_missing_key() {
    let mut table: HashMap<u64, u32> = HashMap::new();
    table.put(1, 10);
    assert!(!table.update_with(&9, |v| *v + 5));
    assert_eq!(table.get(9), None);
    assert_eq!(table.get(1), Some(10));
    assert_eq!(table.value_count(), 1);
}

#[test]
fn update_with_or_insert_seeds_the_default() {
    let mut table: HashMap<u64, u32> = HashMap::new();
    table.update_with_or_insert(&1, |v| *v + 5);
    assert_eq!(table.get(1), Some(5));
    table.update_with_or_insert(&1, |v| *v + 5);
    assert_eq!(table.get(1), Some(10));
    assert_eq!(table.value_count(), 1);
}

#[test]
fn update_inplace_hands_out_the_value() {
    let mut table: HashMap<u64, u32> = HashMap::new();
    table.put(1, 10);
    let mut seen = None;
    assert!(table.update_inplace(&1, |v| seen = Some(*v)));
    assert_eq!(seen, Some(10));
    let mut called = false;
    assert!(!table.update_inplace(&2, |_| called = true));
    assert!(!called);
    assert_eq!(table.get(1), Some(10));
}

#[test]
fn update_inplace_mut_changes_the_value() {
    let mut table: HashMap<u64, Vec<u32>> = HashMap::new();
    table.put(1, vec![1]);
    table.put(2, vec![2]);
    assert!(table.update_inplace_mut(&1, |v| v.push(11)));
    assert_eq!(table.get_ref(1), Some(&vec![1, 11]));
    assert_eq!(table.get_ref(2), Some(&vec![2]));
    assert!(!table.update_inplace_mut(&3, |v| v.push(33)));
    assert_eq!(table.get_ref(3), None);
    assert_eq!(table.value_count(), 2);
}

#[test]
fn foreach_meets_every_key_once() {
    let mut table: HashMap<u64, u64> = HashMap::new();
    for key in 0..40u64 {
        table.put(key, key * 2);
    }
    table.put(5, 500);
    let mut seen = Vec::new();
    table.foreach(|k, v| seen.push((*k, *v)));
    assert_eq!(seen.len(), 40);
    let mut sorted = seen.clone();
    sorted.sort();
    let expected: Vec<(u64, u64)> =
        (0..40u64).map(|k| (k, if k == 5 { 500 } else { k * 2 })).collect();
    assert_eq!(sorted, expected);
}

#[test]
fn foreach_goes_bucket_by_bucket_in_insertion_order() {
    let mut table: HashMap<u64, u64> = HashMap::new();
    for key in 0..64u64 {
        table.put(key, key);
    }
    let mut seen = Vec::new();
    table.foreach(|k, _| seen.push(*k));
    let buckets: Vec<u64> = seen.iter().map(|k| k.hash_code() % 16).collect();
    for pair in buckets.windows(2) {
        assert!(pair[0] <= pair[1]);
    }
    for pair in seen.windows(2) {
        if pair[0].hash_code() % 16 == pair[1].hash_code() % 16 {
            assert!(pair[0] < pair[1]);
        }
    }
}

#[test]
fn entries_are_what_foreach_meets() {
    let mut table: HashMap<u64, u64> = HashMap::new();
    for key in 0..20u64 {
        table.put(key, key + 1);
    }
    let mut seen = Vec::new();
    table.foreach(|k, v| seen.push((*k, *v)));
    let listed: Vec<(u64, u64)> = table.entries().iter().map(|(k, v)| (**k, **v)).collect();
    assert_eq!(seen, listed);
}

#[test]
fn clear_empties_the_table() {
    let mut table: HashMap<u64, u32> = HashMap::new();
    table.put(1, 10);
    table.put(2, 20);
    table.clear();
    assert!(table.is_empty());
    assert_eq!(table.value_count(), 0);
    assert_eq!(table.get(1), None);
    table.put(1, 11);
    assert_eq!(table.get(1), Some(11));
    assert_eq!(table.value_count(), 1);
}

#[test]
fn clear_of_an_empty_table_leaves_it_empty() {
    let mut table: HashMap<u64, u32> = HashMap::new();
    table.clear();
    assert!(table.is_empty());
    assert!(table.or_insert(&1, 1));
}

#[test]
fn identities_are_keys() {
    let mut table: HashMap<[u8; 16], u32> = HashMap::new();
    table.put(id(1), 1);
    table.put(id(2), 2);
    table.put(id(1), 3);
    assert_eq!(table.get(id(1)), Some(3));
    assert_eq!(table.get(id(2)), Some(2));
    assert_eq!(table.get(id(3)), None);
    assert_eq!(table.value_count(), 2);
}

#[test]
fn integer_key_hashes_as_std_does() {
    assert_eq!(1u64.hash_code(), std_hash(&1u64));
    assert_eq!(u64::MAX.hash_code(), std_hash(&u64::MAX));
    assert_ne!(1u64.hash_code(), 2u64.hash_code());
    assert_eq!(5u64.hash_code(), 5u64.hash_code());
}

#[test]
fn identity_key_hashes_as_std_does() {
    assert_eq!(id(1).hash_code(), std_hash(&id(1)));
    assert_eq!([0u8; 16].hash_code(), std_hash(&[0u8; 16]));
    assert_ne!(id(1).hash_code(), id(2).hash_code());
    assert_eq!(id(9).hash_code(), id(9).hash_code());
}

#[test]
fn keys_compare_and_copy() {
    assert!(4u64.same(&4));
    assert!(!4u64.same(&5));
    assert_eq!(4u64.duplicate(), 4);
    assert!(id(4).same(&id(4)));
    assert!(!id(4).same(&id(5)));
    let mut late = id(4);
    late[15] ^= 1;
    assert!(!id(4).same(&late));
    assert_eq!(id(4).duplicate(), id(4));
}
