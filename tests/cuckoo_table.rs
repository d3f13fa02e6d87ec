use cuckoo_hash::CuckooHashTable;
use cuckoo_hash::hashing::{hash_with_seed, slot_with_seed};
use std::collections::HashSet;

#[test]
fn test_insert_and_contains() {
    let mut table = CuckooHashTable::new();
    assert!(table.insert(1));
    assert!(table.insert(2));
    assert!(table.insert(3));
    assert!(!table.insert(3));
    assert!(table.contains(&1));
    assert!(table.contains(&2));
    assert!(table.contains(&3));
    assert!(!table.contains(&4));
}

#[test]
fn test_delete() {
    let mut table = CuckooHashTable::new();
    table.insert(1);
    table.insert(2);
    assert!(table.remove(&1));
    assert!(!table.contains(&1));
    assert!(table.contains(&2));
    assert!(!table.remove(&3));
}

/// A small deterministic generator for operation sequences.
fn next(state: &mut u64) -> u64 {
    *state = state.wrapping_mul(6364136223846793005).wrapping_add(1442695040888963407);
    *state >> 33
}

#[test]
fn new_table_is_empty() {
    let table = CuckooHashTable::new();
    assert_eq!(table.size(), 0);
    assert_eq!(table.capacity(), 16);
    assert_eq!(table.count_live_slots(), 0);
    assert_eq!(table.load_factor_percent(), 20);
    assert!(!table.contains(&0));
}

#[test]
fn remove_from_empty_table() {
    let mut table = CuckooHashTable::new();
    assert!(!table.remove(&5));
    assert_eq!(table.size(), 0);
}

#[test]
fn extreme_values() {
    let mut table = CuckooHashTable::new();
    assert!(table.insert(i64::MIN));
    assert!(table.insert(i64::MAX));
    assert!(table.insert(0));
    assert!(table.insert(-1));
    assert!(!table.insert(i64::MIN));
    assert!(table.contains(&i64::MIN));
    assert!(table.contains(&i64::MAX));
    assert!(table.contains(&-1));
    assert!(!table.contains(&1));
    assert_eq!(table.size(), 4);
}

#[test]
fn inserted_values_stay_until_removed() {
    let mut table = CuckooHashTable::new();
    let xs: Vec<i64> = (0..500).map(|i| i * 7919 - 1000).collect();
    for &x in &xs {
        assert!(table.insert(x));
    }
    for &x in &xs {
        assert!(table.contains(&x));
    }
    for &x in xs.iter().step_by(2) {
        assert!(table.remove(&x));
    }
    for (i, x) in xs.iter().enumerate() {
        assert_eq!(table.contains(x), i % 2 == 1);
    }
}

#[test]
fn duplicate_insert_changes_nothing() {
    let mut table = CuckooHashTable::new();
    for x in 0..40 {
        table.insert(x);
    }
    let size = table.size();
    let capacity = table.capacity();
    assert!(!table.insert(17));
    assert_eq!(table.size(), size);
    assert_eq!(table.capacity(), capacity);
    for x in 0..40 {
        assert!(table.contains(&x));
    }
}

#[test]
fn remove_then_contains_is_false() {
    let mut table = CuckooHashTable::new();
    table.insert(10);
    assert!(table.remove(&10));
    assert!(!table.contains(&10));
    assert!(!table.remove(&10));
    assert!(table.insert(10));
    assert!(table.contains(&10));
}

#[test]
fn matches_reference_set() {
    let mut table = CuckooHashTable::new();
    let mut set: HashSet<i64> = HashSet::new();
    let mut state: u64 = 42;
    for _ in 0..5000 {
        let op = next(&mut state) % 3;
        let x = (next(&mut state) % 300) as i64 - 150;
        match op {
            0 => assert_eq!(table.insert(x), set.insert(x)),
            1 => assert_eq!(table.remove(&x), set.remove(&x)),
            _ => assert_eq!(table.contains(&x), set.contains(&x)),
        }
        assert_eq!(table.size(), set.len());
    }
    for x in -160..160 {
        assert_eq!(table.contains(&x), set.contains(&x));
    }
}

#[test]
fn capacity_never_shrinks() {
    let mut table = CuckooHashTable::new();
    let mut last = table.capacity();
    for x in 0..2000 {
        table.insert(x);
        let c = table.capacity();
        assert!(c >= last);
        assert!(c.is_power_of_two() && c >= 16);
        last = c;
    }
    assert!(last > 16);
    for x in 0..2000 {
        table.remove(&x);
        assert_eq!(table.capacity(), last);
    }
    assert_eq!(table.size(), 0);
}

#[test]
fn size_counts_live_slots() {
    let mut table = CuckooHashTable::new();
    for x in 0..300 {
        table.insert(x * 3);
    }
    assert_eq!(table.size(), 300);
    assert_eq!(table.count_live_slots(), 300);
    for x in 0..100 {
        assert!(table.remove(&(x * 3)));
    }
    assert_eq!(table.size(), 200);
    assert_eq!(table.count_live_slots(), 200);
}

#[test]
fn colliding_values_force_a_resize() {
    let mut table = CuckooHashTable::new();
    let home = table.candidate_slots(&0);
    let mut colliding: Vec<i64> = vec![0];
    let mut x: i64 = 1;
    while colliding.len() < 17 {
        if table.candidate_slots(&x) == home {
            colliding.push(x);
        }
        x += 1;
    }
    for &v in &colliding {
        assert!(table.insert(v));
    }
    assert!(table.capacity() >= 32);
    assert_eq!(table.load_factor_percent(), 20);
    for &v in &colliding {
        assert!(table.contains(&v));
    }
    assert_eq!(table.size(), 17);
    assert_eq!(table.count_live_slots(), 17);
}

#[test]
fn candidate_slots_are_stable_and_in_range() {
    let table = CuckooHashTable::new();
    for x in -50..50 {
        let (a, b) = table.candidate_slots(&x);
        assert!(a < 16 && b < 16);
        assert_eq!(table.candidate_slots(&x), (a, b));
    }
}

#[test]
fn placement_is_spread_by_hashing() {
    let table = CuckooHashTable::new();
    let slots: HashSet<usize> = (0..200).map(|x| table.candidate_slots(&x).0).collect();
    assert!(slots.len() > 8);
}

#[test]
fn seeded_hash_is_deterministic_and_seed_dependent() {
    assert_eq!(hash_with_seed(7, 3), hash_with_seed(7, 3));
    assert_ne!(hash_with_seed(7, 3), hash_with_seed(8, 3));
    assert_ne!(hash_with_seed(7, 3), hash_with_seed(7, 4));
    for x in 0..100 {
        let s = slot_with_seed(99, x, 32);
        assert!(s < 32);
        assert_eq!(s as u64, hash_with_seed(99, x) % 32);
    }
}
