use std::collections::HashMap;
use vmsim::evictors::{evict, select_victim, Memory, PageTable, PageTableEntry, Policy};

fn entry(dirty: bool, created: u64, last: u64) -> PageTableEntry {
    PageTableEntry { is_dirty: dirty, created_at: created, last_referenced: last }
}

fn full_memory() -> (Memory, PageTable) {
    let memory: Memory = vec![Some(7), Some(3), Some(9)];
    let mut table: PageTable = HashMap::new();
    table.insert(7, entry(false, 1, 8));
    table.insert(3, entry(true, 2, 5));
    table.insert(9, entry(false, 3, 4));
    (memory, table)
}

#[test]
fn new_entry_is_clean_and_stamped() {
    let e = PageTableEntry::new(42);
    assert_eq!(e, entry(false, 42, 42));
}

#[test]
fn reference_updates_only_last_referenced() {
    let mut e = entry(true, 3, 4);
    e.reference(10);
    assert_eq!(e, entry(true, 3, 10));
}

#[test]
fn policy_names() {
    assert_eq!(Policy::from_name(&"random".to_string()), Some(Policy::Random));
    assert_eq!(Policy::from_name(&"lru".to_string()), Some(Policy::LeastRecentlyUsed));
    assert_eq!(Policy::from_name(&"fifo".to_string()), Some(Policy::FirstInFirstOut));
    assert_eq!(Policy::from_name(&"LRU".to_string()), None);
    assert_eq!(Policy::from_name(&"".to_string()), None);
}

#[test]
fn first_empty_slot_wins_for_every_policy() {
    let memory: Memory = vec![Some(1), None, Some(2), None];
    let mut table: PageTable = HashMap::new();
    table.insert(1, entry(false, 1, 1));
    table.insert(2, entry(false, 2, 2));
    for p in [Policy::Random, Policy::LeastRecentlyUsed, Policy::FirstInFirstOut] {
        assert_eq!(evict(p, &memory, &table), 1);
        assert_eq!(select_victim(p, &memory, &table, 3), 1);
    }
}

#[test]
fn lru_picks_oldest_reference() {
    let (memory, table) = full_memory();
    assert_eq!(evict(Policy::LeastRecentlyUsed, &memory, &table), 2);
}

#[test]
fn fifo_picks_oldest_creation() {
    let (memory, table) = full_memory();
    assert_eq!(evict(Policy::FirstInFirstOut, &memory, &table), 0);
}

#[test]
fn ties_go_to_lowest_slot() {
    let memory: Memory = vec![Some(5), Some(6), Some(7)];
    let mut table: PageTable = HashMap::new();
    table.insert(5, entry(false, 4, 9));
    table.insert(6, entry(false, 2, 3));
    table.insert(7, entry(false, 2, 3));
    assert_eq!(evict(Policy::LeastRecentlyUsed, &memory, &table), 1);
    assert_eq!(evict(Policy::FirstInFirstOut, &memory, &table), 1);
}

#[test]
fn random_uses_the_draw_when_full() {
    let (memory, table) = full_memory();
    assert_eq!(select_victim(Policy::Random, &memory, &table, 2), 2);
    assert_eq!(select_victim(Policy::Random, &memory, &table, 0), 0);
}

#[test]
fn random_eviction_stays_in_range() {
    let (memory, table) = full_memory();
    for _ in 0..200 {
        assert!(evict(Policy::Random, &memory, &table) < 3);
    }
    let single: Memory = vec![Some(7)];
    for _ in 0..20 {
        assert_eq!(evict(Policy::Random, &single, &table), 0);
    }
}
