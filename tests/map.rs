use array_map::workload::{do_map_test1, do_map_test2, do_map_test3};
use array_map::{Addressing, ArrayMap, MapError};

fn open_map(width: usize, height: usize) -> ArrayMap<u32> {
    ArrayMap::new(width, height, Addressing::Open)
}

fn direct_map(width: usize, height: usize) -> ArrayMap<u32> {
    ArrayMap::new(width, height, Addressing::Direct)
}

fn collect(t: &ArrayMap<u32>) -> Vec<(u32, u32)> {
    let mut out = Vec::new();
    let mut it = t.iter();
    while let Some((k, v)) = it.next(t) {
        out.push((k, *v));
    }
    out
}

fn sorted(mut v: Vec<(u32, u32)>) -> Vec<(u32, u32)> {
    v.sort();
    v
}

#[test]
fn constructor() {
    let t = open_map(8, 8);
    assert!(t.is_empty());
    assert_eq!(t.len(), 0);
    assert!(!t.is_full());
    assert_eq!(t.capacity(), 64);
}

#[test]
fn insert_remove() {
    let mut t = open_map(8, 8);

    assert_eq!(t.insert(5, 32), Ok(()));
    assert!(!t.is_empty());
    assert_eq!(t.len(), 1);
    assert_eq!(t.get(5), Ok(Some(&32)));

    assert_eq!(t.remove(5), Some(32));
    assert!(t.is_empty());
}

#[test]
fn iterator() {
    let mut t = open_map(8, 8);

    for i in 0..64u32 {
        assert_eq!(t.insert(i, i * 32), Ok(()));
    }

    let mut it = t.iter();
    while let Some((k, v)) = it.next(&t) {
        assert_eq!(*v, k * 32);
    }

    assert!(t.is_full());
    for i in (0..64u32).step_by(2) {
        assert_eq!(t.remove(i), Some(i * 32));
    }

    let mut it = t.iter();
    while let Some((k, v)) = it.next(&t) {
        assert_eq!(k % 2, 1);
        assert_eq!(*v, k * 32);
    }

    assert_eq!(t.len(), 32);

    let mut c = t.iter_mut();
    while let Some((_, v)) = c.next(&mut t) {
        assert!(c.set_current(&mut t, v * 2));
    }

    let mut it = t.iter();
    while let Some((k, v)) = it.next(&t) {
        assert_eq!(*v, k * 64, "Bad value a {}", k);
    }

    t.clear();
    assert!(t.is_empty());
    assert_eq!(t.len(), 0);
    assert!(!t.is_full());

    let mut it = t.iter();
    while let Some((_, _)) = it.next(&t) {
        panic!("Iterator should be empty!");
    }
}

#[test]
fn same_key() {
    let mut t = open_map(8, 8);
    let size = t.capacity() as u32;

    for (k, v) in (0..10).map(|i| (i * size, i)) {
        assert_eq!(t.insert(k, v), Ok(()));
    }

    for (k, v) in (0..10).map(|i| (i * size, i)) {
        assert_eq!(t.get(k), Ok(Some(&v)), "Map Bad with key {}", k);
    }
}

#[test]
fn len_stays_within_capacity() {
    let mut t = open_map(2, 2);
    for i in 0..10u32 {
        let _ = t.insert(i * 7, i);
        assert!(t.len() <= t.capacity());
    }
    assert_eq!(t.len(), 4);
    for i in 0..10u32 {
        let _ = t.remove(i * 7);
        assert!(t.len() <= t.capacity());
    }
    assert_eq!(t.len(), 0);
}

#[test]
fn insert_then_get_direct() {
    let mut t = direct_map(4, 4);
    assert_eq!(t.insert(9, 81), Ok(()));
    assert_eq!(t.get(9), Ok(Some(&81)));
    assert_eq!(t.get(8), Ok(None));
}

#[test]
fn remove_absent_key() {
    let mut t = open_map(4, 4);
    assert_eq!(t.remove(3), None);
    assert_eq!(t.insert(1, 10), Ok(()));
    assert_eq!(t.remove(3), None);
    assert_eq!(t.len(), 1);
    assert_eq!(t.get(1), Ok(Some(&10)));
}

#[test]
fn full_then_room_after_remove() {
    let mut t = open_map(4, 4);
    for i in 0..16u32 {
        assert_eq!(t.insert(i, i), Ok(()));
    }
    assert!(t.is_full());
    assert_eq!(t.insert(100, 1), Err(MapError::CapacityExceeded));
    assert_eq!(t.insert(3, 1), Err(MapError::CapacityExceeded));
    assert_eq!(t.get(3), Ok(Some(&3)));
    assert_eq!(t.remove(3), Some(3));
    assert_eq!(t.insert(100, 1), Ok(()));
    assert_eq!(t.get(100), Ok(Some(&1)));
    assert_eq!(t.len(), 16);
    let entries = sorted(collect(&t));
    assert_eq!(entries.len(), 16);
    assert!(!entries.iter().any(|e| e.0 == 3));
    assert!(entries.contains(&(100, 1)));
}

#[test]
fn direct_key_out_of_range() {
    let mut t = direct_map(8, 8);
    assert_eq!(t.insert(64, 1), Err(MapError::KeyOutOfRange));
    assert_eq!(t.insert(63, 1), Ok(()));
    assert_eq!(t.get(64), Err(MapError::KeyOutOfRange));
    assert_eq!(t.remove(64), None);
    assert_eq!(t.len(), 1);
}

#[test]
fn traversal_round_trip() {
    let mut t = open_map(4, 8);
    let keys: Vec<u32> = (0..20u32).map(|i| i * 37).collect();
    for &k in &keys {
        assert_eq!(t.insert(k, k * 3 + 1), Ok(()));
    }
    let expected: Vec<(u32, u32)> = keys.iter().map(|&k| (k, k * 3 + 1)).collect();
    assert_eq!(sorted(collect(&t)), sorted(expected));

    for &k in &keys {
        if k % 2 == 0 {
            assert_eq!(t.remove(k), Some(k * 3 + 1));
        }
    }
    let odd: Vec<(u32, u32)> = keys.iter().filter(|&&k| k % 2 == 1).map(|&k| (k, k * 3 + 1)).collect();
    assert_eq!(sorted(collect(&t)), sorted(odd));
}

#[test]
fn mutable_cursor_compacts() {
    let mut t = direct_map(5, 4);
    for k in 0..20u32 {
        assert_eq!(t.insert(k, k + 100), Ok(()));
    }
    for k in [0u32, 3, 4, 9, 15, 18, 19] {
        assert_eq!(t.remove(k), Some(k + 100));
    }
    assert_eq!(t.len(), 13);

    let mut seen = Vec::new();
    let mut c = t.iter_mut();
    while let Some((k, v)) = c.next(&mut t) {
        assert_eq!(v, k + 100);
        seen.push(k);
    }
    seen.sort();
    assert_eq!(seen, vec![1, 2, 5, 6, 7, 8, 10, 11, 12, 13, 14, 16, 17]);
    assert_eq!(t.len(), 13);
    assert_eq!(collect(&t).len(), 13);
}

#[test]
fn scenario_direct_full_cycle() {
    let mut t = direct_map(8, 8);
    for k in 0..64u32 {
        assert_eq!(t.insert(k, k * 32), Ok(()));
    }
    assert!(t.is_full());
    for k in (0..64u32).step_by(2) {
        assert_eq!(t.remove(k), Some(k * 32));
    }
    assert_eq!(t.len(), 32);
    let odd: Vec<(u32, u32)> = (0..64u32).filter(|k| k % 2 == 1).map(|k| (k, k * 32)).collect();
    assert_eq!(sorted(collect(&t)), odd);

    let mut c = t.iter_mut();
    let mut doubled = 0;
    while let Some((_, v)) = c.next(&mut t) {
        assert!(c.set_current(&mut t, v * 2));
        doubled += 1;
    }
    assert_eq!(doubled, 32);
    let after = sorted(collect(&t));
    assert_eq!(after.len(), 32);
    for (k, v) in after {
        assert_eq!(k % 2, 1);
        assert_eq!(v, k * 64);
    }
    t.clear();
    assert_eq!(t.len(), 0);
    assert!(collect(&t).is_empty());
}

#[test]
fn scenario_open_full_collision() {
    let mut t = open_map(32, 32);
    for i in 0..10u32 {
        assert_eq!(t.insert(i * 1024, i + 1), Ok(()));
    }
    for i in 0..10u32 {
        assert_eq!(t.get(i * 1024), Ok(Some(&(i + 1))));
    }
    assert_eq!(t.get(10 * 1024), Ok(None));
    assert_eq!(t.len(), 10);
}

#[test]
fn probe_chain_survives_removal() {
    let mut t = open_map(8, 8);
    assert_eq!(t.insert(0, 1), Ok(()));
    assert_eq!(t.insert(64, 2), Ok(()));
    assert_eq!(t.insert(128, 3), Ok(()));
    assert_eq!(t.remove(64), Some(2));
    assert_eq!(t.get(128), Ok(Some(&3)));
    assert_eq!(t.get(64), Ok(None));
    assert_eq!(t.insert(192, 4), Ok(()));
    assert_eq!(t.get(192), Ok(Some(&4)));
    assert_eq!(t.get(0), Ok(Some(&1)));
}

#[test]
fn insert_existing_key_overwrites() {
    let mut t = open_map(4, 4);
    assert_eq!(t.insert(7, 1), Ok(()));
    assert_eq!(t.insert(7, 2), Ok(()));
    assert_eq!(t.len(), 1);
    assert_eq!(t.get(7), Ok(Some(&2)));
    assert_eq!(collect(&t), vec![(7, 2)]);

    let mut d = direct_map(4, 4);
    assert_eq!(d.insert(7, 1), Ok(()));
    assert_eq!(d.insert(7, 2), Ok(()));
    assert_eq!(d.len(), 1);
    assert_eq!(collect(&d), vec![(7, 2)]);
}

#[test]
fn reinserted_key_is_traversed_once() {
    let mut t = direct_map(4, 4);
    assert_eq!(t.insert(1, 10), Ok(()));
    assert_eq!(t.insert(2, 20), Ok(()));
    assert_eq!(t.remove(1), Some(10));
    assert_eq!(t.insert(1, 11), Ok(()));
    assert_eq!(sorted(collect(&t)), vec![(1, 11), (2, 20)]);
}

#[test]
fn full_log_is_reclaimed_on_insert() {
    let mut t = open_map(2, 2);
    for k in 0..4u32 {
        assert_eq!(t.insert(k, k), Ok(()));
    }
    assert_eq!(t.remove(1), Some(1));
    assert_eq!(t.remove(2), Some(2));
    assert_eq!(t.insert(9, 90), Ok(()));
    assert_eq!(t.insert(10, 100), Ok(()));
    assert!(t.is_full());
    assert_eq!(sorted(collect(&t)), vec![(0, 0), (3, 3), (9, 90), (10, 100)]);
}

#[test]
fn replace_returns_previous() {
    let mut t = direct_map(4, 4);
    assert_eq!(t.replace(3, 30), Ok(None));
    assert_eq!(t.replace(3, 31), Ok(Some(30)));
    assert_eq!(t.get(3), Ok(Some(&31)));
    assert_eq!(t.len(), 1);
    assert_eq!(t.replace(16, 1), Err(MapError::KeyOutOfRange));

    let mut f = direct_map(1, 2);
    assert_eq!(f.insert(0, 1), Ok(()));
    assert_eq!(f.insert(1, 2), Ok(()));
    assert_eq!(f.replace(1, 5), Ok(Some(2)));
    assert_eq!(f.get(1), Ok(Some(&5)));
}

#[test]
fn set_current_without_yield() {
    let mut t = open_map(2, 2);
    assert_eq!(t.insert(1, 1), Ok(()));
    let c = t.iter_mut();
    assert!(!c.set_current(&mut t, 9));
    assert_eq!(t.get(1), Ok(Some(&1)));
}

#[test]
fn clear_then_reuse() {
    let mut t = open_map(2, 2);
    for k in 0..4u32 {
        assert_eq!(t.insert(k * 4, k), Ok(()));
    }
    t.clear();
    assert!(t.is_empty());
    assert_eq!(t.get(0), Ok(None));
    assert_eq!(t.insert(8, 1), Ok(()));
    assert_eq!(collect(&t), vec![(8, 1)]);
    assert_eq!(t.addressing(), Addressing::Open);
}

#[test]
fn workloads_leave_map_empty() {
    let mut t = open_map(32, 32);
    do_map_test1(&mut t);
    assert!(t.is_empty());
    do_map_test2(&mut t);
    assert!(t.is_empty());
    do_map_test3(&mut t);
    assert!(t.is_empty());
    assert_eq!(t.capacity(), 1024);
}

#[test]
fn traversal_follows_insertion_order() {
    let mut t = open_map(4, 4);
    for k in [9u32, 2, 40, 7] {
        assert_eq!(t.insert(k, k + 1), Ok(()));
    }
    assert_eq!(collect(&t), vec![(9, 10), (2, 3), (40, 41), (7, 8)]);
    assert_eq!(t.insert(2, 5), Ok(()));
    assert_eq!(collect(&t), vec![(9, 10), (2, 5), (40, 41), (7, 8)]);
    assert_eq!(t.remove(40), Some(41));
    assert_eq!(collect(&t), vec![(9, 10), (2, 5), (7, 8)]);
    assert_eq!(t.log_keys(), vec![9, 2, 40, 7]);
}

#[test]
fn mutable_cursor_swaps_last_entry_into_stale_position() {
    let mut t = direct_map(2, 4);
    for k in 0..5u32 {
        assert_eq!(t.insert(k, k), Ok(()));
    }
    assert_eq!(t.remove(1), Some(1));
    let mut c = t.iter_mut();
    let mut order = Vec::new();
    while let Some((k, _)) = c.next(&mut t) {
        order.push(k);
    }
    assert_eq!(order, vec![0, 4, 2, 3]);
    assert_eq!(t.log_keys(), vec![0, 4, 2, 3]);
    assert_eq!(collect(&t), vec![(0, 0), (4, 4), (2, 2), (3, 3)]);
}

#[test]
fn empty_map_remove_skips_range_check() {
    let mut t = direct_map(2, 2);
    assert_eq!(t.remove(1000), None);
    assert_eq!(t.get(1000), Err(MapError::KeyOutOfRange));
    assert_eq!(t.get(3), Ok(None));
}

#[test]
fn slots_expose_layout() {
    let mut t = open_map(2, 2);
    assert_eq!(t.insert(4, 40), Ok(()));
    assert_eq!(t.insert(8, 80), Ok(()));
    assert_eq!(t.remove(4), Some(40));
    let slots = t.slots();
    assert_eq!(slots.len(), 4);
    assert_eq!(slots[0], array_map::Slot::Deleted);
    assert_eq!(slots[1], array_map::Slot::Full { key: 8, value: 80, pos: 1 });
    assert_eq!(slots[2], array_map::Slot::Empty);
}
