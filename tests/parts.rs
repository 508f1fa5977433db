use virtual_alloc::buddy::{BuddyMap, BuddyTower};
use virtual_alloc::count_map::SmallCountHashMap;
use virtual_alloc::frame_list::FrameList;
use virtual_alloc::myalloc::{large_alloc_level, size_class, SizeClass};
use virtual_alloc::page_map::{PageMap, QuantumMap};
use virtual_alloc::packed::{check_width, mask};
use virtual_alloc::quantum_address::QuantumAddress;
use virtual_alloc::quantum_storage::encode_transfer;
use rand::rngs::SmallRng;
use rand::SeedableRng;
use virtual_alloc::util::{align_down, align_down_const, wrapping_less_than, VIRTUAL_QUANTUM_SIZE};

#[test]
fn wrapping_less_than_orders_nearby_values() {
    assert!(wrapping_less_than(1, 2));
    assert!(!wrapping_less_than(2, 1));
    assert!(!wrapping_less_than(5, 5));
    assert!(wrapping_less_than(usize::MAX, 0));
    assert!(!wrapping_less_than(0, usize::MAX));
}

#[test]
fn align_down_rounds_to_power_of_two() {
    assert_eq!(align_down_const::<16>(37), 32);
    assert_eq!(align_down_const::<16>(32), 32);
    assert_eq!(align_down(0x20_1234, 0x20_0000), 0x20_0000);
    assert_eq!(align_down(7, 1), 7);
}

#[test]
fn mask_and_width() {
    assert_eq!(mask(27), 0x7ff_ffff);
    assert_eq!(mask(0), 0);
    assert!(check_width(0x7ff_ffff, 27));
    assert!(!check_width(0x800_0000, 27));
}

#[test]
fn quantum_address_containing() {
    let q = QuantumAddress::containing(0x1234_5678_9abc);
    assert_eq!(q.start(), 0x1234_5600_0000);
    assert_eq!(QuantumAddress::from_start(0x100_0000).start(), VIRTUAL_QUANTUM_SIZE);
}

#[test]
fn count_map_round_trip() {
    let mut m = SmallCountHashMap::<16, 20, 27>::with_num_slots(10);
    assert_eq!(m.capacity(), 16);
    let slot = m.insert(5, 7, 1).unwrap();
    let n = 3;
    for _ in 1..n {
        assert!(m.increment_at(slot, 5, 1));
    }
    for _ in 1..n {
        assert_eq!(m.decrement(5), None);
    }
    assert_eq!(m.decrement(5), Some(7));
    assert_eq!(m.decrement(5), None);
}

#[test]
fn count_map_insert_with_count_two() {
    let mut m = SmallCountHashMap::<16, 20, 27>::with_num_slots(4);
    let c = 2;
    let n = 4;
    let slot = m.insert(9, 0xabcde, c).unwrap();
    for _ in 1..n {
        assert!(m.increment_at(slot, 9, 1));
    }
    for _ in 1..(n + c - 1) {
        assert_eq!(m.decrement(9), None);
    }
    assert_eq!(m.decrement(9), Some(0xabcde));
}

#[test]
fn count_map_full_and_missing() {
    let mut m = SmallCountHashMap::<4, 21, 24>::with_num_slots(2);
    assert!(m.insert(1, 0, 1).is_some());
    assert!(m.insert(2, 0, 1).is_some());
    assert_eq!(m.insert(3, 0, 1), None);
    assert_eq!(m.decrement(77), None);
}

#[test]
fn count_map_refuses_overflow_and_wrong_slot() {
    let mut m = SmallCountHashMap::<4, 21, 24>::with_num_slots(4);
    let slot = m.insert(1, 0, 7).unwrap();
    assert!(m.increment_at(slot, 1, 1));
    assert!(!m.increment_at(slot, 1, 1));
    assert!(!m.increment_at(slot, 2, 1));
    assert!(!m.increment_at(1000, 1, 1));
}

#[test]
fn transfer_entry_layout() {
    assert_eq!(encode_transfer(3, 1234), (3 << 27) | 1234);
    assert_eq!(encode_transfer(0, 0x7ff_ffff), 0x7ff_ffff);
}

#[test]
fn buddy_map_coalesces_pairs() {
    let mut m = BuddyMap::new(1);
    assert!(!m.insert(0));
    assert!(m.insert(1));
    assert_eq!(m.remove(0), None);
    assert!(!m.insert(2));
    assert!(!m.insert(5));
    assert_eq!(m.remove(0), Some(2));
    assert_eq!(m.remove(0), Some(5));
    assert_eq!(m.remove(0), None);
}

#[test]
fn buddy_tower_fill_and_split() {
    let mut t = BuddyTower::new(8, 4);
    t.fill();
    let mut rng = SmallRng::seed_from_u64(1);
    assert!(t.contains(7));
    assert!(!t.contains(8));
    assert_eq!(t.remove(3, &mut rng), Some(0));
    assert!(!t.contains(0));
    assert_eq!(t.remove(0, &mut rng), None);
    t.insert(3, 0);
    assert_eq!(t.remove(0, &mut rng), Some(0));
    assert!(t.contains(1));
    assert_eq!(t.remove(1, &mut rng), Some(2));
    assert_eq!(t.remove(2, &mut rng), Some(4));
    assert_eq!(t.remove(0, &mut rng), Some(1));
    assert_eq!(t.remove(0, &mut rng), None);
}

#[test]
fn buddy_tower_odd_count_never_hands_out_missing_quanta() {
    let mut t = BuddyTower::new(3, 3);
    t.fill();
    let mut rng = SmallRng::seed_from_u64(2);
    assert_eq!(t.remove(2, &mut rng), None);
    assert_eq!(t.remove(1, &mut rng), Some(0));
    assert_eq!(t.remove(1, &mut rng), None);
    assert_eq!(t.remove(0, &mut rng), Some(2));
}

#[test]
fn frame_list_steal_and_release() {
    let mut pool: Vec<u64> = (1..=10).map(|i| i * 0x20_0000).collect();
    let mut cache = FrameList::new();
    assert_eq!(cache.pop(), None);
    assert_eq!(cache.steal_from_vec(&mut pool, 6), Some(()));
    assert_eq!(cache.count(), 6);
    assert_eq!(pool.len(), 4);
    cache.release_extra_to_vec(&mut pool);
    assert_eq!(cache.count(), 1);
    assert_eq!(pool.len(), 9);
    assert_eq!(cache.steal_from_vec(&mut pool, 20), None);
    assert!(pool.is_empty());
    assert_eq!(cache.count() + pool.len(), 10);
    assert!(cache.push(0x40_0000).is_ok());
    assert_eq!(cache.pop(), Some(0x40_0000));
}

#[test]
fn frame_list_pop_with_refill() {
    let mut pool: Vec<u64> = vec![0x20_0000, 0x40_0000];
    let mut cache = FrameList::new();
    assert_eq!(cache.pop_with_refill(&mut pool, 4), Some(0x40_0000));
    assert_eq!(cache.pop_with_refill(&mut pool, 4), Some(0x20_0000));
    assert_eq!(cache.pop_with_refill(&mut pool, 4), None);
}

#[test]
fn large_levels() {
    assert_eq!(large_alloc_level(16 << 20), 0);
    assert_eq!(large_alloc_level((16 << 20) + 1), 1);
    assert_eq!(large_alloc_level(24 << 20), 1);
    assert_eq!(large_alloc_level(1 << 30), 6);
    assert_eq!(large_alloc_level((8 << 20) + 1), 0);
}

#[test]
fn size_dispatch() {
    assert_eq!(size_class(0), SizeClass::Zero);
    assert_eq!(size_class(1), SizeClass::Small);
    assert_eq!(size_class(1 << 20), SizeClass::Small);
    assert_eq!(size_class((1 << 20) + 1), SizeClass::Medium);
    assert_eq!(size_class(VIRTUAL_QUANTUM_SIZE / 2), SizeClass::Medium);
    assert_eq!(size_class(VIRTUAL_QUANTUM_SIZE / 2 + 1), SizeClass::Large);
}

#[test]
fn page_map_records_frames() {
    let base = 0x1000_0000_0000u64;
    let page = base + 4 * 0x20_0000;
    let mut m = PageMap::new(8, base);
    let slot = m.insert(page, 0x40_0000, 1).unwrap();
    assert!(m.increment_at(slot, page));
    assert!(!m.increment_at(slot, page + 0x20_0000));
    assert_eq!(m.decrement(page), None);
    assert_eq!(m.decrement(page), Some(0x40_0000));
    assert_eq!(m.decrement(page), None);
    assert_eq!(m.insert(base - 0x20_0000, 0x40_0000, 1), None);
    assert_eq!(m.insert(page, 1u64 << 41, 1), None);
}

#[test]
fn quantum_map_counts_pages() {
    let mut m = QuantumMap::new(4);
    let slot = m.insert(3, 1).unwrap();
    assert!(m.increment_at(slot, 3, 7));
    assert!(!m.increment_at(slot, 3, 1));
    for _ in 0..7 {
        assert!(!m.decrement(3));
    }
    assert!(m.decrement(3));
    assert_eq!(m.insert(1 << 24, 1), None);
}

#[test]
fn insert_from_takes_first_empty_slot() {
    let mut m = SmallCountHashMap::<16, 20, 27>::with_num_slots(8);
    assert_eq!(m.insert_from(6, 1, 0, 1), Some(6));
    assert_eq!(m.insert_from(6, 2, 0, 1), Some(7));
    assert_eq!(m.insert_from(6, 3, 0, 1), Some(0));
    assert_eq!(m.insert_from(0, 4, 0, 1), Some(1));
}

#[test]
fn buddy_map_scan_starts_at_given_word() {
    let mut m = BuddyMap::new(4);
    assert!(!m.insert(5));
    assert!(!m.insert(130));
    assert_eq!(m.remove(2), Some(130));
    assert_eq!(m.remove(1), Some(5));
}
