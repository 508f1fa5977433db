use std::collections::{HashMap, VecDeque};
use virtual_alloc::myalloc::{GlobalData, LocalData};
use virtual_alloc::quantum_address::QuantumAddress;
use virtual_alloc::quantum_storage::QuantumStorage;
use rand::rngs::SmallRng;
use rand::SeedableRng;
use virtual_alloc::system::SystemInterface;

const MB: u64 = 1 << 20;
const GB: u64 = 1 << 30;
const TB: u64 = 1 << 40;
const QUANTUM: u64 = 16 * MB;
const PAGE: u64 = 2 * MB;
const VIRT_BASE: u64 = 0x1000_0000_0000;
const DIRECT_MAP: u64 = 0x6000_0000_0000;

/// A page table kept in memory: it records mappings and counts flushes.
struct MockSystem {
    mapped: HashMap<u64, u64>,
    flushes: u64,
    next_physical: u64,
}

impl MockSystem {
    fn new() -> Self {
        MockSystem { mapped: HashMap::new(), flushes: 0, next_physical: PAGE }
    }
}

impl SystemInterface for MockSystem {
    fn allocate_virtual(&mut self, _size: u64, _align: u64) -> u64 {
        VIRT_BASE
    }

    fn allocate_physical(&mut self, size: u64, align: u64) -> u64 {
        let r = self.next_physical.next_multiple_of(align);
        self.next_physical = r + size;
        r
    }

    fn global_tlb_flush(&mut self) {
        self.flushes += 1;
    }

    fn vaddr(&self, addr: u64) -> u64 {
        addr + DIRECT_MAP
    }

    fn paddr(&self, addr: u64) -> u64 {
        addr - DIRECT_MAP
    }

    fn prepare_page_table(&mut self, _start: u64, _end: u64) {}

    fn map(&mut self, page: u64, frame: u64) {
        assert!(self.mapped.insert(page, frame).is_none(), "page {page:#x} mapped twice");
    }

    fn unmap(&mut self, page: u64) -> u64 {
        self.mapped.remove(&page).expect("unmapping a page that is not mapped")
    }
}

fn setup(physical: u64, virt: u64) -> GlobalData<MockSystem> {
    GlobalData::new(MockSystem::new(), physical, virt).unwrap()
}

fn total_frames(g: &GlobalData<MockSystem>, locals: &[&LocalData]) -> usize {
    g.available_frames.len() + locals.iter().map(|l| l.cached_frames()).sum::<usize>() + g.sys.mapped.len()
}

#[test]
fn zero_size_is_dangling_and_free_is_noop() {
    let mut g = setup(GB, TB);
    let mut l = LocalData::new(1);
    let p = l.allocate(&mut g, 0, 8).unwrap();
    assert_eq!(p, 8);
    let pool = g.available_frames.len();
    l.deallocate(&mut g, p, 0);
    assert_eq!(g.available_frames.len(), pool);
    assert!(g.sys.mapped.is_empty());
}

#[test]
fn size_mix_alignment() {
    let mut g = setup(4 * GB, TB);
    let mut l = LocalData::new(3);
    let sizes = [128u64, 4096, 256 * 1024, 8 * MB, 24 * MB];
    let mut rng_state = 12345u64;
    let mut live = Vec::new();
    for _ in 0..400 {
        rng_state = rng_state.wrapping_mul(6364136223846793005).wrapping_add(1442695040888963407);
        let size = sizes[(rng_state >> 33) as usize % sizes.len()];
        let p = l.allocate(&mut g, size, 8).unwrap();
        assert_eq!(p % 8, 0);
        if size == 24 * MB {
            assert_eq!(p % QUANTUM, 0);
        }
        if size == 8 * MB {
            assert_eq!(p % PAGE, 0);
        }
        live.push((p, size));
        if live.len() > 40 {
            let (q, s) = live.remove(0);
            l.deallocate(&mut g, q, s);
        }
    }
    for (q, s) in live {
        l.deallocate(&mut g, q, s);
    }
}

#[test]
fn exact_remaining_bytes_stay_in_quantum() {
    let mut g = setup(GB, TB);
    let mut l = LocalData::new(4);
    let a = l.allocate(&mut g, 8 * MB, 8).unwrap();
    let b = l.allocate(&mut g, 8 * MB, 8).unwrap();
    let qa = QuantumAddress::containing(a).start();
    assert_eq!(a, qa + 8 * MB);
    assert_eq!(b, qa);
    assert_eq!(QuantumAddress::containing(b + 8 * MB - 1).start(), qa);
    let c = l.allocate(&mut g, 2 * MB, 8).unwrap();
    assert_ne!(QuantumAddress::containing(c).start(), qa);
}

#[test]
fn half_quantum_plus_one_is_large() {
    let mut g = setup(GB, TB);
    let mut l = LocalData::new(5);
    let p = l.allocate(&mut g, QUANTUM / 2 + 1, 8).unwrap();
    assert_eq!(p % QUANTUM, 0);
    assert_eq!(g.sys.mapped.len(), 5);
    l.deallocate(&mut g, p, QUANTUM / 2 + 1);
    assert!(g.sys.mapped.is_empty());
}

#[test]
fn bump_underflow_claims_one_new_quantum() {
    let mut g = setup(GB, TB);
    let mut l = LocalData::new(6);
    let mut quanta = Vec::new();
    for _ in 0..9 {
        let p = l.allocate(&mut g, 2 * MB, 8).unwrap();
        let q = QuantumAddress::containing(p).start();
        if !quanta.contains(&q) {
            quanta.push(q);
        }
    }
    assert_eq!(quanta.len(), 2);
}

#[test]
fn single_thread_fill_and_free() {
    let mut g = setup(4 * GB, TB);
    let mut l = LocalData::new(7);
    let mut live = VecDeque::new();
    for i in 0..1_000_000u32 {
        if live.len() == 188 {
            let p = live.pop_front().unwrap();
            l.deallocate(&mut g, p, 16 * MB);
        }
        let p = l.allocate(&mut g, 16 * MB, 8).expect("out of memory");
        live.push_back(p);
        if i > 188 {
            let quanta = g.sys.mapped.len() as u64 * PAGE / QUANTUM;
            assert!((188..=192).contains(&quanta));
        }
    }
    assert!(g.sys.flushes > 0);
    while let Some(p) = live.pop_front() {
        l.deallocate(&mut g, p, 16 * MB);
    }
    assert!(g.sys.mapped.is_empty());
}

#[test]
fn two_threads_share_recycling() {
    let mut g = setup(GB, 4 * GB);
    let mut a = LocalData::new(11);
    let mut b = LocalData::new(12);
    let mut live_a = VecDeque::new();
    let mut live_b = VecDeque::new();
    let mut done = 0;
    for _ in 0..5000 {
        for (l, live) in [(&mut a, &mut live_a), (&mut b, &mut live_b)] {
            if live.len() == 12 {
                let p = live.pop_front().unwrap();
                l.deallocate(&mut g, p, 32 * MB);
            }
            let p = l.allocate(&mut g, 32 * MB, 8).expect("out of memory");
            live.push_back(p);
            done += 1;
        }
    }
    assert!(done >= 10000);
    assert!(g.sys.flushes > 0);
}

#[test]
fn page_count_conservation() {
    let mut g = setup(GB, TB);
    let total = g.available_frames.len();
    let mut a = LocalData::new(21);
    let mut b = LocalData::new(22);
    let sizes = [64u64, 4096, 300 * 1024, 3 * MB, 8 * MB, 20 * MB, 40 * MB];
    let mut live = Vec::new();
    for i in 0..300usize {
        let size = sizes[i % sizes.len()];
        let l = if i % 2 == 0 { &mut a } else { &mut b };
        let p = l.allocate(&mut g, size, 16).unwrap();
        live.push((i % 2, p, size));
        assert_eq!(total_frames(&g, &[&a, &b]) + small_frames(&g, &a, &b), total);
        if live.len() > 25 {
            let (who, q, s) = live.remove(i % 7);
            let l = if who == 0 { &mut a } else { &mut b };
            l.deallocate(&mut g, q, s);
        }
    }
    for (who, q, s) in live {
        let l = if who == 0 { &mut a } else { &mut b };
        l.deallocate(&mut g, q, s);
    }
    a.deinit(&mut g);
    b.deinit(&mut g);
    g.quantum_storage.recycle(&mut g.sys);
    assert_eq!(g.available_frames.len(), total);
    assert!(g.sys.mapped.is_empty());
    let quanta = TB / QUANTUM;
    for i in 0..quanta {
        assert!(g.quantum_storage.is_free(i));
    }
    let mut rng = SmallRng::seed_from_u64(3);
    assert_eq!(g.quantum_storage.allocate(16, &mut rng, &mut g.sys).map(|q| q.start()), Some(VIRT_BASE));
}

/// Frames held by the small path: neither pooled, cached nor mapped.
fn small_frames(g: &GlobalData<MockSystem>, a: &LocalData, b: &LocalData) -> usize {
    let _ = (a, b);
    g.region_counts.occupied()
}

#[test]
fn freed_pages_are_unmapped_until_reuse() {
    let mut g = setup(GB, TB);
    let mut l = LocalData::new(31);
    let p = l.allocate(&mut g, 20 * MB, 8).unwrap();
    for k in 0..10 {
        assert!(g.sys.mapped.contains_key(&(p + k * PAGE)));
    }
    let index = (p - VIRT_BASE) / QUANTUM;
    assert!(!g.quantum_storage.is_free(index));
    l.deallocate(&mut g, p, 20 * MB);
    for k in 0..10 {
        assert!(!g.sys.mapped.contains_key(&(p + k * PAGE)));
    }
    assert!(g.quantum_storage.is_free(index));
    assert!(g.quantum_storage.is_free(index + 1));
    assert_eq!(g.sys.flushes, 0);
    g.quantum_storage.recycle(&mut g.sys);
    assert_eq!(g.sys.flushes, 1);
    assert!(g.quantum_storage.is_free(index));
}

#[test]
fn zero_size_accepts_any_alignment() {
    let mut g = setup(GB, TB);
    let mut l = LocalData::new(32);
    assert_eq!(l.allocate(&mut g, 0, 1 << 30), Some(1 << 30));
}

#[test]
fn fitting_small_request_moves_bump_down() {
    let mut g = setup(GB, TB);
    let mut l = LocalData::new(33);
    let a = l.allocate(&mut g, 100, 8).unwrap();
    let b = l.allocate(&mut g, 100, 8).unwrap();
    assert_eq!(b, (a - 100) & !7);
    let c = l.allocate(&mut g, 64, 64).unwrap();
    assert_eq!(c, (b - 64) & !63);
}

#[test]
fn failed_large_allocation_leaves_nothing_mapped() {
    let mut g = setup(64 * MB, TB);
    let mut l = LocalData::new(34);
    assert_eq!(l.allocate(&mut g, 128 * MB, 8), None);
    assert!(g.sys.mapped.is_empty());
    assert_eq!(g.available_frames.len() + l.cached_frames(), 32);
    for i in 0..(TB / QUANTUM) {
        assert!(g.quantum_storage.is_free(i));
    }
}

#[test]
fn quantum_storage_clean_dirty_cycle() {
    let mut sys = MockSystem::new();
    let start = QuantumAddress::from_start(4 * QUANTUM);
    let end = QuantumAddress::from_start(12 * QUANTUM);
    let mut s = QuantumStorage::from_range(start, end);
    let mut rng = SmallRng::seed_from_u64(9);
    let q = s.allocate(0, &mut rng, &mut sys).unwrap();
    assert_eq!(q.start() % QUANTUM, 0);
    assert!(q.start() >= 4 * QUANTUM && q.start() < 12 * QUANTUM);
    let index = (q.start() - 4 * QUANTUM) / QUANTUM;
    assert!(!s.is_free(index));
    assert!(s.release_dirty(0, q));
    assert!(s.is_free(index));
    assert!(!s.release_dirty(0, q));
    assert_eq!(sys.flushes, 0);
    s.recycle(&mut sys);
    assert_eq!(sys.flushes, 1);
    assert_eq!(s.allocate(3, &mut rng, &mut sys).map(|a| a.start()), Some(4 * QUANTUM));
    assert_eq!(s.allocate(0, &mut rng, &mut sys).map(|a| a.start()), None);
}

#[test]
fn dirty_quanta_need_a_flush_before_reuse() {
    let mut sys = MockSystem::new();
    let mut s = QuantumStorage::from_range(QuantumAddress::from_start(QUANTUM), QuantumAddress::from_start(3 * QUANTUM));
    let mut rng = SmallRng::seed_from_u64(10);
    let a = s.allocate(0, &mut rng, &mut sys).unwrap();
    let b = s.allocate(0, &mut rng, &mut sys).unwrap();
    assert_ne!(a.start(), b.start());
    assert!(s.release_dirty(0, a));
    assert_eq!(sys.flushes, 0);
    let c = s.allocate(0, &mut rng, &mut sys).unwrap();
    assert_eq!(c.start(), a.start());
    assert!(sys.flushes >= 1);
}
