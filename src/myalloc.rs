//! The allocator proper: process-wide state, per-thread state, and the
//! small, medium and large allocation paths.

use crate::count_map::{
    decrement_post, holds_key, increment_post, lemma_occupied_fill, lemma_occupied_has_empty, occupied_in,
    SmallCountHashMap,
};
use crate::frame_list::{kept, FrameList, DEFAULT_REFILL_SIZE, FRAME_LIST_CAPACITY};
use crate::packed::fits;
use crate::page_map::{PageMap, QuantumMap, PAGE_KEY_BITS};
use crate::quantum_address::{QuantumAddress, ADDRESS_LIMIT};
use crate::buddy::{block, exp2};
use crate::quantum_storage::{QuantumStorage, MAX_QUANTA, TOWER_LEVELS};
use crate::rng::seeded_rng;
use crate::system::SystemInterface;
use crate::util::{align_down, is_pow2, PAGE_SIZE, VIRTUAL_QUANTUM_SIZE};
use vstd::prelude::*;

verus! {

/// Largest size served by the small path: half a huge page.
pub const MAX_SMALL_SIZE: u64 = 0x10_0000;

/// Largest size served by the medium path: half a quantum.
pub const MAX_MEDIUM_SIZE: u64 = 0x80_0000;

/// Largest size the allocator accepts.
pub const MAX_REQUEST_SIZE: u64 = 0x4000_0000_0000;

/// Per-frame counts of the small path: count 32 bits, value unused, frame 27.
pub type RegionCounts = SmallCountHashMap<32, 1, 27>;

/// The path a request of a given size takes.
#[derive(PartialEq, Eq, Structural, Clone, Copy, Debug)]
pub enum SizeClass {
    Zero,
    Small,
    Medium,
    Large,
}

pub open spec fn size_class_spec(size: u64) -> SizeClass {
    if size == 0 {
        SizeClass::Zero
    } else if size <= MAX_SMALL_SIZE {
        SizeClass::Small
    } else if size <= MAX_MEDIUM_SIZE {
        SizeClass::Medium
    } else {
        SizeClass::Large
    }
}

/// The path a request of `size` bytes takes.
pub fn size_class(size: u64) -> (r: SizeClass)
    ensures
        r == size_class_spec(size),
{
    if size == 0 {
        SizeClass::Zero
    } else if size <= MAX_SMALL_SIZE {
        SizeClass::Small
    } else if size <= MAX_MEDIUM_SIZE {
        SizeClass::Medium
    } else {
        SizeClass::Large
    }
}

/// Level of the quantum tower that a large request of `size` bytes takes:
/// the least `l` with `size <= 2^(l + 24)`.
/// The least level `l >= from`, at most 22, with `size <= 2^(l + 24)`.
pub open spec fn large_level_from(size: u64, from: nat) -> nat
    decreases 22 - from,
{
    if from >= 22 || size <= vstd::arithmetic::power2::pow2(from + 24) {
        from
    } else {
        large_level_from(size, from + 1)
    }
}

/// The tower level that a large request of `size` bytes takes.
pub open spec fn large_level(size: u64) -> int {
    large_level_from(size, 0) as int
}

pub fn large_alloc_level(size: u64) -> (r: u32)
    requires
        size <= MAX_REQUEST_SIZE,
    ensures
        r == large_level(size),
        r < TOWER_LEVELS,
        size <= vstd::arithmetic::power2::pow2((r + 24) as nat),
        r == 0 || size > vstd::arithmetic::power2::pow2((r + 23) as nat),
{
    let mut l: u32 = 0;
    let mut cap: u64 = VIRTUAL_QUANTUM_SIZE;
    proof {
        vstd::arithmetic::power2::lemma2_to64();
        vstd::arithmetic::power2::lemma2_to64_rest();
    }
    while cap < size
        invariant
            l <= 22,
            cap == vstd::arithmetic::power2::pow2((l + 24) as nat),
            l == 0 || size > vstd::arithmetic::power2::pow2((l + 23) as nat),
            size <= MAX_REQUEST_SIZE,
            large_level_from(size, 0) == large_level_from(size, l as nat),
        decreases 22 - l,
    {
        proof {
            vstd::arithmetic::power2::lemma_pow2_unfold((l + 25) as nat);
            vstd::arithmetic::power2::lemma2_to64_rest();
            if l >= 22 {
                assert(cap == 0x4000_0000_0000);
            }
        }
        cap = cap * 2;
        l = l + 1;
    }
    proof {
        assert(large_level_from(size, l as nat) == l);
    }
    l
}

/// Number of huge pages that `size` bytes reach.
pub open spec fn page_count(size: u64) -> int {
    (size as int) / (PAGE_SIZE as int) + if size % PAGE_SIZE == 0 {
        0int
    } else {
        1int
    }
}

/// `pg` is one of the `n` huge pages of the run that starts at `start`.
pub open spec fn in_run(pg: int, start: int, n: int) -> bool {
    start <= pg < start + n * PAGE_SIZE && (pg - start) % (PAGE_SIZE as int) == 0
}

/// The page-map key of a page at `pg`, for pages `first + j * 2 MiB`.
proof fn lemma_run_key(base: int, first: int, pg: int)
    requires
        (first - base) % (PAGE_SIZE as int) == 0,
        first <= pg,
        (pg - first) % (PAGE_SIZE as int) == 0,
    ensures
        (pg - base) / (PAGE_SIZE as int) == (first - base) / (PAGE_SIZE as int) + (pg - first) / (PAGE_SIZE as int),
{
    let p = PAGE_SIZE as int;
    vstd::arithmetic::div_mod::lemma_fundamental_div_mod(first - base, p);
    vstd::arithmetic::div_mod::lemma_fundamental_div_mod(pg - first, p);
    let a = (first - base) / p;
    let j = (pg - first) / p;
    assert(pg - base == (a + j) * p + 0) by (nonlinear_arith)
        requires
            first - base == p * a + 0,
            pg - first == p * j + 0,
    ;
    vstd::arithmetic::div_mod::lemma_fundamental_div_mod_converse(pg - base, p, a + j, 0);
}

/// Page `pg` lies in the range of the page map and its key fits a record.
pub open spec fn page_in_map(pm: PageMap, pg: u64) -> bool {
    pg >= pm.base() && fits(((pg - pm.base()) / PAGE_SIZE as int) as u64, PAGE_KEY_BITS as u64)
}

/// What freeing one small-path allocation on `frame` does: where the frame
/// fits a record, one reference fewer on it, and where that was the last,
/// the frame joins the cache or the pool; otherwise nothing changes.
pub open spec fn region_freed(
    rc0: Seq<crate::count_map::Record>,
    rc1: Seq<crate::count_map::Record>,
    c0: Seq<u64>,
    p0: Seq<u64>,
    c1: Seq<u64>,
    p1: Seq<u64>,
    frame: u64,
) -> bool {
    if fits(frame / PAGE_SIZE, 27) {
        exists|v: Option<u64>|
            #[trigger] decrement_post(rc0, frame / PAGE_SIZE, rc1, v) && (v is Some ==> (c1.contains(frame)
                || p1.contains(frame)) && c1.len() + p1.len() == c0.len() + p0.len() + 1) && (v is None ==> c1
                == c0 && p1 == p0)
    } else {
        rc1 == rc0 && c1 == c0 && p1 == p0
    }
}

/// Every frame of `s` fits a page-map record.
pub open spec fn frames_fit(s: Seq<u64>) -> bool {
    forall|f: u64| s.contains(f) ==> #[trigger] fits(f / PAGE_SIZE, 20)
}

/// The page map can take records for the pages from `low` up to below
/// `high`: they lie in its range, and it has an empty slot for each.
pub open spec fn page_room(pm: PageMap, low: int, high: int) -> bool {
    &&& low >= pm.base()
    &&& (high - pm.base()) / PAGE_SIZE as int <= 0x800_0000
    &&& pm@.len() - occupied_in(pm@) >= (high - low) / PAGE_SIZE as int
}

/// Process-wide state: the frame pool, the quanta, and the occupancy maps.
pub struct GlobalData<S: SystemInterface> {
    pub available_frames: Vec<u64>,
    pub quantum_storage: QuantumStorage,
    pub page_map: PageMap,
    pub quantum_map: QuantumMap,
    pub region_counts: RegionCounts,
    pub sys: S,
    pub mapped: Ghost<Map<u64, u64>>,
}

/// Whether `base` can start a managed range of `virt_size` bytes: non-null,
/// quantum-aligned, and with a quantum to spare below the address limit.
pub open spec fn usable_base_spec(base: u64, virt_size: u64) -> bool {
    base != 0 && base % VIRTUAL_QUANTUM_SIZE == 0 && base + virt_size + VIRTUAL_QUANTUM_SIZE <= ADDRESS_LIMIT
}

/// Whether the reservation at `base` can hold a managed range of
/// `virt_size` bytes.
pub fn usable_base(base: u64, virt_size: u64) -> (r: bool)
    requires
        virt_size <= MAX_QUANTA * VIRTUAL_QUANTUM_SIZE,
    ensures
        r == usable_base_spec(base, virt_size),
{
    base != 0 && base % VIRTUAL_QUANTUM_SIZE == 0 && base < ADDRESS_LIMIT && ADDRESS_LIMIT - base >= virt_size + VIRTUAL_QUANTUM_SIZE
}

impl<S: SystemInterface> GlobalData<S> {
    pub open spec fn wf(&self) -> bool {
        &&& self.quantum_storage.wf()
        &&& self.quantum_storage.levels() == TOWER_LEVELS
        &&& self.page_map.wf()
        &&& self.quantum_map.wf()
        &&& self.region_counts.wf()
        &&& self.page_map.base() == self.quantum_storage.base()
        &&& self.page_map.base() % (PAGE_SIZE as int) == 0
    }

    /// The huge pages this allocator has had the system map, each to its
    /// frame, and not yet unmapped.
    pub open spec fn mapped(&self) -> Map<u64, u64> {
        self.mapped@
    }

    /// Has the system map `page` to `frame`, and records it.
    fn map_page(&mut self, page: u64, frame: u64)
        ensures
            final(self).mapped() == old(self).mapped().insert(page, frame),
            final(self).available_frames == old(self).available_frames,
            final(self).quantum_storage == old(self).quantum_storage,
            final(self).page_map == old(self).page_map,
            final(self).quantum_map == old(self).quantum_map,
            final(self).region_counts == old(self).region_counts,
    {
        self.sys.map(page, frame);
        self.mapped = Ghost(self.mapped@.insert(page, frame));
    }

    /// Has the system unmap `page`, and records it.
    fn unmap_page(&mut self, page: u64) -> (r: u64)
        ensures
            final(self).mapped() == old(self).mapped().remove(page),
            final(self).available_frames == old(self).available_frames,
            final(self).quantum_storage == old(self).quantum_storage,
            final(self).page_map == old(self).page_map,
            final(self).quantum_map == old(self).quantum_map,
            final(self).region_counts == old(self).region_counts,
    {
        let f = self.sys.unmap(page);
        self.mapped = Ghost(self.mapped@.remove(page));
        f
    }

    /// Reserves `virt_size` bytes of virtual space and takes
    /// `physical_size / 2 MiB` frames from the system. `None` where the
    /// system hands out a reservation the allocator cannot use.
    pub fn new(sys: S, physical_size: u64, virt_size: u64) -> (r: Option<Self>)
        requires
            physical_size % PAGE_SIZE == 0,
            physical_size <= 0x4_0000_0000_0000,
            virt_size % VIRTUAL_QUANTUM_SIZE == 0,
            VIRTUAL_QUANTUM_SIZE <= virt_size <= MAX_QUANTA * VIRTUAL_QUANTUM_SIZE,
        ensures
            r matches Some(g) ==> {
                &&& g.wf()
                &&& g.available_frames@.len() == physical_size / PAGE_SIZE
                &&& g.quantum_storage.available() == Set::new(|x: int| 0 <= x < virt_size / VIRTUAL_QUANTUM_SIZE)
                &&& g.quantum_storage.released() == Set::<int>::empty()
                &&& g.quantum_storage.flushes() == 0
                &&& forall|i: int| 0 <= i < g.page_map@.len() ==> #[trigger] g.page_map@[i].2 == 0
                &&& forall|i: int| 0 <= i < g.quantum_map@.len() ==> #[trigger] g.quantum_map@[i].2 == 0
                &&& forall|i: int| 0 <= i < g.region_counts@.len() ==> #[trigger] g.region_counts@[i].2 == 0
                &&& g.mapped() == Map::<u64, u64>::empty()
            },
    {
        let mut sys = sys;
        let frame_count = physical_size / PAGE_SIZE;
        let base = sys.allocate_virtual(virt_size, VIRTUAL_QUANTUM_SIZE);
        if !usable_base(base, virt_size) {
            return None;
        }
        let mut frames: Vec<u64> = Vec::new();
        let mut i: u64 = 0;
        while i < frame_count
            invariant
                i <= frame_count,
                frames@.len() == i,
            decreases frame_count - i,
        {
            let f = sys.allocate_physical(PAGE_SIZE, PAGE_SIZE);
            frames.push(f);
            i = i + 1;
        }
        let end = base + virt_size;
        proof {
            vstd::arithmetic::div_mod::lemma_mod_adds(base as int, virt_size as int, VIRTUAL_QUANTUM_SIZE as int);
        }
        sys.prepare_page_table(base, end - PAGE_SIZE);
        let start = QuantumAddress::from_start(base);
        let stop = QuantumAddress::from_start(end);
        let quantum_storage = QuantumStorage::from_range(start, stop);
        let slots = (frame_count + frame_count / 4 + 1) as usize;
        let quanta = virt_size / VIRTUAL_QUANTUM_SIZE;
        let page_map = PageMap::new(slots, base);
        let quantum_map = QuantumMap::new((quanta + quanta / 4 + 1) as usize);
        let region_counts = RegionCounts::with_num_slots(slots);
        Some(GlobalData { available_frames: frames, quantum_storage, page_map, quantum_map, region_counts, sys, mapped: Ghost(Map::empty()) })
    }

    /// Index of the quantum that holds `addr`, from the first of the range.
    fn quantum_key(&self, addr: u64) -> (r: u64)
        requires
            addr >= self.quantum_storage.base(),
        ensures
            r == (addr - self.quantum_storage.base()) / (VIRTUAL_QUANTUM_SIZE as int),
    {
        (addr - self.quantum_storage.base_exec()) / VIRTUAL_QUANTUM_SIZE
    }
}

/// The medium path's bump state: a quantum whose pages fill from the top
/// down, the page the bump pointer is on, and the map slots of that page and
/// quantum.
pub struct MediumAllocator {
    bump: u64,
    min_address: u64,
    current_page: u64,
    current_page_index: usize,
    current_quantum_index: usize,
}

impl MediumAllocator {
    pub closed spec fn quantum(&self) -> int {
        self.min_address as int
    }

    pub closed spec fn wf(&self) -> bool {
        if self.min_address == 0 {
            self.bump == 0
        } else {
            &&& QuantumAddress::valid(self.min_address as int)
            &&& self.min_address <= self.bump <= self.min_address + VIRTUAL_QUANTUM_SIZE
            &&& self.current_page % PAGE_SIZE == 0
            &&& self.min_address <= self.current_page
            &&& self.current_page + PAGE_SIZE <= self.min_address + VIRTUAL_QUANTUM_SIZE
            &&& self.current_page <= self.bump <= self.current_page + PAGE_SIZE
        }
    }

    pub fn new() -> (r: Self)
        ensures
            r.wf(),
            r.quantum() == 0,
    {
        MediumAllocator { bump: 0, min_address: 0, current_page: 0, current_page_index: 0, current_quantum_index: 0 }
    }

    /// Whether `size` bytes aligned to `align` fit below the bump pointer.
    fn fits(&self, size: u64, align: u64) -> (r: bool)
        requires
            self.wf(),
            is_pow2(align),
        ensures
            r == (self.min_address != 0 && self.bump >= size && crate::util::align_down_spec(self.bump - size, align as int) >= self.min_address),
    {
        if self.min_address == 0 || self.bump < size {
            return false;
        }
        align_down(self.bump - size, align) >= self.min_address
    }
}

/// The small path's bump state: one frame, reached through the system's
/// direct map, that fills from the top down.
pub struct SmallAllocator {
    bump: u64,
    region: u64,
    frame_key: u64,
    region_index: usize,
}

impl SmallAllocator {
    pub closed spec fn wf(&self) -> bool {
        if self.region == 0 {
            self.bump == 0
        } else {
            &&& self.region % PAGE_SIZE == 0
            &&& self.region <= self.bump <= self.region + PAGE_SIZE
            &&& self.region + PAGE_SIZE <= u64::MAX
        }
    }

    /// No frame is held.
    pub closed spec fn idle(&self) -> bool {
        self.region == 0
    }

    pub fn new() -> (r: Self)
        ensures
            r.wf(),
            r.idle(),
    {
        SmallAllocator { bump: 0, region: 0, frame_key: 0, region_index: 0 }
    }

    fn fits(&self, size: u64, align: u64) -> (r: bool)
        requires
            self.wf(),
            is_pow2(align),
        ensures
            r == (self.region != 0 && self.bump >= size && crate::util::align_down_spec(self.bump - size, align as int) >= self.region),
    {
        if self.region == 0 || self.bump < size {
            return false;
        }
        align_down(self.bump - size, align) >= self.region
    }
}

/// A thread's allocator state: its random stream, its frame cache and the
/// bump state of the small and medium paths.
pub struct LocalData {
    rng: rand::rngs::SmallRng,
    available_frames: FrameList,
    medium: MediumAllocator,
    small: SmallAllocator,
}

impl LocalData {
    pub closed spec fn wf(&self) -> bool {
        &&& self.available_frames.wf()
        &&& self.medium.wf()
        &&& self.small.wf()
    }

    /// The small path's frame has room below its bump pointer for `size`
    /// bytes aligned to `align`.
    pub closed spec fn small_fits(&self, size: u64, align: u64) -> bool {
        self.small.region != 0 && self.small.bump >= size && crate::util::align_down_spec(
            self.small.bump - size,
            align as int,
        ) >= self.small.region
    }

    /// The small path's bump pointer.
    pub closed spec fn small_bump(&self) -> u64 {
        self.small.bump
    }

    /// Slot and key of the small path's frame in the region counts.
    pub closed spec fn small_slot(&self) -> (usize, u64) {
        (self.small.region_index, self.small.frame_key)
    }

    /// The small path holds no frame.
    pub closed spec fn small_idle(&self) -> bool {
        self.small.region == 0
    }

    /// The medium path's quantum has room below its bump pointer for `size`
    /// bytes aligned to `align`.
    pub closed spec fn medium_fits(&self, size: u64, align: u64) -> bool {
        self.medium.min_address != 0 && self.medium.bump >= size && crate::util::align_down_spec(
            self.medium.bump - size,
            align as int,
        ) >= self.medium.min_address
    }

    /// The medium path's bump pointer.
    pub closed spec fn medium_bump(&self) -> u64 {
        self.medium.bump
    }

    /// The page the medium bump pointer is on, and its slot in the page map.
    pub closed spec fn medium_page(&self) -> (u64, usize) {
        (self.medium.current_page, self.medium.current_page_index)
    }

    /// Slot of the medium path's quantum in the quantum map.
    pub closed spec fn medium_quantum_slot(&self) -> usize {
        self.medium.current_quantum_index
    }

    /// Start of the quantum the medium path holds; zero where it holds none.
    pub closed spec fn medium_quantum(&self) -> int {
        self.medium.min_address as int
    }

    /// The thread's cached frames.
    pub closed spec fn cached(&self) -> Seq<u64> {
        self.available_frames@
    }

    /// A thread state whose random stream starts from `seed`.
    pub fn new(seed: u64) -> (r: Self)
        ensures
            r.wf(),
            r.cached().len() == 0,
    {
        LocalData {
            rng: seeded_rng(seed),
            available_frames: FrameList::new(),
            medium: MediumAllocator::new(),
            small: SmallAllocator::new(),
        }
    }

    /// One allocation served below a bump pointer that has room: where the
    /// slot `idx` holds `key` with a count that can grow, the count grows by
    /// one and `next` is the result; otherwise nothing changes and the result
    /// is `None`.
    pub open spec fn bump_step(
        before: Seq<crate::count_map::Record>,
        after: Seq<crate::count_map::Record>,
        idx: usize,
        key: u64,
        max: u64,
        next: int,
        r: Option<u64>,
    ) -> bool {
        let ok = idx < before.len() && before[idx as int].0 == key && before[idx as int].2 != 0
            && before[idx as int].2 + 1 <= max;
        &&& r == (if ok {
            Some(next as u64)
        } else {
            None
        })
        &&& ok ==> crate::count_map::increment_post(before, idx as int, 1, after)
        &&& !ok ==> after == before
    }

    /// Number of frames in the thread's cache.
    pub fn cached_frames(&self) -> (r: usize)
        ensures
            r == self.cached().len(),
    {
        self.available_frames.count()
    }

    /// One reference fewer on the medium-path page `page`. Where that was the
    /// last, the page is unmapped and its frame cached, and where the page
    /// was the last mapped one of its quantum, the quantum goes back dirty.
    fn drop_page_ref<S: SystemInterface>(&mut self, global: &mut GlobalData<S>, page: u64)
        requires
            old(self).wf(),
            old(global).wf(),
        ensures
            final(self).wf(),
            final(global).wf(),
            final(self).medium == old(self).medium,
            final(self).small == old(self).small,
            final(global).quantum_storage.base() == old(global).quantum_storage.base(),
            kept(old(self).cached(), old(global).available_frames@, final(self).cached(), final(global).available_frames@),
            final(global).region_counts == old(global).region_counts,
            old(global).quantum_storage.unheld().subset_of(final(global).quantum_storage.unheld()),
            final(global).quantum_storage.count() == old(global).quantum_storage.count(),
            forall|qk: u64|
                qk < old(global).quantum_storage.count() && holds_key(old(global).quantum_map@, qk) && !holds_key(
                    final(global).quantum_map@,
                    qk,
                ) ==> #[trigger] final(global).quantum_storage.unheld().contains(qk as int),
            final(global).quantum_storage.available() == old(global).quantum_storage.available(),
            old(global).quantum_storage.released().subset_of(final(global).quantum_storage.released()),
            forall|pg: u64| pg != page ==> #[trigger] final(global).mapped().contains_key(pg) == old(global).mapped().contains_key(pg),
            final(global).mapped().contains_key(page) ==> old(global).mapped().contains_key(page),
            ({
                let in_range = page >= old(global).page_map.base() && fits(
                    ((page - old(global).page_map.base()) / PAGE_SIZE as int) as u64,
                    PAGE_KEY_BITS as u64,
                );
                &&& in_range ==> exists|v: Option<u64>| #[trigger] decrement_post(
                    old(global).page_map@,
                    old(global).page_map.key_of(page as int) as u64,
                    final(global).page_map@,
                    v,
                ) && (v is None ==> final(global).mapped() == old(global).mapped())
                    && (v is Some ==> !final(global).mapped().contains_key(page))
                &&& !in_range ==> final(global).page_map@ == old(global).page_map@ && final(global).mapped() == old(global).mapped()
            }),
    {
        let ghost pm0 = global.page_map@;
        let dec = global.page_map.decrement(page);
        let ghost v = match dec {
            Some(f) => Some(f / PAGE_SIZE),
            None => None,
        };
        match dec {
            Some(frame) => {
                let _ = global.unmap_page(page);
                let ghost m1 = global.mapped();
                self.available_frames.push_with_spill(frame, &mut global.available_frames);
                assert(global.mapped() == m1);
                let ghost m2 = global.mapped();
                let ghost qm1 = global.quantum_map@;
                let ghost st1 = global.quantum_storage;
                proof {
                    st1.lemma_range();
                    assert(qm1 == old(global).quantum_map@);
                    assert(st1 == old(global).quantum_storage);
                }
                if page >= global.quantum_storage.base_exec() {
                    let qk = global.quantum_key(page);
                    let hit = global.quantum_map.decrement(qk);
                    let ghost qm2 = global.quantum_map@;
                    proof {
                        let v = choose|v: Option<u64>| decrement_post(qm1, qk, qm2, v) && hit == v is Some;
                        assert forall|q2: u64| q2 != qk && holds_key(qm1, q2) implies holds_key(qm2, q2) by {
                            let i = choose|i: int| 0 <= i < qm1.len() && qm1[i].2 != 0 && qm1[i].0 == q2;
                            assert(qm2[i] == qm1[i]);
                        }
                        if holds_key(qm1, qk) && !holds_key(qm2, qk) {
                            let j = choose|j: int|
                                0 <= j < qm1.len() && qm1[j].2 != 0 && qm1[j].0 == qk && qm2 == qm1.update(
                                    j,
                                    (qm1[j].0, qm1[j].1, (qm1[j].2 - 1) as u64),
                                ) && v == (if qm1[j].2 == 1 {
                                    Some(qm1[j].1)
                                } else {
                                    None
                                });
                            if qm1[j].2 != 1 {
                                assert(qm2[j].2 != 0 && qm2[j].0 == qk);
                            }
                            assert(hit);
                        }
                    }
                    if hit && VIRTUAL_QUANTUM_SIZE <= page && page < ADDRESS_LIMIT {
                        let qa = QuantumAddress::containing(page);
                        proof {
                            let d = page - st1.base();
                            let qs = VIRTUAL_QUANTUM_SIZE as int;
                            vstd::arithmetic::div_mod::lemma_fundamental_div_mod(d, qs);
                            vstd::arithmetic::div_mod::lemma_fundamental_div_mod(page as int, qs);
                            vstd::arithmetic::div_mod::lemma_fundamental_div_mod(st1.base(), qs);
                            let bq = st1.base() / qs;
                            let pq = (page as int) / qs;
                            assert(qa@ - st1.base() == (pq - bq) * qs) by (nonlinear_arith)
                                requires
                                    qa@ == page - (page as int) % qs,
                                    page == qs * pq + (page as int) % qs,
                                    st1.base() == qs * bq + 0,
                            ;
                            assert(d == (pq - bq) * qs + (page as int) % qs) by (nonlinear_arith)
                                requires
                                    d == page - st1.base(),
                                    page == qs * pq + (page as int) % qs,
                                    st1.base() == qs * bq + 0,
                            ;
                            vstd::arithmetic::div_mod::lemma_fundamental_div_mod_converse(d, qs, pq - bq, (page as int) % qs);
                            vstd::arithmetic::div_mod::lemma_fundamental_div_mod_converse(qa@ - st1.base(), qs, pq - bq, 0);
                            assert(st1.index_of(qa@) == qk);
                            vstd::arithmetic::power2::lemma2_to64();
                            assert(exp2(0) == 1);
                            assert(block(0, qk as int) =~= set![qk as int]);
                        }
                        let done = global.quantum_storage.release_dirty(0, qa);
                        proof {
                            if !done && qk < st1.count() {
                                assert(!block(0, qk as int).disjoint(st1.unheld()));
                                assert(st1.unheld().contains(qk as int));
                            }
                            assert(st1.unheld().subset_of(global.quantum_storage.unheld()));
                        }
                    } else {
                        proof {
                            if hit && qk < st1.count() {
                                assert(page < ADDRESS_LIMIT) by {
                                    let qs = VIRTUAL_QUANTUM_SIZE as int;
                                    vstd::arithmetic::div_mod::lemma_fundamental_div_mod(page - st1.base(), qs);
                                    assert(page - st1.base() < (qk + 1) * qs) by (nonlinear_arith)
                                        requires
                                            page - st1.base() == qs * qk + (page - st1.base()) % qs,
                                            (page - st1.base()) % qs < qs,
                                    ;
                                    assert((qk + 1) * qs <= st1.count() * qs) by (nonlinear_arith)
                                        requires
                                            qk + 1 <= st1.count(),
                                            qs > 0,
                                    ;
                                }
                            }
                        }
                    }
                }
                assert(global.mapped() == m2);
            },
            None => {},
        }
        proof {
            if page >= old(global).page_map.base() && fits(
                ((page - old(global).page_map.base()) / PAGE_SIZE as int) as u64,
                PAGE_KEY_BITS as u64,
            ) {
                assert(decrement_post(pm0, old(global).page_map.key_of(page as int) as u64, global.page_map@, v));
            }
        }
    }

    /// Takes a fresh quantum for the medium path, maps its last page and
    /// puts the bump pointer at its top.
    fn claim_quantum<S: SystemInterface>(&mut self, global: &mut GlobalData<S>) -> (r: Option<()>)
        requires
            old(self).wf(),
            old(global).wf(),
        ensures
            final(self).wf(),
            final(global).wf(),
            final(self).small == old(self).small,
            final(global).quantum_storage.base() == old(global).quantum_storage.base(),
            r is Some ==> final(self).medium.min_address != 0 && final(self).medium.bump == final(self).medium.min_address + VIRTUAL_QUANTUM_SIZE,
            r is Some ==> {
                let q = final(self).medium_quantum();
                &&& QuantumAddress::valid(q)
                &&& final(self).medium_page().0 == q + VIRTUAL_QUANTUM_SIZE - PAGE_SIZE
                &&& final(global).mapped().dom() == old(global).mapped().dom().insert((q + VIRTUAL_QUANTUM_SIZE - PAGE_SIZE) as u64)
                &&& old(global).quantum_storage.unheld().contains(old(global).quantum_storage.index_of(q))
                &&& final(global).quantum_storage.unheld() == old(global).quantum_storage.unheld().remove(
                    old(global).quantum_storage.index_of(q),
                )
            },
            r is None ==> !(old(self).cached().len() + old(global).available_frames@.len() > 0 && frames_fit(old(self).cached())
                && frames_fit(old(global).available_frames@) && (exists|j: int|
                0 <= j < old(global).quantum_map@.len() && #[trigger] old(global).quantum_map@[j].2 == 0) && (exists|j: int|
                0 <= j < old(global).page_map@.len() && #[trigger] old(global).page_map@[j].2 == 0)) || forall|t: int, b: int|
                0 <= t < TOWER_LEVELS && final(global).quantum_storage.available_shape()[t] <= 16
                    ==> !#[trigger] final(global).quantum_storage.available_bits()[t].contains(b),
            r is None ==> {
                &&& final(global).quantum_storage.unheld() == old(global).quantum_storage.unheld()
                &&& forall|pg: u64| #[trigger] final(global).mapped().contains_key(pg) ==> old(global).mapped().contains_key(pg)
            },
    {
        let qa = match global.quantum_storage.allocate(0, &mut self.rng, &mut global.sys) {
            Some(qa) => qa,
            None => return None,
        };
        let ghost idx = old(global).quantum_storage.index_of(qa@);
        proof {
            assert(global.quantum_map@ == old(global).quantum_map@);
            assert(global.page_map@ == old(global).page_map@);
            assert(global.available_frames@ == old(global).available_frames@);
            assert(self.cached() == old(self).cached());
            vstd::arithmetic::power2::lemma2_to64();
            assert(exp2(0) == 1);
            assert(block(0, idx) =~= set![idx]);
            assert(global.quantum_storage.unheld() =~= old(global).quantum_storage.unheld().remove(idx));
        }
        let r = self.install_quantum(global, qa);
        proof {
            if r is None {
                assert(global.quantum_storage.unheld() =~= old(global).quantum_storage.unheld());
            } else {
                assert(global.quantum_storage.unheld() =~= old(global).quantum_storage.unheld().remove(idx));
            }
        }
        r
    }

    /// Maps a cached frame into the last page of the fresh quantum `qa`,
    /// records the page and the quantum in the occupancy maps, and puts the
    /// medium bump pointer at the quantum's top. Where a frame or a map slot
    /// is missing, everything is undone and the quantum goes back clean.
    fn install_quantum<S: SystemInterface>(&mut self, global: &mut GlobalData<S>, qa: QuantumAddress) -> (r: Option<()>)
        requires
            old(self).wf(),
            old(global).wf(),
            qa@ == old(global).quantum_storage.base() + old(global).quantum_storage.index_of(qa@) * VIRTUAL_QUANTUM_SIZE,
            old(global).quantum_storage.index_of(qa@) >= 0,
            old(global).quantum_storage.index_of(qa@) + 1 <= old(global).quantum_storage.count(),
            !old(global).quantum_storage.unheld().contains(old(global).quantum_storage.index_of(qa@)),
        ensures
            final(self).wf(),
            final(global).wf(),
            final(self).small == old(self).small,
            final(global).quantum_storage.base() == old(global).quantum_storage.base(),
            (old(self).cached().len() + old(global).available_frames@.len() > 0 && frames_fit(old(self).cached())
                && frames_fit(old(global).available_frames@) && (exists|j: int|
                0 <= j < old(global).quantum_map@.len() && #[trigger] old(global).quantum_map@[j].2 == 0) && (exists|j: int|
                0 <= j < old(global).page_map@.len() && #[trigger] old(global).page_map@[j].2 == 0)) ==> r is Some,
            r is Some ==> {
                &&& final(self).medium.min_address == qa@
                &&& final(self).medium.bump == qa@ + VIRTUAL_QUANTUM_SIZE
                &&& final(self).medium_page().0 == qa@ + VIRTUAL_QUANTUM_SIZE - PAGE_SIZE
                &&& final(global).mapped().dom() == old(global).mapped().dom().insert((qa@ + VIRTUAL_QUANTUM_SIZE - PAGE_SIZE) as u64)
                &&& final(global).quantum_storage == old(global).quantum_storage
            },
            r is None ==> {
                &&& final(global).quantum_storage.unheld() == old(global).quantum_storage.unheld().insert(
                    old(global).quantum_storage.index_of(qa@),
                )
                &&& forall|pg: u64| #[trigger] final(global).mapped().contains_key(pg) ==> old(global).mapped().contains_key(pg)
            },
    {
        let ghost u0 = old(global).quantum_storage.unheld().insert(old(global).quantum_storage.index_of(qa@));
        let ghost idx = old(global).quantum_storage.index_of(qa@);
        let ghost room = (old(self).cached().len() + old(global).available_frames@.len() > 0 && frames_fit(old(self).cached())
                && frames_fit(old(global).available_frames@) && (exists|j: int|
                0 <= j < old(global).quantum_map@.len() && #[trigger] old(global).quantum_map@[j].2 == 0) && (exists|j: int|
                0 <= j < old(global).page_map@.len() && #[trigger] old(global).page_map@[j].2 == 0));
        proof {
            vstd::arithmetic::power2::lemma2_to64();
            assert(exp2(0) == 1);
            assert(block(0, idx) =~= set![idx]);
            assert(global.quantum_storage.unheld() =~= u0.remove(idx));
            global.quantum_storage.lemma_range();
        }
        let ghost m0 = global.mapped();
        let got = self.available_frames.pop_with_refill(&mut global.available_frames, DEFAULT_REFILL_SIZE);
        assert(global.mapped() == m0);
        let frame = match got {
            Some(f) => f,
            None => {
                global.quantum_storage.release_clean(0, qa);
                proof {
                    assert(global.quantum_storage.unheld() =~= u0);
                }
                return None;
            },
        };
        let start = qa.start();
        let last_page = start + VIRTUAL_QUANTUM_SIZE - PAGE_SIZE;
        global.map_page(last_page, frame);
        let qk = global.quantum_key(start);
        proof {
            let qs = VIRTUAL_QUANTUM_SIZE as int;
            let base = global.quantum_storage.base();
            vstd::arithmetic::div_mod::lemma_fundamental_div_mod_converse(start - base, qs, idx, 0);
            assert(qk == idx);
            assert(idx < 0x80_0000) by (nonlinear_arith)
                requires
                    base >= qs,
                    base + global.quantum_storage.count() * qs <= ADDRESS_LIMIT,
                    idx + 1 <= global.quantum_storage.count(),
                    qs == 0x100_0000,
            ;
            assert((1u64 << 24u64) == 0x100_0000) by (bit_vector);
            if room {
                assert(old(self).cached().contains(frame) || old(global).available_frames@.contains(frame));
                assert(fits(frame / PAGE_SIZE, 20));
            }
        }
        let qi = match global.quantum_map.insert(qk, 1) {
            Some(i) => i,
            None => {
                let _ = global.unmap_page(last_page);
                let ghost m1 = global.mapped();
                self.available_frames.push_with_spill(frame, &mut global.available_frames);
                assert(global.mapped() == m1);
                global.quantum_storage.release_clean(0, qa);
                proof {
                    assert(global.quantum_storage.unheld() =~= u0);
                }
                return None;
            },
        };
        proof {
            let p = PAGE_SIZE as int;
            let base = global.page_map.base();
            assert(last_page - base == (8 * idx + 7) * p);
            vstd::arithmetic::div_mod::lemma_fundamental_div_mod_converse(last_page - base, p, 8 * idx + 7, 0);
            assert((1u64 << 27u64) == 0x800_0000) by (bit_vector);
        }
        let pi = match global.page_map.insert(last_page, frame, 1) {
            Some(i) => i,
            None => {
                let _ = global.quantum_map.decrement(qk);
                let _ = global.unmap_page(last_page);
                let ghost m1 = global.mapped();
                self.available_frames.push_with_spill(frame, &mut global.available_frames);
                assert(global.mapped() == m1);
                global.quantum_storage.release_clean(0, qa);
                proof {
                    assert(global.quantum_storage.unheld() =~= u0);
                }
                return None;
            },
        };
        proof {
            crate::util::lemma_quantum_aligned(start as int);
            vstd::arithmetic::div_mod::lemma_mod_adds(start as int, (VIRTUAL_QUANTUM_SIZE - PAGE_SIZE) as int, PAGE_SIZE as int);
            assert(global.mapped().dom() =~= old(global).mapped().dom().insert(last_page));
        }
        self.medium = MediumAllocator {
            bump: start + VIRTUAL_QUANTUM_SIZE,
            min_address: start,
            current_page: last_page,
            current_page_index: pi,
            current_quantum_index: qi,
        };
        Some(())
    }

    /// Releases the medium path's hold on its quantum.
    fn medium_deinit<S: SystemInterface>(&mut self, global: &mut GlobalData<S>)
        requires
            old(self).wf(),
            old(global).wf(),
        ensures
            final(self).wf(),
            final(global).wf(),
            final(self).medium.min_address == 0,
            final(self).small == old(self).small,
            final(global).quantum_storage.base() == old(global).quantum_storage.base(),
            kept(old(self).cached(), old(global).available_frames@, final(self).cached(), final(global).available_frames@),
    {
        if self.medium.min_address != 0 {
            let page = self.medium.current_page;
            self.drop_page_ref(global, page);
        }
        self.medium = MediumAllocator::new();
    }

    /// Maps a cached frame into each page from `low` up to below `high`, and
    /// records each with one allocation, two for `low`, which becomes the
    /// bump pointer's page. Returns the slot of `low`.
    fn map_pages<S: SystemInterface>(&mut self, global: &mut GlobalData<S>, low: u64, high: u64) -> (r: Option<usize>)
        requires
            old(self).wf(),
            old(global).wf(),
            low <= high,
            low % PAGE_SIZE == 0,
            high % PAGE_SIZE == 0,
            high < ADDRESS_LIMIT,
            old(self).available_frames@.len() * PAGE_SIZE >= high - low,
        ensures
            final(self).wf(),
            final(global).wf(),
            final(self).medium == old(self).medium,
            final(self).small == old(self).small,
            final(global).quantum_storage == old(global).quantum_storage,
            final(global).quantum_map == old(global).quantum_map,
            final(global).region_counts == old(global).region_counts,
            r is Some ==> forall|pg: u64| #[trigger] final(global).mapped().contains_key(pg) == (old(global).mapped().contains_key(pg)
                || in_run(pg as int, low as int, (high - low) / PAGE_SIZE as int)),
            final(global).page_map.base() == old(global).page_map.base(),
            frames_fit(old(self).cached()) && page_room(old(global).page_map, low as int, high as int) ==> r is Some,
            r is Some ==> final(global).page_map@.len() == old(global).page_map@.len(),
            r is Some ==> forall|i: int|
                0 <= i < old(global).page_map@.len() && old(global).page_map@[i].2 != 0
                    ==> #[trigger] final(global).page_map@[i] == old(global).page_map@[i],
            r is Some ==> forall|pg: u64|
                #[trigger] in_run(pg as int, low as int, (high - low) / PAGE_SIZE as int) ==> exists|i: int|
                    0 <= i < final(global).page_map@.len() && #[trigger] final(global).page_map@[i].0
                        == old(global).page_map.key_of(pg as int) as u64 && final(global).page_map@[i].2 == (if pg == low {
                        2u64
                    } else {
                        1u64
                    }),
            r is None ==> forall|pg: u64| #[trigger] final(global).mapped().contains_key(pg) ==> old(global).mapped().contains_key(pg),
    {
        let mut page = high;
        let mut low_index: usize = 0;
        let ghost room = frames_fit(old(self).cached()) && page_room(old(global).page_map, low as int, high as int);
        let ghost mut j: int = 0;
        while page > low
            invariant
                self.wf(),
                global.wf(),
                self.medium == old(self).medium,
                self.small == old(self).small,
                global.quantum_storage == old(global).quantum_storage,
                global.quantum_map == old(global).quantum_map,
                global.region_counts == old(global).region_counts,
                low <= page <= high,
                high < ADDRESS_LIMIT,
                low % PAGE_SIZE == 0,
                page % PAGE_SIZE == 0,
                high % PAGE_SIZE == 0,
                j >= 0,
                page + j * PAGE_SIZE == high,
                self.available_frames@.len() * PAGE_SIZE >= page - low,
                forall|pg: u64| #[trigger] global.mapped().contains_key(pg) == (old(global).mapped().contains_key(pg)
                    || in_run(pg as int, page as int, j)),
                global.page_map.base() == old(global).page_map.base(),
                global.page_map@.len() == old(global).page_map@.len(),
                room == (frames_fit(old(self).cached()) && page_room(old(global).page_map, low as int, high as int)),
                room ==> frames_fit(self.cached()),
                room ==> global.page_map@.len() - occupied_in(global.page_map@) >= (page - low) / PAGE_SIZE as int,
                room ==> low >= global.page_map.base(),
                room ==> (high - global.page_map.base()) / PAGE_SIZE as int <= 0x800_0000,
                forall|i: int|
                    0 <= i < old(global).page_map@.len() && old(global).page_map@[i].2 != 0
                        ==> #[trigger] global.page_map@[i] == old(global).page_map@[i],
                forall|pg: u64|
                    #[trigger] in_run(pg as int, page as int, j) ==> exists|i: int|
                        0 <= i < global.page_map@.len() && #[trigger] global.page_map@[i].0
                            == old(global).page_map.key_of(pg as int) as u64 && global.page_map@[i].2 == (if pg == low {
                            2u64
                        } else {
                            1u64
                        }),
            decreases page - low,
        {
            page = page - PAGE_SIZE;
            let ghost m0 = global.mapped();
            let ghost c0 = self.cached();
            let frame = self.available_frames.pop().unwrap();
            assert(global.mapped() == m0);
            proof {
                if room {
                    assert(c0.contains(frame)) by {
                        assert(c0[c0.len() - 1] == frame);
                    }
                    assert forall|f2: u64| self.cached().contains(f2) implies #[trigger] fits(f2 / PAGE_SIZE, 20) by {
                        let i = choose|i: int| 0 <= i < self.cached().len() && self.cached()[i] == f2;
                        assert(c0[i] == f2);
                    }
                    let p = PAGE_SIZE as int;
                    let base = global.page_map.base();
                    global.page_map.lemma_base();
                    vstd::arithmetic::div_mod::lemma_fundamental_div_mod(page - base, p);
                    vstd::arithmetic::div_mod::lemma_fundamental_div_mod(high - base, p);
                    vstd::arithmetic::div_mod::lemma_fundamental_div_mod(page + p - low, p);
                    vstd::arithmetic::div_mod::lemma_fundamental_div_mod(page - low, p);
                    let q1 = (page - base) / p;
                    let q2 = (high - base) / p;
                    assert(q1 < q2) by (nonlinear_arith)
                        requires
                            page - base == p * q1 + (page - base) % p,
                            high - base == p * q2 + (high - base) % p,
                            0 <= (page - base) % p < p,
                            0 <= (high - base) % p < p,
                            page + p <= high,
                            p > 0,
                    ;
                    assert((1u64 << 27u64) == 0x800_0000) by (bit_vector);
                    assert(0 <= q1);
                    assert((q1 as u64) as int == q1);
                    assert(fits((q1 as u64), PAGE_KEY_BITS as u64));
                    let r1 = (page + p - low) / p;
                    let r0 = (page - low) / p;
                    assert(page - low == (page + p - low) - p);
                    assert(r0 == r1 - 1) by {
                        vstd::arithmetic::div_mod::lemma_fundamental_div_mod_converse(page - low, p, r1 - 1, (page + p - low) % p);
                    }
                    assert(r1 >= 1) by {
                        assert(page + p - low >= p);
                    }
                    lemma_occupied_has_empty(global.page_map@);
                }
            }
            global.map_page(page, frame);
            proof {
                assert forall|pg: u64| #[trigger] global.mapped().contains_key(pg) == (old(global).mapped().contains_key(pg)
                    || in_run(pg as int, page as int, j + 1)) by {
                    vstd::arithmetic::div_mod::lemma_mod_multiples_basic(j, PAGE_SIZE as int);
                    if pg as int == page as int {
                        vstd::arithmetic::div_mod::lemma_mod_multiples_basic(0, PAGE_SIZE as int);
                    } else if in_run(pg as int, page as int, j + 1) {
                        assert(pg >= page + PAGE_SIZE) by {
                            if pg < page + PAGE_SIZE {
                                crate::util::lemma_align_down_below((pg - page) as int, 0, PAGE_SIZE as int);
                            }
                        }
                        vstd::arithmetic::div_mod::lemma_mod_sub_multiples_vanish((pg - page) as int, PAGE_SIZE as int);
                    } else if in_run(pg as int, page + PAGE_SIZE, j) {
                        vstd::arithmetic::div_mod::lemma_mod_add_multiples_vanish((pg - page - PAGE_SIZE) as int, PAGE_SIZE as int);
                    }
                }
                j = j + 1;
            }
            let count: u64 = if page == low {
                2
            } else {
                1
            };
            let ghost pmb = global.page_map@;
            match global.page_map.insert(page, frame, count) {
                Some(i) => {
                    proof {
                        if room {
                            lemma_occupied_fill(pmb, i as int, (old(global).page_map.key_of(page as int) as u64, frame / PAGE_SIZE, count));
                        }
                        let pma = global.page_map@;
                        assert forall|i2: int|
                            0 <= i2 < old(global).page_map@.len() && old(global).page_map@[i2].2 != 0
                                implies #[trigger] pma[i2] == old(global).page_map@[i2] by {
                            assert(i2 != i as int);
                        }
                        assert forall|pg: u64| #[trigger] in_run(pg as int, page as int, j) implies exists|i3: int|
                            0 <= i3 < pma.len() && #[trigger] pma[i3].0 == old(global).page_map.key_of(pg as int) as u64
                                && pma[i3].2 == (if pg == low {
                                2u64
                            } else {
                                1u64
                            }) by {
                            if pg as int == page as int {
                                assert(pma[i as int].0 == old(global).page_map.key_of(pg as int) as u64);
                            } else {
                                assert(in_run(pg as int, page + PAGE_SIZE, j - 1)) by {
                                    vstd::arithmetic::div_mod::lemma_mod_multiples_basic(j - 1, PAGE_SIZE as int);
                                    if pg < page + PAGE_SIZE {
                                        crate::util::lemma_align_down_below((pg - page) as int, 0, PAGE_SIZE as int);
                                    }
                                    vstd::arithmetic::div_mod::lemma_mod_sub_multiples_vanish((pg - page) as int, PAGE_SIZE as int);
                                }
                                let i4 = choose|i4: int|
                                    0 <= i4 < pmb.len() && #[trigger] pmb[i4].0 == old(global).page_map.key_of(pg as int) as u64
                                        && pmb[i4].2 == (if pg == low {
                                        2u64
                                    } else {
                                        1u64
                                    });
                                assert(i4 != i as int);
                                assert(pma[i4] == pmb[i4]);
                            }
                        }
                    }
                    if page == low {
                        low_index = i;
                    }
                },
                None => {
                    let _ = global.unmap_page(page);
                    let ghost m1 = global.mapped();
                    self.available_frames.push_with_spill(frame, &mut global.available_frames);
                    assert(global.mapped() == m1);
                    proof {
                        assert forall|pg: u64| #[trigger] global.mapped().contains_key(pg) implies (old(global).mapped().contains_key(pg)
                            || in_run(pg as int, page + PAGE_SIZE, j - 1)) by {
                            if in_run(pg as int, page as int, j) && pg != page {
                                assert(pg >= page + PAGE_SIZE) by {
                                    if pg < page + PAGE_SIZE {
                                        crate::util::lemma_align_down_below((pg - page) as int, 0, PAGE_SIZE as int);
                                    }
                                }
                                vstd::arithmetic::div_mod::lemma_mod_sub_multiples_vanish((pg - page) as int, PAGE_SIZE as int);
                            }
                        }
                    }
                    let n = (high - page) / PAGE_SIZE - 1;
                    proof {
                        assert((high - page) == j * PAGE_SIZE);
                        assert(n == j - 1);
                    }
                    self.unmap_run(global, page + PAGE_SIZE, n);
                    return None;
                },
            }
        }
        proof {
            assert(page == low);
            assert(j == (high - low) / PAGE_SIZE as int);
        }
        Some(low_index)
    }

    /// Takes back the `n` pages from `from` on that `map_pages` had recorded:
    /// each loses its record, is unmapped, and its frame is cached.
    fn unmap_run<S: SystemInterface>(&mut self, global: &mut GlobalData<S>, from: u64, n: u64)
        requires
            old(self).wf(),
            old(global).wf(),
            from + n * PAGE_SIZE <= ADDRESS_LIMIT,
        ensures
            final(self).wf(),
            final(global).wf(),
            final(self).medium == old(self).medium,
            final(self).small == old(self).small,
            final(global).quantum_storage == old(global).quantum_storage,
            final(global).quantum_map == old(global).quantum_map,
            final(global).region_counts == old(global).region_counts,
            forall|pg: u64| #[trigger] final(global).mapped().contains_key(pg) == (old(global).mapped().contains_key(pg)
                && !in_run(pg as int, from as int, n as int)),
    {
        let mut page = from;
        let mut k: u64 = 0;
        while k < n
            invariant
                self.wf(),
                global.wf(),
                self.medium == old(self).medium,
                self.small == old(self).small,
                global.quantum_storage == old(global).quantum_storage,
                global.quantum_map == old(global).quantum_map,
                global.region_counts == old(global).region_counts,
                0 <= k <= n,
                page == from + k * PAGE_SIZE,
                from + n * PAGE_SIZE <= ADDRESS_LIMIT,
                forall|pg: u64| #[trigger] global.mapped().contains_key(pg) == (old(global).mapped().contains_key(pg)
                    && !in_run(pg as int, from as int, k as int)),
            decreases n - k,
        {
            let ghost m0 = global.mapped();
            let _ = global.page_map.decrement(page);
            assert(global.mapped() == m0);
            let f = global.unmap_page(page);
            proof {
                assert forall|pg: u64| #[trigger] global.mapped().contains_key(pg) == (old(global).mapped().contains_key(pg)
                    && !in_run(pg as int, from as int, k + 1)) by {
                    vstd::arithmetic::div_mod::lemma_mod_multiples_basic(k as int, PAGE_SIZE as int);
                    if pg != page && in_run(pg as int, from as int, k + 1) && !in_run(pg as int, from as int, k as int) {
                        crate::util::lemma_align_down_below((pg - from) as int, (page - from) as int, PAGE_SIZE as int);
                    }
                }
            }
            k = k + 1;
            let ghost m1 = global.mapped();
            self.available_frames.push_with_spill(f, &mut global.available_frames);
            assert(global.mapped() == m1);
            page = page + PAGE_SIZE;
        }
    }

    /// Serves `0 < size <= MAX_MEDIUM_SIZE` bytes from the current quantum,
    /// mapping frames into the pages that the allocation reaches and taking a
    /// new quantum where it does not fit. The allocation never leaves its
    /// quantum.
    fn alloc_medium<S: SystemInterface>(&mut self, global: &mut GlobalData<S>, size: u64, align: u64) -> (r: Option<u64>)
        requires
            old(self).wf(),
            old(global).wf(),
            0 < size <= MAX_MEDIUM_SIZE,
            is_pow2(align),
            align <= PAGE_SIZE,
        ensures
            final(self).wf(),
            final(global).wf(),
            final(self).small == old(self).small,
            final(global).quantum_storage.base() == old(global).quantum_storage.base(),
            r matches Some(p) ==> {
                &&& p % align == 0
                &&& QuantumAddress::valid(final(self).medium.quantum())
                &&& final(self).medium.quantum() <= p
                &&& p + size <= final(self).medium.quantum() + VIRTUAL_QUANTUM_SIZE
            },
            ({
                let next = crate::util::align_down_spec(old(self).medium_bump() - size, align as int);
                let cp = old(self).medium_page().0;
                old(self).medium_fits(size, align) && crate::util::align_down_spec(next, PAGE_SIZE as int) == cp
                    ==> {
                    &&& (cp >= old(global).page_map.base() && fits(
                        ((cp - old(global).page_map.base()) / PAGE_SIZE as int) as u64,
                        PAGE_KEY_BITS as u64,
                    )) ==> Self::bump_step(
                        old(global).page_map@,
                        final(global).page_map@,
                        old(self).medium_page().1,
                        old(global).page_map.key_of(cp as int) as u64,
                        0x8000,
                        next,
                        r,
                    )
                    &&& !(cp >= old(global).page_map.base() && fits(
                        ((cp - old(global).page_map.base()) / PAGE_SIZE as int) as u64,
                        PAGE_KEY_BITS as u64,
                    )) ==> r is None && final(global).page_map@ == old(global).page_map@
                    &&& final(global).mapped() == old(global).mapped()
                    &&& final(global).available_frames == old(global).available_frames
                    &&& final(global).quantum_map == old(global).quantum_map
                    &&& final(global).region_counts == old(global).region_counts
                    &&& final(global).quantum_storage == old(global).quantum_storage
                    &&& final(self).cached() == old(self).cached()
                    &&& (r is Some ==> final(self).medium_bump() == r->0 && final(self).medium_quantum()
                        == old(self).medium_quantum())
                }
            }),
            old(self).medium_fits(size, align) && r is Some ==> r->0 == crate::util::align_down_spec(
                old(self).medium_bump() - size,
                align as int,
            ) && final(self).medium_quantum() == old(self).medium_quantum(),
            !old(self).medium_fits(size, align) && r is Some ==> r->0 == crate::util::align_down_spec(
                final(self).medium_quantum() + VIRTUAL_QUANTUM_SIZE - size,
                align as int,
            ),
            old(self).medium_fits(size, align) && r is Some ==> forall|pg: u64|
                #[trigger] in_run(
                    pg as int,
                    crate::util::align_down_spec(r->0 as int, PAGE_SIZE as int),
                    (old(self).medium_page().0 - crate::util::align_down_spec(r->0 as int, PAGE_SIZE as int)) / PAGE_SIZE as int,
                ) ==> final(global).mapped().contains_key(pg),
            ({
                let next = crate::util::align_down_spec(old(self).medium_bump() - size, align as int);
                let cp = old(self).medium_page().0;
                let mp = crate::util::align_down_spec(next, PAGE_SIZE as int);
                old(self).medium_fits(size, align) && mp != cp && r is Some ==> {
                    &&& (mp >= old(global).page_map.base() ==> forall|pg: u64|
                        #[trigger] in_run(pg as int, mp, (cp - mp) / PAGE_SIZE as int) ==> exists|i: int|
                            0 <= i < final(global).page_map@.len() && #[trigger] final(global).page_map@[i].0
                                == old(global).page_map.key_of(pg as int) as u64 && final(global).page_map@[i].2 == (if pg == mp {
                                2u64
                            } else {
                                1u64
                            }))
                    &&& (crate::util::align_down_spec(next + size - 1, PAGE_SIZE as int) == cp ==> increment_post(
                        old(global).quantum_map@,
                        old(self).medium_quantum_slot() as int,
                        ((cp - mp) / PAGE_SIZE as int) as u64,
                        final(global).quantum_map@,
                    ))
                }
            }),
            ({
                let next = crate::util::align_down_spec(old(self).medium_bump() - size, align as int);
                let cp = old(self).medium_page().0;
                let mp = crate::util::align_down_spec(next, PAGE_SIZE as int);
                let missing = (cp - mp) / PAGE_SIZE as int;
                let qm = old(global).quantum_map@;
                let qi = old(self).medium_quantum_slot() as int;
                let qkey = if mp >= old(global).quantum_storage.base() {
                    ((mp - old(global).quantum_storage.base()) / VIRTUAL_QUANTUM_SIZE as int) as u64
                } else {
                    0u64
                };
                old(self).medium_fits(size, align) && mp != cp && old(self).cached().len()
                    + old(global).available_frames@.len() >= missing && frames_fit(old(self).cached())
                    && frames_fit(old(global).available_frames@) && 0 <= qi < qm.len() && qm[qi].0 == qkey
                    && qm[qi].2 != 0 && qm[qi].2 + missing <= 8 && page_room(old(global).page_map, mp, cp as int)
                    ==> r == Some(next as u64)
            }),
    {
        if !self.medium.fits(size, align) {
            self.medium_deinit(global);
            if self.claim_quantum(global).is_none() {
                return None;
            }
            proof {
                crate::util::lemma_align_down((self.medium.bump - size) as u64, align);
            }
        }
        let new_bump = align_down(self.medium.bump - size, align);
        proof {
            vstd::arithmetic::power2::lemma2_to64();
            assert(is_pow2(PAGE_SIZE)) by {
                assert(PAGE_SIZE == vstd::arithmetic::power2::pow2(21));
            }
        }
        let min_page = align_down(new_bump, PAGE_SIZE);
        let cp = self.medium.current_page;
        proof {
            crate::util::lemma_align_down_below(new_bump as int, cp as int, PAGE_SIZE as int);
            crate::util::lemma_quantum_aligned(self.medium.min_address as int);
            crate::util::lemma_align_down_above(new_bump as int, self.medium.min_address as int, PAGE_SIZE as int);
        }
        if min_page == cp {
            proof {
                if cp >= global.page_map.base() {
                    global.page_map.lemma_base();
                    let d = cp - global.page_map.base();
                    let x = d / PAGE_SIZE as int;
                    vstd::arithmetic::div_mod::lemma_fundamental_div_mod(d, PAGE_SIZE as int);
                    assert(0 <= x <= cp);
                    assert((x as u64) as int == x);
                }
            }
            if !global.page_map.increment_at(self.medium.current_page_index, cp) {
                return None;
            }
            self.medium.bump = new_bump;
            return Some(new_bump);
        }
        let missing = (cp - min_page) / PAGE_SIZE;
        proof {
            assert(min_page % PAGE_SIZE == 0);
            assert(cp % PAGE_SIZE == 0);
            assert((cp - min_page) % (PAGE_SIZE as int) == 0) by {
                vstd::arithmetic::div_mod::lemma_sub_mod_noop(cp as int, min_page as int, PAGE_SIZE as int);
            }
            assert(missing * PAGE_SIZE == cp - min_page);
        }
        let ghost c0 = self.cached();
        let ghost p0 = global.available_frames@;
        if self.available_frames.steal_from_vec(&mut global.available_frames, missing as usize).is_none() {
            return None;
        }
        proof {
            if frames_fit(c0) && frames_fit(p0) {
                assert forall|f2: u64| self.cached().contains(f2) implies #[trigger] fits(f2 / PAGE_SIZE, 20) by {
                    let i = choose|i: int| 0 <= i < self.cached().len() && self.cached()[i] == f2;
                    if i < c0.len() {
                        assert(self.cached().subrange(0, c0.len() as int)[i] == f2);
                        assert(c0.contains(f2));
                    } else {
                        assert(p0.contains(f2)) by {
                            assert(p0[p0.len() - 1 - (i - c0.len())] == f2);
                        }
                    }
                }
            }
        }
        let qk = if min_page >= global.quantum_storage.base_exec() {
            global.quantum_key(min_page)
        } else {
            0
        };
        if !global.quantum_map.increment_at(self.medium.current_quantum_index, qk, missing) {
            return None;
        }
        let min_index = match self.map_pages(global, min_page, cp) {
            Some(i) => i,
            None => {
                let mut undone: u64 = 0;
                while undone < missing
                    invariant
                        self.wf(),
                        global.wf(),
                        self.small == old(self).small,
                        global.quantum_storage.base() == old(global).quantum_storage.base(),
                    decreases missing - undone,
                {
                    let _ = global.quantum_map.decrement(qk);
                    undone = undone + 1;
                }
                return None;
            },
        };
        let end_page = align_down(new_bump + size - 1, PAGE_SIZE);
        let ghost m_mapped = global.mapped();
        let ghost pm_mid = global.page_map@;
        let ghost qm_mid = global.quantum_map@;
        if end_page != cp {
            self.drop_page_ref(global, cp);
        }
        proof {
            let base = global.page_map.base();
            global.page_map.lemma_base();
            if min_page >= base {
                assert forall|pg: u64| #[trigger] in_run(pg as int, min_page as int, missing as int) implies exists|i: int|
                    0 <= i < global.page_map@.len() && #[trigger] global.page_map@[i].0
                        == old(global).page_map.key_of(pg as int) as u64 && global.page_map@[i].2 == (if pg == min_page {
                        2u64
                    } else {
                        1u64
                    }) by {
                    let i = choose|i: int|
                        0 <= i < pm_mid.len() && #[trigger] pm_mid[i].0 == old(global).page_map.key_of(pg as int) as u64
                            && pm_mid[i].2 == (if pg == min_page {
                            2u64
                        } else {
                            1u64
                        });
                    if end_page != cp && page_in_map(old(global).page_map, cp) {
                        vstd::arithmetic::div_mod::lemma_sub_mod_noop(min_page as int, base, PAGE_SIZE as int);
                        lemma_run_key(base, min_page as int, pg as int);
                        lemma_run_key(base, min_page as int, cp as int);
                        vstd::arithmetic::div_mod::lemma_fundamental_div_mod((pg - min_page) as int, PAGE_SIZE as int);
                        vstd::arithmetic::div_mod::lemma_fundamental_div_mod((cp - min_page) as int, PAGE_SIZE as int);
                        vstd::arithmetic::div_mod::lemma_fundamental_div_mod((pg - base) as int, PAGE_SIZE as int);
                        vstd::arithmetic::div_mod::lemma_fundamental_div_mod((cp - base) as int, PAGE_SIZE as int);
                        let kp = old(global).page_map.key_of(pg as int);
                        let kc = old(global).page_map.key_of(cp as int);
                        assert(kp < kc);
                        assert(0 <= kp && kc <= cp);
                        assert((kp as u64) != (kc as u64));
                        let after = global.page_map@;
                        let v = choose|v: Option<u64>| #[trigger] decrement_post(pm_mid, kc as u64, after, v)
                            && (v is None ==> global.mapped() == m_mapped) && (v is Some ==> !global.mapped().contains_key(cp));
                        if holds_key(pm_mid, kc as u64) {
                            let j = choose|j: int|
                                0 <= j < pm_mid.len() && pm_mid[j].2 != 0 && pm_mid[j].0 == kc as u64 && after == pm_mid.update(
                                    j,
                                    (pm_mid[j].0, pm_mid[j].1, (pm_mid[j].2 - 1) as u64),
                                ) && v == (if pm_mid[j].2 == 1 {
                                    Some(pm_mid[j].1)
                                } else {
                                    None
                                });
                            assert(i != j);
                            assert(after[i] == pm_mid[i]);
                        }
                    }
                    assert(global.page_map@[i] == pm_mid[i]);
                }
            }
        }
        proof {
            assert forall|pg: u64| #[trigger] in_run(pg as int, min_page as int, missing as int) implies global.mapped().contains_key(pg) by {
                assert(m_mapped.contains_key(pg));
                assert(pg < cp);
            }
        }
        proof {
            crate::util::lemma_align_down_above(new_bump as int, self.medium.min_address as int, PAGE_SIZE as int);
        }
        self.medium.current_page = min_page;
        self.medium.current_page_index = min_index;
        self.medium.bump = new_bump;
        Some(new_bump)
    }

    /// Frees a medium allocation of `size` bytes at `ptr`: one reference
    /// fewer on each page it covers.
    fn dealloc_medium<S: SystemInterface>(&mut self, global: &mut GlobalData<S>, ptr: u64, size: u64)
        requires
            old(self).wf(),
            old(global).wf(),
            0 < size <= MAX_REQUEST_SIZE,
            ptr < ADDRESS_LIMIT,
        ensures
            final(self).wf(),
            final(global).wf(),
            final(self).medium == old(self).medium,
            final(self).small == old(self).small,
            final(global).quantum_storage.base() == old(global).quantum_storage.base(),
            final(global).region_counts == old(global).region_counts,
            old(global).quantum_storage.unheld().subset_of(final(global).quantum_storage.unheld()),
            forall|qk: u64|
                qk < old(global).quantum_storage.count() && holds_key(old(global).quantum_map@, qk) && !holds_key(
                    final(global).quantum_map@,
                    qk,
                ) ==> #[trigger] final(global).quantum_storage.unheld().contains(qk as int),
            final(global).quantum_storage.available() == old(global).quantum_storage.available(),
            old(global).quantum_storage.released().subset_of(final(global).quantum_storage.released()),
            forall|pg: u64| #[trigger] final(global).mapped().contains_key(pg) ==> old(global).mapped().contains_key(pg),
            forall|pg: u64|
                (pg < crate::util::align_down_spec(ptr as int, PAGE_SIZE as int) || pg >= ptr + size)
                    ==> #[trigger] final(global).mapped().contains_key(pg) == old(global).mapped().contains_key(pg),
            forall|pg: u64|
                crate::util::align_down_spec(ptr as int, PAGE_SIZE as int) <= pg < ptr + size && (pg
                    - crate::util::align_down_spec(ptr as int, PAGE_SIZE as int)) % (PAGE_SIZE as int) == 0
                    && page_in_map(old(global).page_map, pg) && holds_key(
                    old(global).page_map@,
                    old(global).page_map.key_of(pg as int) as u64,
                ) && !holds_key(final(global).page_map@, old(global).page_map.key_of(pg as int) as u64)
                    ==> !#[trigger] final(global).mapped().contains_key(pg),
    {
        proof {
            vstd::arithmetic::power2::lemma2_to64();
            assert(is_pow2(PAGE_SIZE)) by {
                assert(PAGE_SIZE == vstd::arithmetic::power2::pow2(21));
            }
        }
        let first = align_down(ptr, PAGE_SIZE);
        let mut page = first;
        let end = ptr + size;
        let ghost pm0 = global.page_map;
        let ghost base = global.page_map.base();
        let ghost k0 = (first - base) / (PAGE_SIZE as int);
        let ghost mut k: int = 0;
        proof {
            global.page_map.lemma_base();
            vstd::arithmetic::div_mod::lemma_sub_mod_noop(first as int, base, PAGE_SIZE as int);
        }
        while page < end
            invariant
                self.wf(),
                global.wf(),
                self.medium == old(self).medium,
                self.small == old(self).small,
                global.quantum_storage.base() == old(global).quantum_storage.base(),
                global.region_counts == old(global).region_counts,
                global.quantum_storage.available() == old(global).quantum_storage.available(),
                old(global).quantum_storage.released().subset_of(global.quantum_storage.released()),
                end == ptr + size,
                end <= ADDRESS_LIMIT + MAX_REQUEST_SIZE,
                first <= page <= end + PAGE_SIZE,
                first == crate::util::align_down_spec(ptr as int, PAGE_SIZE as int),
                forall|pg: u64| #[trigger] global.mapped().contains_key(pg) ==> old(global).mapped().contains_key(pg),
                forall|pg: u64|
                    (pg < first || pg >= page || pg >= end) ==> #[trigger] global.mapped().contains_key(pg) == old(global).mapped().contains_key(pg),
                pm0 == old(global).page_map,
                global.quantum_storage.count() == old(global).quantum_storage.count(),
                old(global).quantum_storage.unheld().subset_of(global.quantum_storage.unheld()),
                forall|qk: u64|
                    qk < old(global).quantum_storage.count() && holds_key(old(global).quantum_map@, qk) && !holds_key(
                        global.quantum_map@,
                        qk,
                    ) ==> #[trigger] global.quantum_storage.unheld().contains(qk as int),
                base == pm0.base(),
                0 <= base,
                global.page_map.base() == base,
                (first - base) % (PAGE_SIZE as int) == 0,
                k0 == (first - base) / (PAGE_SIZE as int),
                k >= 0,
                page == first + k * PAGE_SIZE,
                global.page_map@.len() == pm0@.len(),
                forall|i: int| 0 <= i < pm0@.len() ==> #[trigger] global.page_map@[i].0 == pm0@[i].0,
                forall|i: int|
                    0 <= i < pm0@.len() && !(k0 <= pm0@[i].0 < k0 + k) ==> #[trigger] global.page_map@[i] == pm0@[i],
                forall|pg: u64|
                    first <= pg < page && pg < end && (pg - first) % (PAGE_SIZE as int) == 0 && page_in_map(pm0, pg)
                        && holds_key(pm0@, pm0.key_of(pg as int) as u64) && !holds_key(
                        global.page_map@,
                        pm0.key_of(pg as int) as u64,
                    ) ==> !#[trigger] global.mapped().contains_key(pg),
            decreases end + PAGE_SIZE - page,
        {
            let ghost before = global.page_map@;
            let ghost mb = global.mapped();
            let ghost qb = global.quantum_map@;
            let ghost ub = global.quantum_storage.unheld();
            self.drop_page_ref(global, page);
            proof {
                assert forall|qk: u64|
                    qk < old(global).quantum_storage.count() && holds_key(old(global).quantum_map@, qk) && !holds_key(
                        global.quantum_map@,
                        qk,
                    ) implies #[trigger] global.quantum_storage.unheld().contains(qk as int) by {
                    if holds_key(qb, qk) {
                    } else {
                        assert(ub.contains(qk as int));
                    }
                }
                let kk = k0 + k;
                lemma_run_key(base, first as int, page as int);
                vstd::arithmetic::div_mod::lemma_mod_multiples_basic(k, PAGE_SIZE as int);
                assert((page - first) / (PAGE_SIZE as int) == k) by {
                    vstd::arithmetic::div_mod::lemma_fundamental_div_mod_converse((page - first) as int, PAGE_SIZE as int, k, 0);
                }
                assert(pm0.key_of(page as int) == kk);
                let after = global.page_map@;
                if page_in_map(pm0, page) {
                    let v = choose|v: Option<u64>| #[trigger] decrement_post(before, kk as u64, after, v)
                        && (v is None ==> global.mapped() == mb) && (v is Some ==> !global.mapped().contains_key(page));
                    assert((1u64 << 27u64) == 0x800_0000) by (bit_vector);
                    let dd = page - base;
                    assert(dd >= 0);
                    vstd::arithmetic::div_mod::lemma_fundamental_div_mod(dd, PAGE_SIZE as int);
                    assert(kk == dd / (PAGE_SIZE as int));
                    assert(0 <= kk);
                    assert(kk <= dd);
                    assert((kk as u64) as int == kk);
                    assert(0 <= kk < 0x800_0000);
                    if holds_key(before, kk as u64) {
                        let j = choose|j: int|
                            0 <= j < before.len() && before[j].2 != 0 && before[j].0 == kk as u64 && after == before.update(
                                j,
                                (before[j].0, before[j].1, (before[j].2 - 1) as u64),
                            ) && v == (if before[j].2 == 1 {
                                Some(before[j].1)
                            } else {
                                None
                            });
                        assert forall|i: int| 0 <= i < pm0@.len() && !(k0 <= pm0@[i].0 < k0 + k + 1) implies #[trigger] after[i] == pm0@[i] by {
                            assert(i != j);
                        }
                        assert forall|pg: u64|
                            first <= pg < page + PAGE_SIZE && pg < end && (pg - first) % (PAGE_SIZE as int) == 0 && page_in_map(pm0, pg)
                                && holds_key(pm0@, pm0.key_of(pg as int) as u64) && !holds_key(after, pm0.key_of(pg as int) as u64)
                                implies !#[trigger] global.mapped().contains_key(pg) by {
                            lemma_run_key(base, first as int, pg as int);
                            let jj = (pg - first) / (PAGE_SIZE as int);
                            vstd::arithmetic::div_mod::lemma_fundamental_div_mod((pg - first) as int, PAGE_SIZE as int);
                            if pg == page {
                                if before[j].2 != 1 {
                                    assert(after[j].2 != 0 && after[j].0 == kk as u64);
                                }
                            } else {
                                assert(pg < page) by {
                                    if pg > page {
                                        crate::util::lemma_align_down_below((pg - first) as int, (page - first) as int, PAGE_SIZE as int);
                                    }
                                }
                                assert(jj < k);
                                if holds_key(before, pm0.key_of(pg as int) as u64) {
                                    let i = choose|i: int| 0 <= i < before.len() && before[i].2 != 0 && before[i].0 == pm0.key_of(pg as int) as u64;
                                    assert(i != j);
                                    assert(after[i] == before[i]);
                                }
                            }
                        }
                    } else {
                        assert(after == before);
                        assert forall|pg: u64|
                            first <= pg < page + PAGE_SIZE && pg < end && (pg - first) % (PAGE_SIZE as int) == 0 && page_in_map(pm0, pg)
                                && holds_key(pm0@, pm0.key_of(pg as int) as u64) && !holds_key(after, pm0.key_of(pg as int) as u64)
                                implies !#[trigger] global.mapped().contains_key(pg) by {
                            if pg == page {
                                lemma_run_key(base, first as int, pg as int);
                                let i = choose|i: int| 0 <= i < pm0@.len() && pm0@[i].2 != 0 && pm0@[i].0 == kk as u64;
                                assert(before[i] == pm0@[i]);
                            }
                        }
                    }
                } else {
                    assert(after == before);
                    assert(global.mapped() == mb);
                }
                k = k + 1;
            }
            page = page + PAGE_SIZE;
        }
        let ghost m1 = global.mapped();
        self.available_frames.release_extra_to_vec(&mut global.available_frames);
        assert(global.mapped() == m1);
    }

    /// Takes a frame for the small path and starts its bump pointer at the
    /// top of the frame's direct-map address range.
    fn claim_region<S: SystemInterface>(&mut self, global: &mut GlobalData<S>) -> (r: Option<()>)
        requires
            old(self).wf(),
            old(global).wf(),
            old(self).small.region == 0,
        ensures
            final(self).wf(),
            final(global).wf(),
            final(self).medium == old(self).medium,
            final(global).quantum_storage.base() == old(global).quantum_storage.base(),
            final(global).mapped() == old(global).mapped(),
            final(global).page_map == old(global).page_map,
            final(global).quantum_map == old(global).quantum_map,
            final(global).quantum_storage == old(global).quantum_storage,
            r is Some ==> final(self).small.region != 0 && final(self).small.bump == final(self).small.region + PAGE_SIZE,
    {
        let frame = match self.available_frames.pop_with_refill(&mut global.available_frames, 1) {
            Some(f) => f,
            None => return None,
        };
        let region = global.sys.vaddr(frame);
        let key = frame / PAGE_SIZE;
        if region == 0 || region % PAGE_SIZE != 0 || region > u64::MAX - PAGE_SIZE || !crate::packed::check_width(key, 27) {
            self.available_frames.push_with_spill(frame, &mut global.available_frames);
            return None;
        }
        proof {
            assert((1u64 << 31u64) == 0x8000_0000) by (bit_vector);
            assert(0 < (1u64 << 1u64)) by (bit_vector);
        }
        let index = match global.region_counts.insert(key, 0, 1) {
            Some(i) => i,
            None => {
                self.available_frames.push_with_spill(frame, &mut global.available_frames);
                return None;
            },
        };
        self.small = SmallAllocator { bump: region + PAGE_SIZE, region, frame_key: key, region_index: index };
        Some(())
    }

    /// One reference fewer on the small-path frame at direct-map address
    /// `region`; the frame behind it comes from the system's `paddr`.
    fn drop_region_ref<S: SystemInterface>(&mut self, global: &mut GlobalData<S>, region: u64)
        requires
            old(self).wf(),
            old(global).wf(),
        ensures
            final(self).wf(),
            final(global).wf(),
            final(self).medium == old(self).medium,
            final(self).small == old(self).small,
            final(global).quantum_storage.base() == old(global).quantum_storage.base(),
            kept(old(self).cached(), old(global).available_frames@, final(self).cached(), final(global).available_frames@),
            final(global).mapped() == old(global).mapped(),
            final(global).page_map == old(global).page_map,
            final(global).quantum_map == old(global).quantum_map,
            final(global).quantum_storage == old(global).quantum_storage,
            exists|frame: u64| #[trigger] region_freed(
                old(global).region_counts@,
                final(global).region_counts@,
                old(self).cached(),
                old(global).available_frames@,
                final(self).cached(),
                final(global).available_frames@,
                frame,
            ),
    {
        let frame = global.sys.paddr(region);
        self.release_region_frame(global, frame);
    }

    /// One reference fewer on the small-path frame `frame`; where that was
    /// the last, the frame goes back to the cache.
    fn release_region_frame<S: SystemInterface>(&mut self, global: &mut GlobalData<S>, frame: u64)
        requires
            old(self).wf(),
            old(global).wf(),
        ensures
            final(self).wf(),
            final(global).wf(),
            final(self).medium == old(self).medium,
            final(self).small == old(self).small,
            final(global).quantum_storage.base() == old(global).quantum_storage.base(),
            kept(old(self).cached(), old(global).available_frames@, final(self).cached(), final(global).available_frames@),
            final(global).mapped() == old(global).mapped(),
            final(global).page_map == old(global).page_map,
            final(global).quantum_map == old(global).quantum_map,
            final(global).quantum_storage == old(global).quantum_storage,
            region_freed(
                old(global).region_counts@,
                final(global).region_counts@,
                old(self).cached(),
                old(global).available_frames@,
                final(self).cached(),
                final(global).available_frames@,
                frame,
            ),
    {
        let key = frame / PAGE_SIZE;
        if !crate::packed::check_width(key, 27) {
            return;
        }
        let ghost rc0 = global.region_counts@;
        let v = global.region_counts.decrement(key);
        if v.is_some() {
            let ghost c1 = self.cached();
            self.available_frames.push_with_spill(frame, &mut global.available_frames);
            proof {
                assert(self.cached().contains(frame)) by {
                    assert(self.cached()[self.cached().len() - 1] == frame);
                }
            }
            let ghost c2 = self.cached();
            let ghost p2 = global.available_frames@;
            self.available_frames.release_extra_to_vec(&mut global.available_frames);
            proof {
                assert(c2.contains(frame));
                assert(self.cached().contains(frame) || global.available_frames@.contains(frame));
            }
        }
        proof {
            assert(decrement_post(rc0, key, global.region_counts@, v));
        }
    }

    /// Releases the small path's hold on its frame.
    fn small_deinit<S: SystemInterface>(&mut self, global: &mut GlobalData<S>)
        requires
            old(self).wf(),
            old(global).wf(),
        ensures
            final(self).wf(),
            final(global).wf(),
            final(self).medium == old(self).medium,
            final(self).small.region == 0,
            final(global).quantum_storage.base() == old(global).quantum_storage.base(),
            kept(old(self).cached(), old(global).available_frames@, final(self).cached(), final(global).available_frames@),
            final(global).mapped() == old(global).mapped(),
            final(global).page_map == old(global).page_map,
            final(global).quantum_map == old(global).quantum_map,
            final(global).quantum_storage == old(global).quantum_storage,
    {
        if self.small.region != 0 {
            let region = self.small.region;
            self.drop_region_ref(global, region);
        }
        self.small = SmallAllocator::new();
    }

    /// Serves `0 < size <= MAX_SMALL_SIZE` bytes from the current small
    /// frame, taking a new frame where it does not fit. The allocation never
    /// leaves its frame.
    fn alloc_small<S: SystemInterface>(&mut self, global: &mut GlobalData<S>, size: u64, align: u64) -> (r: Option<u64>)
        requires
            old(self).wf(),
            old(global).wf(),
            0 < size <= MAX_SMALL_SIZE,
            is_pow2(align),
            align <= PAGE_SIZE,
        ensures
            final(self).wf(),
            final(global).wf(),
            final(self).medium == old(self).medium,
            final(global).quantum_storage.base() == old(global).quantum_storage.base(),
            final(global).mapped() == old(global).mapped(),
            final(global).page_map == old(global).page_map,
            final(global).quantum_map == old(global).quantum_map,
            final(global).quantum_storage == old(global).quantum_storage,
            r matches Some(p) ==> p % align == 0 && p != 0 && (p as int) / (PAGE_SIZE as int) == (p + size - 1) / (PAGE_SIZE as int),
            old(self).small_fits(size, align) ==> Self::bump_step(
                old(global).region_counts@,
                final(global).region_counts@,
                old(self).small_slot().0,
                old(self).small_slot().1,
                RegionCounts::max_count(),
                crate::util::align_down_spec(old(self).small_bump() - size, align as int),
                r,
            ) && final(global).mapped() == old(global).mapped()
                && final(global).available_frames == old(global).available_frames
                && final(global).page_map == old(global).page_map
                && final(global).quantum_map == old(global).quantum_map
                && final(global).quantum_storage == old(global).quantum_storage
                && final(self).cached() == old(self).cached()
                && (r is Some ==> final(self).small_bump() == r->0),
    {
        if !self.small.fits(size, align) {
            self.small_deinit(global);
            if self.claim_region(global).is_none() {
                return None;
            }
            proof {
                let rg = self.small.region as int;
                let x = self.small.bump - size;
                crate::util::lemma_page_align_divides(rg, align);
                crate::util::lemma_align_down(x as u64, align);
                crate::util::lemma_align_down_above(x, rg, align as int);
            }
        }
        let new_bump = align_down(self.small.bump - size, align);
        if !global.region_counts.increment_at(self.small.region_index, self.small.frame_key, 1) {
            return None;
        }
        proof {
            let rg = self.small.region as int;
            assert(rg % (PAGE_SIZE as int) == 0);
            assert(rg <= new_bump && new_bump + size <= rg + PAGE_SIZE);
            vstd::arithmetic::div_mod::lemma_fundamental_div_mod(rg, PAGE_SIZE as int);
            let k = rg / (PAGE_SIZE as int);
            vstd::arithmetic::div_mod::lemma_fundamental_div_mod_converse(new_bump as int, PAGE_SIZE as int, k, new_bump - rg);
            vstd::arithmetic::div_mod::lemma_fundamental_div_mod_converse(new_bump + size - 1, PAGE_SIZE as int, k, new_bump + size - 1 - rg);
        }
        self.small.bump = new_bump;
        Some(new_bump)
    }

    /// Maps `size > MAX_MEDIUM_SIZE` bytes of fresh frames into a run of
    /// whole quanta, one frame per huge page from its start. Where frames run
    /// out part way, every page mapped is unmapped again, the run goes back
    /// clean and `None` comes back. The occupancy maps are not touched.
    fn alloc_large<S: SystemInterface>(&mut self, global: &mut GlobalData<S>, size: u64) -> (r: Option<u64>)
        requires
            old(self).wf(),
            old(global).wf(),
            MAX_MEDIUM_SIZE < size <= MAX_REQUEST_SIZE,
        ensures
            final(self).wf(),
            final(global).wf(),
            final(self).medium == old(self).medium,
            final(self).small == old(self).small,
            final(global).quantum_storage.base() == old(global).quantum_storage.base(),
            final(global).page_map == old(global).page_map,
            final(global).quantum_map == old(global).quantum_map,
            final(global).region_counts == old(global).region_counts,
            r matches Some(p) ==> {
                &&& QuantumAddress::valid(p as int)
                &&& forall|pg: u64| #[trigger] final(global).mapped().contains_key(pg) == (old(global).mapped().contains_key(pg)
                    || in_run(pg as int, p as int, page_count(size)))
                &&& final(global).quantum_storage.unheld() == old(global).quantum_storage.unheld().difference(
                    block(large_level(size), old(global).quantum_storage.index_of(p as int)),
                )
                &&& block(large_level(size), old(global).quantum_storage.index_of(p as int)).subset_of(
                    old(global).quantum_storage.unheld(),
                )
                &&& final(self).cached().len() + final(global).available_frames@.len() + page_count(size)
                    == old(self).cached().len() + old(global).available_frames@.len()
            },
            r is None ==> {
                &&& forall|pg: u64| #[trigger] final(global).mapped().contains_key(pg) ==> old(global).mapped().contains_key(pg)
                &&& final(global).quantum_storage.unheld() == old(global).quantum_storage.unheld()
                &&& final(global).quantum_storage.released().subset_of(old(global).quantum_storage.released())
                &&& final(self).cached().len() + final(global).available_frames@.len()
                    == old(self).cached().len() + old(global).available_frames@.len()
                &&& (old(self).cached().len() + old(global).available_frames@.len() < page_count(size)
                    || forall|t: int, b: int|
                    large_level(size) <= t < TOWER_LEVELS && final(global).quantum_storage.available_shape()[t] <= 16
                        ==> !#[trigger] final(global).quantum_storage.available_bits()[t].contains(b))
            },
            old(self).cached().len() + old(global).available_frames@.len() < page_count(size) ==> r is None,
    {
        let ghost f0 = self.cached().len() + global.available_frames@.len();
        let level = large_alloc_level(size);
        let quantum = match global.quantum_storage.allocate(level, &mut self.rng, &mut global.sys) {
            Some(q) => q,
            None => return None,
        };
        let start = quantum.start();
        let ghost st1 = global.quantum_storage;
        let ghost held = block(level as int, old(global).quantum_storage.index_of(start as int));
        let frames_needed = size / PAGE_SIZE + if size % PAGE_SIZE == 0 {
            0
        } else {
            1
        };
        let end = start + frames_needed * PAGE_SIZE;
        let mut to_map = start;
        let ghost mut k: int = 0;
        proof {
            crate::util::lemma_quantum_aligned(start as int);
        }
        while to_map < end
            invariant
                self.wf(),
                global.wf(),
                self.medium == old(self).medium,
                self.small == old(self).small,
                global.quantum_storage.base() == old(global).quantum_storage.base(),
                global.quantum_storage.levels() == TOWER_LEVELS,
                global.page_map == old(global).page_map,
                global.quantum_map == old(global).quantum_map,
                global.region_counts == old(global).region_counts,
                global.quantum_storage.unheld() == old(global).quantum_storage.unheld().difference(held),
                held.subset_of(old(global).quantum_storage.unheld()),
                held == block(level as int, old(global).quantum_storage.index_of(quantum@)),
                level == large_level(size),
                global.quantum_storage == st1,
                st1.released().subset_of(old(global).quantum_storage.released()),
                self.cached().len() + global.available_frames@.len() + k == f0,
                f0 == old(self).cached().len() + old(global).available_frames@.len(),
                level < TOWER_LEVELS,
                QuantumAddress::valid(start as int),
                quantum@ == start,
                quantum@ >= global.quantum_storage.base(),
                global.quantum_storage.count() == old(global).quantum_storage.count(),
                global.quantum_storage.levels() == old(global).quantum_storage.levels(),
                global.quantum_storage.index_of(quantum@) % exp2(level as int) == 0,
                global.quantum_storage.index_of(quantum@) + exp2(level as int) <= global.quantum_storage.count(),
                frames_needed == page_count(size),
                end == start + frames_needed * PAGE_SIZE,
                end <= ADDRESS_LIMIT + MAX_REQUEST_SIZE + PAGE_SIZE,
                0 <= k <= frames_needed,
                frames_needed >= 1,
                to_map == start + k * PAGE_SIZE,
                forall|pg: u64| #[trigger] global.mapped().contains_key(pg) == (old(global).mapped().contains_key(pg)
                    || in_run(pg as int, start as int, k)),
                old(self).cached().len() == 0 && old(global).available_frames@.len() == 0 ==> k == 0
                    && self.cached().len() == 0 && global.available_frames@.len() == 0,
            decreases frames_needed - k,
        {
            let remaining = (end - to_map) / PAGE_SIZE;
            let refill: usize = if remaining < (FRAME_LIST_CAPACITY - 1) as u64 {
                if remaining == 0 {
                    1
                } else {
                    remaining as usize
                }
            } else {
                FRAME_LIST_CAPACITY - 1
            };
            let ghost m0 = global.mapped();
            let got = self.available_frames.pop_with_refill(&mut global.available_frames, refill);
            assert(global.mapped() == m0);
            match got {
                Some(frame) => {
                    global.map_page(to_map, frame);
                    proof {
                        assert forall|pg: u64| #[trigger] global.mapped().contains_key(pg) == (old(global).mapped().contains_key(pg)
                            || in_run(pg as int, start as int, k + 1)) by {
                            vstd::arithmetic::div_mod::lemma_mod_multiples_basic(k, PAGE_SIZE as int);
                            if pg == to_map {
                                assert((pg - start) == k * PAGE_SIZE);
                            } else if in_run(pg as int, start as int, k + 1) {
                                if pg > to_map {
                                    crate::util::lemma_align_down_below((pg - start) as int, (to_map - start) as int, PAGE_SIZE as int);
                                }
                                assert(pg < to_map);
                            }
                        }
                        k = k + 1;
                    }
                    to_map = to_map + PAGE_SIZE;
                },
                None => {
                    let top = to_map;
                    proof {
                        assert(f0 == k);
                        assert(k < frames_needed);
                    }
                    while to_map > start
                        invariant
                            self.wf(),
                            global.wf(),
                            self.medium == old(self).medium,
                            self.small == old(self).small,
                            global.quantum_storage.base() == old(global).quantum_storage.base(),
                            global.quantum_storage.levels() == TOWER_LEVELS,
                            global.page_map == old(global).page_map,
                            global.quantum_map == old(global).quantum_map,
                            global.region_counts == old(global).region_counts,
                            global.quantum_storage.unheld() == old(global).quantum_storage.unheld().difference(held),
                            held.subset_of(old(global).quantum_storage.unheld()),
                            held == block(level as int, old(global).quantum_storage.index_of(quantum@)),
                            level == large_level(size),
                            global.quantum_storage == st1,
                            st1.released().subset_of(old(global).quantum_storage.released()),
                            self.cached().len() + global.available_frames@.len() + k == f0,
                            f0 == old(self).cached().len() + old(global).available_frames@.len(),
                            f0 < frames_needed,
                            level < TOWER_LEVELS,
                            quantum@ == start,
                            quantum@ >= global.quantum_storage.base(),
                            global.quantum_storage.count() == old(global).quantum_storage.count(),
                            global.quantum_storage.levels() == old(global).quantum_storage.levels(),
                            global.quantum_storage.index_of(quantum@) % exp2(level as int) == 0,
                            global.quantum_storage.index_of(quantum@) + exp2(level as int) <= global.quantum_storage.count(),
                            0 <= k,
                            to_map == start + k * PAGE_SIZE,
                            top <= end,
                            forall|pg: u64| #[trigger] global.mapped().contains_key(pg) ==> (old(global).mapped().contains_key(pg)
                                || in_run(pg as int, start as int, k)),
                        decreases k,
                    {
                        to_map = to_map - PAGE_SIZE;
                        let frame = global.unmap_page(to_map);
                        proof {
                            assert forall|pg: u64| #[trigger] global.mapped().contains_key(pg) implies (old(global).mapped().contains_key(pg)
                                || in_run(pg as int, start as int, k - 1)) by {
                                assert(pg != to_map);
                                if in_run(pg as int, start as int, k) && pg > to_map {
                                    assert(pg < to_map + PAGE_SIZE);
                                    assert((pg - start) % (PAGE_SIZE as int) == 0);
                                    assert((to_map - start) == (k - 1) * PAGE_SIZE);
                                    vstd::arithmetic::div_mod::lemma_mod_multiples_basic(k - 1, PAGE_SIZE as int);
                                    crate::util::lemma_align_down_below((pg - start) as int, (to_map - start) as int, PAGE_SIZE as int);
                                }
                            }
                            k = k - 1;
                        }
                        let ghost m2 = global.mapped();
                        self.available_frames.push_with_spill(frame, &mut global.available_frames);
                        assert(global.mapped() == m2);
                    }
                    let ghost m3 = global.mapped();
                    self.available_frames.release_extra_to_vec(&mut global.available_frames);
                    assert(global.mapped() == m3);
                    let ghost before_rel = global.quantum_storage.unheld();
                    let ghost av = global.quantum_storage.available();
                    let ghost rel = global.quantum_storage.released();
                    let back = global.quantum_storage.release_clean(level, quantum);
                    proof {
                        assert(back);
                        assert(global.quantum_storage.index_of(quantum@) == old(global).quantum_storage.index_of(quantum@));
                        assert(global.quantum_storage.available() == av.union(held));
                        assert(global.quantum_storage.released() == rel);
                        assert(global.quantum_storage.unheld() =~= before_rel.union(held));
                        assert forall|x: int| #[trigger] global.quantum_storage.unheld().contains(x) == old(global).quantum_storage.unheld().contains(x) by {
                            if held.contains(x) {
                                assert(old(global).quantum_storage.unheld().contains(x));
                            }
                        }
                        assert(global.quantum_storage.unheld() =~= old(global).quantum_storage.unheld());
                    }
                    return None;
                },
            }
        }
        proof {
            assert(k == frames_needed);
        }
        Some(start)
    }

    /// Unmaps the pages of a large allocation of `size` bytes at `ptr`,
    /// caches their frames and returns its quanta dirty where allocators
    /// hold them. The occupancy maps are not touched.
    fn dealloc_large<S: SystemInterface>(&mut self, global: &mut GlobalData<S>, ptr: u64, size: u64)
        requires
            old(self).wf(),
            old(global).wf(),
            MAX_MEDIUM_SIZE < size <= MAX_REQUEST_SIZE,
            ptr < ADDRESS_LIMIT,
        ensures
            final(self).wf(),
            final(global).wf(),
            final(self).medium == old(self).medium,
            final(self).small == old(self).small,
            final(global).quantum_storage.base() == old(global).quantum_storage.base(),
            final(global).page_map == old(global).page_map,
            final(global).quantum_map == old(global).quantum_map,
            final(global).region_counts == old(global).region_counts,
            forall|pg: u64| #[trigger] final(global).mapped().contains_key(pg) == (old(global).mapped().contains_key(pg)
                && !in_run(pg as int, ptr as int, page_count(size))),
            final(global).quantum_storage.available() == old(global).quantum_storage.available(),
            old(global).quantum_storage.released().subset_of(final(global).quantum_storage.released()),
            final(self).cached().len() + final(global).available_frames@.len()
                == old(self).cached().len() + old(global).available_frames@.len() + page_count(size),
            QuantumAddress::valid(ptr as int) ==> final(global).quantum_storage.released() == (if old(
                global,
            ).quantum_storage.holds_run(large_level(size), ptr as int) {
                old(global).quantum_storage.released().union(
                    block(large_level(size), old(global).quantum_storage.index_of(ptr as int)),
                )
            } else {
                old(global).quantum_storage.released()
            }),
            !QuantumAddress::valid(ptr as int) ==> final(global).quantum_storage == old(global).quantum_storage,
    {
        let ghost f0 = self.cached().len() + global.available_frames@.len();
        let level = large_alloc_level(size);
        let frames_needed = size / PAGE_SIZE + if size % PAGE_SIZE == 0 {
            0
        } else {
            1
        };
        let end = ptr + frames_needed * PAGE_SIZE;
        let mut to_unmap = ptr;
        let ghost mut k: int = 0;
        while to_unmap < end
            invariant
                self.wf(),
                global.wf(),
                self.medium == old(self).medium,
                self.small == old(self).small,
                global.quantum_storage == old(global).quantum_storage,
                global.page_map == old(global).page_map,
                global.quantum_map == old(global).quantum_map,
                global.region_counts == old(global).region_counts,
                frames_needed == page_count(size),
                end == ptr + frames_needed * PAGE_SIZE,
                end <= ADDRESS_LIMIT + MAX_REQUEST_SIZE + PAGE_SIZE,
                0 <= k <= frames_needed,
                to_unmap == ptr + k * PAGE_SIZE,
                self.cached().len() + global.available_frames@.len() == f0 + k,
                f0 == old(self).cached().len() + old(global).available_frames@.len(),
                forall|pg: u64| #[trigger] global.mapped().contains_key(pg) == (old(global).mapped().contains_key(pg)
                    && !in_run(pg as int, ptr as int, k)),
            decreases frames_needed - k,
        {
            let frame = global.unmap_page(to_unmap);
            proof {
                assert forall|pg: u64| #[trigger] global.mapped().contains_key(pg) == (old(global).mapped().contains_key(pg)
                    && !in_run(pg as int, ptr as int, k + 1)) by {
                    if pg == to_unmap {
                        vstd::arithmetic::div_mod::lemma_mod_multiples_basic(k, PAGE_SIZE as int);
                    } else if in_run(pg as int, ptr as int, k + 1) && !in_run(pg as int, ptr as int, k) {
                        assert(pg >= to_unmap);
                        vstd::arithmetic::div_mod::lemma_mod_multiples_basic(k, PAGE_SIZE as int);
                        crate::util::lemma_align_down_below((pg - ptr) as int, (to_unmap - ptr) as int, PAGE_SIZE as int);
                    }
                }
                k = k + 1;
            }
            self.available_frames.push_with_spill(frame, &mut global.available_frames);
            to_unmap = to_unmap + PAGE_SIZE;
        }
        proof {
            assert(k == frames_needed);
        }
        let ghost m1 = global.mapped();
        self.available_frames.release_extra_to_vec(&mut global.available_frames);
        assert(global.mapped() == m1);
        if ptr != 0 && ptr % VIRTUAL_QUANTUM_SIZE == 0 && ptr + VIRTUAL_QUANTUM_SIZE <= ADDRESS_LIMIT {
            global.quantum_storage.release_dirty(level, QuantumAddress::from_start(ptr));
        }
    }

    /// Allocates `size` bytes aligned to `align`. A zero size gets a
    /// non-null dangling pointer, `align` itself, and changes nothing; sizes
    /// up to half a huge page take the small path, sizes up to half a
    /// quantum the medium path, larger ones whole quanta. `None` where memory
    /// ran out.
    ///
    /// Where the bump pointer of the small or medium path has room on its
    /// current frame or page, the result is the bump pointer moved down by
    /// `size` and aligned, and only that frame's or page's count grows. The
    /// large path maps one frame into each page it reaches, and takes the
    /// quanta from the storage; it leaves the occupancy maps alone, and where
    /// it fails it leaves no page mapped and no quantum taken.
    pub fn allocate<S: SystemInterface>(&mut self, global: &mut GlobalData<S>, size: u64, align: u64) -> (r: Option<u64>)
        requires
            old(self).wf(),
            old(global).wf(),
            is_pow2(align),
            size > 0 ==> align <= PAGE_SIZE,
            size <= MAX_REQUEST_SIZE,
        ensures
            final(self).wf(),
            final(global).wf(),
            final(global).quantum_storage.base() == old(global).quantum_storage.base(),
            size == 0 ==> r == Some(align) && *final(self) == *old(self) && *final(global) == *old(global),
            r matches Some(p) ==> p % align == 0 && p != 0,
            size_class_spec(size) == SizeClass::Small ==> {
                &&& r matches Some(p) ==> (p as int) / (PAGE_SIZE as int) == (p + size - 1) / (PAGE_SIZE as int)
                &&& final(global).mapped() == old(global).mapped()
                &&& final(global).page_map == old(global).page_map
                &&& final(global).quantum_map == old(global).quantum_map
                &&& final(global).quantum_storage == old(global).quantum_storage
                &&& old(self).small_fits(size, align) ==> Self::bump_step(
                    old(global).region_counts@,
                    final(global).region_counts@,
                    old(self).small_slot().0,
                    old(self).small_slot().1,
                    RegionCounts::max_count(),
                    crate::util::align_down_spec(old(self).small_bump() - size, align as int),
                    r,
                ) && final(global).available_frames == old(global).available_frames
            },
            size_class_spec(size) == SizeClass::Medium ==> ({
                let next = crate::util::align_down_spec(old(self).medium_bump() - size, align as int);
                let cp = old(self).medium_page().0;
                let mp = crate::util::align_down_spec(next, PAGE_SIZE as int);
                let missing = (cp - mp) / PAGE_SIZE as int;
                let qm = old(global).quantum_map@;
                let qi = old(self).medium_quantum_slot() as int;
                let qkey = if mp >= old(global).quantum_storage.base() {
                    ((mp - old(global).quantum_storage.base()) / VIRTUAL_QUANTUM_SIZE as int) as u64
                } else {
                    0u64
                };
                old(self).medium_fits(size, align) && mp != cp && old(self).cached().len()
                    + old(global).available_frames@.len() >= missing && frames_fit(old(self).cached())
                    && frames_fit(old(global).available_frames@) && 0 <= qi < qm.len() && qm[qi].0 == qkey
                    && qm[qi].2 != 0 && qm[qi].2 + missing <= 8 && page_room(old(global).page_map, mp, cp as int)
                    ==> r == Some(next as u64)
            }),
            size_class_spec(size) == SizeClass::Medium ==> ({
                let next = crate::util::align_down_spec(old(self).medium_bump() - size, align as int);
                let cp = old(self).medium_page().0;
                let mp = crate::util::align_down_spec(next, PAGE_SIZE as int);
                old(self).medium_fits(size, align) && mp != cp && r is Some ==> {
                    &&& (mp >= old(global).page_map.base() ==> forall|pg: u64|
                        #[trigger] in_run(pg as int, mp, (cp - mp) / PAGE_SIZE as int) ==> exists|i: int|
                            0 <= i < final(global).page_map@.len() && #[trigger] final(global).page_map@[i].0
                                == old(global).page_map.key_of(pg as int) as u64 && final(global).page_map@[i].2 == (if pg == mp {
                                2u64
                            } else {
                                1u64
                            }))
                    &&& (crate::util::align_down_spec(next + size - 1, PAGE_SIZE as int) == cp ==> increment_post(
                        old(global).quantum_map@,
                        old(self).medium_quantum_slot() as int,
                        ((cp - mp) / PAGE_SIZE as int) as u64,
                        final(global).quantum_map@,
                    ))
                }
            }),
            size_class_spec(size) == SizeClass::Medium ==> {
                &&& r matches Some(p) ==> QuantumAddress::valid(final(self).medium_quantum()) && final(self).medium_quantum() <= p
                    && p + size <= final(self).medium_quantum() + VIRTUAL_QUANTUM_SIZE
                &&& old(self).medium_fits(size, align) && r is Some ==> r->0 == crate::util::align_down_spec(
                    old(self).medium_bump() - size,
                    align as int,
                ) && final(self).medium_quantum() == old(self).medium_quantum()
                &&& !old(self).medium_fits(size, align) && r is Some ==> r->0 == crate::util::align_down_spec(
                    final(self).medium_quantum() + VIRTUAL_QUANTUM_SIZE - size,
                    align as int,
                )
                &&& ({
                    let next = crate::util::align_down_spec(old(self).medium_bump() - size, align as int);
                    let cp = old(self).medium_page().0;
                    old(self).medium_fits(size, align) && crate::util::align_down_spec(next, PAGE_SIZE as int) == cp
                        && cp >= old(global).page_map.base() && fits(
                        ((cp - old(global).page_map.base()) / PAGE_SIZE as int) as u64,
                        PAGE_KEY_BITS as u64,
                    ) ==> Self::bump_step(
                        old(global).page_map@,
                        final(global).page_map@,
                        old(self).medium_page().1,
                        old(global).page_map.key_of(cp as int) as u64,
                        0x8000,
                        next,
                        r,
                    ) && final(global).mapped() == old(global).mapped()
                        && final(global).quantum_map == old(global).quantum_map
                        && final(global).quantum_storage == old(global).quantum_storage
                        && (r is Some ==> final(self).medium_quantum() == old(self).medium_quantum())
                })
            },
            size_class_spec(size) == SizeClass::Large ==> {
                &&& final(global).page_map == old(global).page_map
                &&& final(global).quantum_map == old(global).quantum_map
                &&& final(global).region_counts == old(global).region_counts
                &&& old(self).cached().len() + old(global).available_frames@.len() < page_count(size) ==> r is None
                &&& r matches Some(p) ==> {
                    &&& QuantumAddress::valid(p as int)
                    &&& forall|pg: u64| #[trigger] final(global).mapped().contains_key(pg) == (old(global).mapped().contains_key(pg)
                        || in_run(pg as int, p as int, page_count(size)))
                    &&& final(global).quantum_storage.unheld() == old(global).quantum_storage.unheld().difference(
                        block(large_level(size), old(global).quantum_storage.index_of(p as int)),
                    )
                    &&& block(large_level(size), old(global).quantum_storage.index_of(p as int)).subset_of(
                        old(global).quantum_storage.unheld(),
                    )
                    &&& final(self).cached().len() + final(global).available_frames@.len() + page_count(size)
                        == old(self).cached().len() + old(global).available_frames@.len()
                }
                &&& r is None ==> {
                    &&& forall|pg: u64| #[trigger] final(global).mapped().contains_key(pg) ==> old(global).mapped().contains_key(pg)
                    &&& final(global).quantum_storage.unheld() == old(global).quantum_storage.unheld()
                    &&& final(global).quantum_storage.released().subset_of(old(global).quantum_storage.released())
                    &&& final(self).cached().len() + final(global).available_frames@.len()
                        == old(self).cached().len() + old(global).available_frames@.len()
                    &&& (old(self).cached().len() + old(global).available_frames@.len() < page_count(size)
                        || forall|t: int, b: int|
                        large_level(size) <= t < TOWER_LEVELS && final(global).quantum_storage.available_shape()[t] <= 16
                            ==> !#[trigger] final(global).quantum_storage.available_bits()[t].contains(b))
                }
            },
    {
        match size_class(size) {
            SizeClass::Zero => {
                proof {
                    crate::util::lemma_align_down(0, align);
                }
                Some(align)
            },
            SizeClass::Small => self.alloc_small(global, size, align),
            SizeClass::Medium => {
                let r = self.alloc_medium(global, size, align);
                proof {
                    if r is Some {
                        assert(self.medium_quantum() == self.medium.quantum());
                        assert(QuantumAddress::valid(self.medium_quantum()));
                    }
                }
                r
            },
            SizeClass::Large => {
                let r = self.alloc_large(global, size);
                proof {
                    if r is Some {
                        crate::util::lemma_align_divides(r->0 as int, align);
                    }
                }
                r
            },
        }
    }

    /// Frees `size` bytes at `ptr`, as `allocate` handed them out. A zero
    /// size frees nothing. On the medium path each page the allocation
    /// covers loses one reference, and a page left with none is unmapped; no
    /// page outside the allocation changes. On the large path every page of
    /// the run is unmapped and the quanta go back dirty.
    pub fn deallocate<S: SystemInterface>(&mut self, global: &mut GlobalData<S>, ptr: u64, size: u64)
        requires
            old(self).wf(),
            old(global).wf(),
            size <= MAX_REQUEST_SIZE,
        ensures
            final(self).wf(),
            final(global).wf(),
            final(global).quantum_storage.base() == old(global).quantum_storage.base(),
            size == 0 ==> *final(self) == *old(self) && *final(global) == *old(global),
            size_class_spec(size) == SizeClass::Small ==> {
                &&& final(global).mapped() == old(global).mapped()
                &&& final(global).page_map == old(global).page_map
                &&& final(global).quantum_map == old(global).quantum_map
                &&& final(global).quantum_storage == old(global).quantum_storage
                &&& exists|frame: u64| #[trigger] region_freed(
                    old(global).region_counts@,
                    final(global).region_counts@,
                    old(self).cached(),
                    old(global).available_frames@,
                    final(self).cached(),
                    final(global).available_frames@,
                    frame,
                )
            },
            size_class_spec(size) == SizeClass::Medium ==> {
                &&& final(global).region_counts == old(global).region_counts
                &&& old(global).quantum_storage.unheld().subset_of(final(global).quantum_storage.unheld())
                &&& forall|qk: u64|
                    qk < old(global).quantum_storage.count() && holds_key(old(global).quantum_map@, qk) && !holds_key(
                        final(global).quantum_map@,
                        qk,
                    ) ==> #[trigger] final(global).quantum_storage.unheld().contains(qk as int)
                &&& final(global).quantum_storage.available() == old(global).quantum_storage.available()
                &&& old(global).quantum_storage.released().subset_of(final(global).quantum_storage.released())
                &&& forall|pg: u64| #[trigger] final(global).mapped().contains_key(pg) ==> old(global).mapped().contains_key(pg)
                &&& forall|pg: u64|
                    (pg < crate::util::align_down_spec(ptr as int, PAGE_SIZE as int) || pg >= ptr + size)
                        ==> #[trigger] final(global).mapped().contains_key(pg) == old(global).mapped().contains_key(pg)
                &&& ptr < ADDRESS_LIMIT ==> forall|pg: u64|
                    crate::util::align_down_spec(ptr as int, PAGE_SIZE as int) <= pg < ptr + size && (pg
                        - crate::util::align_down_spec(ptr as int, PAGE_SIZE as int)) % (PAGE_SIZE as int) == 0
                        && page_in_map(old(global).page_map, pg) && holds_key(
                        old(global).page_map@,
                        old(global).page_map.key_of(pg as int) as u64,
                    ) && !holds_key(final(global).page_map@, old(global).page_map.key_of(pg as int) as u64)
                        ==> !#[trigger] final(global).mapped().contains_key(pg)
            },
            size_class_spec(size) == SizeClass::Large && ptr < ADDRESS_LIMIT ==> {
                &&& final(global).page_map == old(global).page_map
                &&& final(global).quantum_map == old(global).quantum_map
                &&& final(global).region_counts == old(global).region_counts
                &&& forall|pg: u64| #[trigger] final(global).mapped().contains_key(pg) == (old(global).mapped().contains_key(pg)
                    && !in_run(pg as int, ptr as int, page_count(size)))
                &&& final(global).quantum_storage.available() == old(global).quantum_storage.available()
                &&& old(global).quantum_storage.released().subset_of(final(global).quantum_storage.released())
                &&& final(self).cached().len() + final(global).available_frames@.len()
                    == old(self).cached().len() + old(global).available_frames@.len() + page_count(size)
                &&& QuantumAddress::valid(ptr as int) ==> final(global).quantum_storage.released() == (if old(
                    global,
                ).quantum_storage.holds_run(large_level(size), ptr as int) {
                    old(global).quantum_storage.released().union(
                        block(large_level(size), old(global).quantum_storage.index_of(ptr as int)),
                    )
                } else {
                    old(global).quantum_storage.released()
                })
            },
    {
        match size_class(size) {
            SizeClass::Zero => {},
            SizeClass::Small => {
                proof {
                    vstd::arithmetic::power2::lemma2_to64();
                    assert(is_pow2(PAGE_SIZE)) by {
                        assert(PAGE_SIZE == vstd::arithmetic::power2::pow2(21));
                    }
                }
                let region = align_down(ptr, PAGE_SIZE);
                self.drop_region_ref(global, region);
            },
            SizeClass::Medium => {
                if ptr < ADDRESS_LIMIT {
                    self.dealloc_medium(global, ptr, size);
                }
            },
            SizeClass::Large => {
                if ptr < ADDRESS_LIMIT {
                    self.dealloc_large(global, ptr, size);
                }
            },
        }
    }

    /// Ends the thread's use of the allocator: the small and medium paths
    /// let go of their frame and quantum, and every cached frame goes back to
    /// the pool, so that every frame the cache or the pool held is in the
    /// pool afterwards.
    pub fn deinit<S: SystemInterface>(&mut self, global: &mut GlobalData<S>)
        requires
            old(self).wf(),
            old(global).wf(),
        ensures
            final(self).wf(),
            final(global).wf(),
            final(self).cached().len() == 0,
            final(self).medium_quantum() == 0,
            final(self).small_idle(),
            final(global).quantum_storage.base() == old(global).quantum_storage.base(),
            forall|f: u64|
                old(self).cached().contains(f) || old(global).available_frames@.contains(f)
                    ==> #[trigger] final(global).available_frames@.contains(f),
    {
        self.small_deinit(global);
        self.medium_deinit(global);
        let ghost c0 = old(self).cached();
        let ghost p0 = old(global).available_frames@;
        while self.available_frames.count() > 0
            invariant
                self.wf(),
                global.wf(),
                global.quantum_storage.base() == old(global).quantum_storage.base(),
                self.medium.min_address == 0,
                self.small.region == 0,
                kept(c0, p0, self.cached(), global.available_frames@),
            decreases self.available_frames@.len(),
        {
            let ghost c1 = self.cached();
            let ghost p1 = global.available_frames@;
            let f = self.available_frames.pop().unwrap();
            global.available_frames.push(f);
            proof {
                assert forall|g: u64| c0.contains(g) || p0.contains(g) implies self.cached().contains(g)
                    || global.available_frames@.contains(g) by {
                    if c1.contains(g) {
                        let i = choose|i: int| 0 <= i < c1.len() && c1[i] == g;
                        if i == c1.len() - 1 {
                            assert(global.available_frames@[p1.len() as int] == g);
                        } else {
                            assert(self.cached()[i] == g);
                        }
                    } else {
                        assert(p1.contains(g));
                        let i = choose|i: int| 0 <= i < p1.len() && p1[i] == g;
                        assert(global.available_frames@[i] == g);
                    }
                }
            }
        }
        proof {
            assert forall|f: u64| old(self).cached().contains(f) || old(global).available_frames@.contains(f)
                implies #[trigger] global.available_frames@.contains(f) by {
                assert(!self.cached().contains(f));
            }
        }
    }
}

} // verus!
