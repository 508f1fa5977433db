//! The occupancy maps: live allocations per mapped huge page, with the frame
//! behind it, and mapped huge pages per quantum.

use crate::count_map::{decrement_post, increment_post, insert_post, Record, SmallCountHashMap};
use crate::packed::fits;
use crate::util::{PAGE_SIZE, VIRTUAL_QUANTUM_SIZE};
use vstd::prelude::*;

verus! {

/// Bits of a page index.
pub const PAGE_KEY_BITS: u32 = 27;

/// Bits of a frame index.
pub const FRAME_KEY_BITS: u32 = 20;

/// Bits of a quantum index.
pub const QUANTUM_KEY_BITS: u32 = 24;

/// Page map records: count 16 bits, frame 20, page 27.
pub type PageSlots = SmallCountHashMap<16, 20, 27>;

/// Quantum map records: count 4 bits, 21 unused, quantum 24.
pub type QuantumSlots = SmallCountHashMap<4, 21, 24>;

/// For each mapped huge page of the managed range, the number of live
/// allocations on it (plus one for an allocator whose bump pointer is on it)
/// and the frame mapped there.
pub struct PageMap {
    base_page: u64,
    inner: PageSlots,
}

impl View for PageMap {
    type V = Seq<Record>;

    closed spec fn view(&self) -> Seq<Record> {
        self.inner@
    }
}

impl PageMap {
    pub closed spec fn base(&self) -> int {
        self.base_page as int
    }

    pub closed spec fn wf(&self) -> bool {
        self.inner.wf()
    }

    /// The base is a machine address.
    pub proof fn lemma_base(&self)
        ensures
            0 <= self.base() <= u64::MAX,
    {
    }

    /// Key of the page that starts at `page`.
    pub open spec fn key_of(&self, page: int) -> int {
        (page - self.base()) / PAGE_SIZE as int
    }

    /// A map of at least `num_slots` slots over the pages from `base_page`.
    pub fn new(num_slots: usize, base_page: u64) -> (r: Self)
        requires
            num_slots <= 0x4000_0000,
        ensures
            r.wf(),
            r.base() == base_page,
            r@.len() >= num_slots,
            forall|i: int| 0 <= i < r@.len() ==> #[trigger] r@[i].2 == 0,
    {
        PageMap { base_page, inner: SmallCountHashMap::with_num_slots(num_slots) }
    }

    /// The key of `page`, where it is a page of the range whose index fits.
    fn key(&self, page: u64) -> (r: Option<u64>)
        ensures
            r is Some <==> (page >= self.base() && fits(((page - self.base()) / PAGE_SIZE as int) as u64, PAGE_KEY_BITS as u64)),
            r is Some ==> r->0 == self.key_of(page as int),
    {
        if page < self.base_page {
            return None;
        }
        let k = (page - self.base_page) / PAGE_SIZE;
        if crate::packed::check_width(k, PAGE_KEY_BITS) {
            Some(k)
        } else {
            None
        }
    }

    /// Installs `page`, mapped to `frame`, with count `count`. Returns its
    /// slot; `None` where the page or frame lies outside what a record can
    /// hold, or the table is full.
    pub fn insert(&mut self, page: u64, frame: u64, count: u64) -> (r: Option<usize>)
        requires
            old(self).wf(),
            1 <= count <= 0x8000,
        ensures
            final(self).wf(),
            final(self).base() == old(self).base(),
            r is Some ==> page >= old(self).base() && insert_post(
                old(self)@,
                old(self).key_of(page as int) as u64,
                frame / PAGE_SIZE,
                count,
                final(self)@,
                r,
            ),
            r is None ==> final(self)@ == old(self)@,
            r is None <==> !(page >= old(self).base() && fits(((page - old(self).base()) / PAGE_SIZE as int) as u64, PAGE_KEY_BITS as u64)
                && fits(frame / PAGE_SIZE, FRAME_KEY_BITS as u64) && exists|j: int| 0 <= j < old(self)@.len() && old(self)@[j].2 == 0),
    {
        let k = match self.key(page) {
            Some(k) => k,
            None => return None,
        };
        let f = frame / PAGE_SIZE;
        if !crate::packed::check_width(f, FRAME_KEY_BITS) {
            return None;
        }
        proof {
            assert((1u64 << 15u64) == 0x8000) by (bit_vector);
        }
        let r = self.inner.insert(k, f, count);
        proof {
            if r is Some {
                assert(old(self)@[r->0 as int].2 == 0);
            }
        }
        r
    }

    /// One allocation more on `page`, whose slot is `index`. `false`, with
    /// nothing changed, where the slot holds no record of that page or the
    /// count is at its largest.
    pub fn increment_at(&mut self, index: usize, page: u64) -> (r: bool)
        requires
            old(self).wf(),
        ensures
            final(self).wf(),
            final(self).base() == old(self).base(),
            r ==> page >= old(self).base() && increment_post(old(self)@, index as int, 1, final(self)@),
            !r ==> final(self)@ == old(self)@,
            r == (page >= old(self).base() && fits(((page - old(self).base()) / PAGE_SIZE as int) as u64, PAGE_KEY_BITS as u64)
                && index < old(self)@.len() && old(self)@[index as int].0 == old(self).key_of(page as int)
                && old(self)@[index as int].2 != 0 && old(self)@[index as int].2 + 1 <= 0x8000),
    {
        let k = match self.key(page) {
            Some(k) => k,
            None => return false,
        };
        proof {
            assert((1u64 << 15u64) == 0x8000) by (bit_vector);
        }
        self.inner.increment_at(index, k, 1)
    }

    /// One allocation fewer on `page`. Returns the frame mapped there where
    /// that was the last one.
    pub fn decrement(&mut self, page: u64) -> (r: Option<u64>)
        requires
            old(self).wf(),
        ensures
            final(self).wf(),
            final(self).base() == old(self).base(),
            page >= old(self).base() && fits(((page - old(self).base()) / PAGE_SIZE as int) as u64, PAGE_KEY_BITS as u64)
                ==> decrement_post(
                old(self)@,
                old(self).key_of(page as int) as u64,
                final(self)@,
                match r {
                    Some(f) => Some(f / PAGE_SIZE),
                    None => None,
                },
            ),
            !(page >= old(self).base() && fits(((page - old(self).base()) / PAGE_SIZE as int) as u64, PAGE_KEY_BITS as u64))
                ==> r is None && final(self)@ == old(self)@,
            r matches Some(f) ==> f % PAGE_SIZE == 0,
    {
        let k = match self.key(page) {
            Some(k) => k,
            None => return None,
        };
        match self.inner.decrement(k) {
            Some(f) => {
                proof {
                    assert((1u64 << 20u64) == 0x10_0000) by (bit_vector);
                }
                Some(f * PAGE_SIZE)
            },
            None => None,
        }
    }
}

/// For each quantum of the managed range that an allocator has used, the
/// number of its huge pages that are mapped.
pub struct QuantumMap {
    inner: QuantumSlots,
}

impl View for QuantumMap {
    type V = Seq<Record>;

    closed spec fn view(&self) -> Seq<Record> {
        self.inner@
    }
}

impl QuantumMap {
    pub closed spec fn wf(&self) -> bool {
        self.inner.wf()
    }

    pub fn new(num_slots: usize) -> (r: Self)
        requires
            num_slots <= 0x4000_0000,
        ensures
            r.wf(),
            r@.len() >= num_slots,
            forall|i: int| 0 <= i < r@.len() ==> #[trigger] r@[i].2 == 0,
    {
        QuantumMap { inner: SmallCountHashMap::with_num_slots(num_slots) }
    }

    /// Installs quantum `q` with `count` mapped pages; `None` where `q` does
    /// not fit a record or the table is full.
    pub fn insert(&mut self, q: u64, count: u64) -> (r: Option<usize>)
        requires
            old(self).wf(),
            1 <= count <= 8,
        ensures
            final(self).wf(),
            r is Some ==> insert_post(old(self)@, q, 0, count, final(self)@, r),
            r is None ==> final(self)@ == old(self)@,
            r is None <==> !(fits(q, QUANTUM_KEY_BITS as u64) && exists|j: int| 0 <= j < old(self)@.len() && old(self)@[j].2 == 0),
    {
        if !crate::packed::check_width(q, QUANTUM_KEY_BITS) {
            return None;
        }
        proof {
            assert((1u64 << 3u64) == 8) by (bit_vector);
            assert(0 < (1u64 << 21u64)) by (bit_vector);
        }
        let r = self.inner.insert(q, 0, count);
        proof {
            if r is Some {
                assert(old(self)@[r->0 as int].2 == 0);
            }
        }
        r
    }

    /// `amount` more mapped pages in quantum `q`, whose slot is `index`.
    pub fn increment_at(&mut self, index: usize, q: u64, amount: u64) -> (r: bool)
        requires
            old(self).wf(),
        ensures
            final(self).wf(),
            r ==> increment_post(old(self)@, index as int, amount, final(self)@),
            !r ==> final(self)@ == old(self)@,
            r == (index < old(self)@.len() && old(self)@[index as int].0 == q && old(self)@[index as int].2 != 0
                && old(self)@[index as int].2 + amount <= 8),
    {
        proof {
            assert((1u64 << 3u64) == 8) by (bit_vector);
        }
        self.inner.increment_at(index, q, amount)
    }

    /// One mapped page fewer in quantum `q`; `true` where none is left, the
    /// quantum then being free to release.
    pub fn decrement(&mut self, q: u64) -> (r: bool)
        requires
            old(self).wf(),
        ensures
            final(self).wf(),
            exists|v: Option<u64>| decrement_post(old(self)@, q, final(self)@, v) && r == v is Some,
    {
        let v = self.inner.decrement(q);
        assert(decrement_post(old(self)@, q, self@, v) && v.is_some() == v is Some);
        v.is_some()
    }
}

} // verus!
