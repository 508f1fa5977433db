//! Virtual quanta that no allocator holds: the clean ones in the
//! `available` tower, the dirty ones in the `released` tower, and the
//! recycling that moves dirty quanta to the clean side after a global TLB
//! flush.

use crate::buddy::{bit_of, blk, block, exp2, BuddyTower};
use crate::quantum_address::{QuantumAddress, ADDRESS_LIMIT};
use crate::system::SystemInterface;
use crate::util::VIRTUAL_QUANTUM_SIZE;
use vstd::prelude::*;

verus! {

/// Number of bits of a quantum index.
pub const QUANTUM_ID_BITS: u32 = 27;

/// Mask of a quantum index in a transfer entry.
pub const QUANTUM_ID_MASK: u32 = 0x7ff_ffff;

/// Number of levels of the buddy towers: one per power of two from a single
/// quantum up to the 48-bit address space.
pub const TOWER_LEVELS: usize = 24;

/// Most quanta one storage can hold.
pub const MAX_QUANTA: u64 = 0x80_0000;

/// Level of a transfer entry.
pub open spec fn entry_level(e: u32) -> int {
    (e >> 27u32) as int
}

/// First quantum of a transfer entry.
pub open spec fn entry_quantum(e: u32) -> int {
    (e & 0x7ff_ffffu32) as int
}

/// The quanta that a transfer entry stands for.
pub open spec fn entry_block(e: u32) -> Set<int> {
    block(entry_level(e), entry_quantum(e))
}

/// The quanta of the first `n` entries of `s`.
pub open spec fn pending_upto(s: Seq<u32>, n: int) -> Set<int> {
    Set::new(|x: int| exists|k: int| 0 <= k < n && #[trigger] entry_block(s[k]).contains(x))
}

/// The quanta of all entries of `s`.
pub open spec fn pending(s: Seq<u32>) -> Set<int> {
    pending_upto(s, s.len() as int)
}

/// Encodes a level and a quantum index as one transfer entry: the level in
/// the top five bits, the quantum in the low 27.
pub fn encode_transfer(level: u32, quantum: u32) -> (r: u32)
    requires
        level < 32,
        quantum <= QUANTUM_ID_MASK,
    ensures
        entry_level(r) == level,
        entry_quantum(r) == quantum,
{
    let r = (level << QUANTUM_ID_BITS) | quantum;
    assert((r >> 27u32) == level && (r & 0x7ff_ffffu32) == quantum) by (bit_vector)
        requires
            level < 32,
            quantum <= 0x7ff_ffffu32,
            r == (level << 27u32) | quantum,
    ;
    r
}

pub struct QuantumStorage {
    quantum_base: u64,
    available_quanta: BuddyTower,
    released_quanta: BuddyTower,
    transfer_buffer: Vec<u32>,
    transfer_capacity: usize,
    flush_count: Ghost<nat>,
}

impl QuantumStorage {
    /// Address of the first quantum of the range.
    pub closed spec fn base(&self) -> int {
        self.quantum_base as int
    }

    /// How many global TLB flushes this storage has asked for.
    pub closed spec fn flushes(&self) -> nat {
        self.flush_count@
    }

    /// Number of quanta of the range.
    pub closed spec fn count(&self) -> int {
        self.available_quanta.count()
    }

    /// Number of levels.
    pub closed spec fn levels(&self) -> int {
        self.available_quanta.levels()
    }

    /// Clean free quanta, by index from the first quantum.
    pub closed spec fn available(&self) -> Set<int> {
        self.available_quanta.free()
    }

    /// Dirty free quanta, by index from the first quantum.
    pub closed spec fn released(&self) -> Set<int> {
        self.released_quanta.free()
    }

    /// The free quanta, clean or dirty. All others are held by allocators.
    pub open spec fn unheld(&self) -> Set<int> {
        self.available().union(self.released())
    }

    /// Allocators hold in full the run of `2^level` quanta that starts at
    /// `addr`, which lies in the range.
    pub open spec fn holds_run(&self, level: int, addr: int) -> bool {
        &&& addr >= self.base()
        &&& self.index_of(addr) % exp2(level) == 0
        &&& self.index_of(addr) + exp2(level) <= self.count()
        &&& block(level, self.index_of(addr)).disjoint(self.unheld())
    }

    /// The range starts at a valid, aligned address and ends below the
    /// address limit.
    pub proof fn lemma_range(&self)
        requires
            self.wf(),
        ensures
            self.base() >= VIRTUAL_QUANTUM_SIZE,
            self.base() % (VIRTUAL_QUANTUM_SIZE as int) == 0,
            self.base() + self.count() * VIRTUAL_QUANTUM_SIZE <= ADDRESS_LIMIT,
    {
        self.available_quanta.lemma_free_in_range();
        assert(self.quantum_base % VIRTUAL_QUANTUM_SIZE == 0);
    }

    /// Index of the quantum that starts at `addr`.
    pub open spec fn index_of(&self, addr: int) -> int {
        (addr - self.base()) / VIRTUAL_QUANTUM_SIZE as int
    }

    /// The set bits of each level of the clean tower.
    pub closed spec fn available_bits(&self) -> Seq<Set<int>> {
        self.available_quanta.bits()
    }

    /// The number of words of each level of the clean tower.
    pub closed spec fn available_shape(&self) -> Seq<int> {
        self.available_quanta.shape()
    }

    spec fn towers_alike(&self) -> bool {
        &&& self.available_quanta.wf()
        &&& self.released_quanta.wf()
        &&& self.available_quanta.levels() == self.released_quanta.levels()
        &&& self.available_quanta.count() == self.released_quanta.count()
        &&& self.available_quanta.shape() == self.released_quanta.shape()
        &&& self.available_quanta.count() <= MAX_QUANTA
        &&& self.available_quanta.levels() <= 32
        &&& self.quantum_base != 0
        &&& self.quantum_base % VIRTUAL_QUANTUM_SIZE == 0
        &&& self.quantum_base + self.available_quanta.count() * VIRTUAL_QUANTUM_SIZE <= ADDRESS_LIMIT
        &&& self.transfer_capacity >= 1
    }

    spec fn transfer_ok(&self) -> bool {
        let tb = self.transfer_buffer@;
        &&& tb.len() <= self.transfer_capacity
        &&& forall|k: int|
            0 <= k < tb.len() ==> entry_level(#[trigger] tb[k]) < self.available_quanta.levels()
                && entry_quantum(tb[k]) % exp2(entry_level(tb[k])) == 0 && entry_quantum(tb[k])
                + exp2(entry_level(tb[k])) <= self.available_quanta.count()
        &&& forall|k1: int, k2: int|
            0 <= k1 < tb.len() && 0 <= k2 < tb.len() && k1 != k2 ==> entry_block(
                #[trigger] tb[k1],
            ).disjoint(entry_block(#[trigger] tb[k2]))
    }

    pub closed spec fn wf(&self) -> bool {
        &&& self.towers_alike()
        &&& self.available().disjoint(self.released())
        &&& self.transfer_buffer@.len() == 0
    }

    /// A storage over the quanta from `start` up to `end`, all of them clean
    /// and free.
    pub fn from_range(start: QuantumAddress, end: QuantumAddress) -> (r: Self)
        requires
            start@ < end@,
            end@ - start@ <= MAX_QUANTA * VIRTUAL_QUANTUM_SIZE,
        ensures
            r.wf(),
            r.base() == start@,
            r.count() == (end@ - start@) / VIRTUAL_QUANTUM_SIZE as int,
            r.levels() == TOWER_LEVELS,
            r.available() == Set::new(|x: int| 0 <= x < r.count()),
            r.released() == Set::<int>::empty(),
            r.flushes() == 0,
    {
        let s = start.start();
        let e = end.start();
        let count = (e - s) / VIRTUAL_QUANTUM_SIZE;
        assert(count >= 1 && count * VIRTUAL_QUANTUM_SIZE == e - s) by {
            assert(((e - s) as int) % (VIRTUAL_QUANTUM_SIZE as int) == 0);
        }
        let mut available_quanta = BuddyTower::new(count, TOWER_LEVELS);
        available_quanta.fill();
        let released_quanta = BuddyTower::new(count, TOWER_LEVELS);
        let cap: usize = if count / 2 >= 1 {
            (count / 2) as usize
        } else {
            1
        };
        QuantumStorage {
            quantum_base: s,
            available_quanta,
            released_quanta,
            transfer_buffer: Vec::new(),
            transfer_capacity: cap,
            flush_count: Ghost(0),
        }
    }

    /// Flushes every TLB, then frees on the clean side every run that the
    /// transfer buffer holds, and empties the buffer.
    fn insert_transfer_vector<S: SystemInterface>(&mut self, sys: &mut S)
        requires
            old(self).towers_alike(),
            old(self).transfer_ok(),
            pending(old(self).transfer_buffer@).disjoint(old(self).available()),
        ensures
            final(self).towers_alike(),
            final(self).transfer_buffer@.len() == 0,
            final(self).available() == old(self).available().union(
                pending(old(self).transfer_buffer@),
            ),
            final(self).released_quanta == old(self).released_quanta,
            final(self).quantum_base == old(self).quantum_base,
            final(self).transfer_capacity == old(self).transfer_capacity,
            final(self).available_quanta.shape() == old(self).available_quanta.shape(),
            final(self).available_quanta.levels() == old(self).available_quanta.levels(),
            final(self).available_quanta.count() == old(self).available_quanta.count(),
            final(self).flushes() == old(self).flushes() + 1,
    {
        sys.global_tlb_flush();
        self.flush_count = Ghost(self.flush_count@ + 1);
        let n = self.transfer_buffer.len();
        let ghost tb = self.transfer_buffer@;
        let ghost a0 = self.available();
        let mut i: usize = 0;
        while i < n
            invariant
                self.towers_alike(),
                self.transfer_ok(),
                self.transfer_buffer@ == tb,
                n == tb.len(),
                i <= n,
                self.released_quanta == old(self).released_quanta,
                self.quantum_base == old(self).quantum_base,
                self.transfer_capacity == old(self).transfer_capacity,
                self.flushes() == old(self).flushes() + 1,
                self.available_quanta.shape() == old(self).available_quanta.shape(),
                self.available_quanta.levels() == old(self).available_quanta.levels(),
                self.available_quanta.count() == old(self).available_quanta.count(),
                a0 == old(self).available(),
                pending(tb).disjoint(a0),
                self.available() == a0.union(pending_upto(tb, i as int)),
                forall|k: int| i <= k < n ==> entry_block(#[trigger] tb[k]).disjoint(self.available()),
            decreases n - i,
        {
            let x = self.transfer_buffer[i];
            let level = x >> QUANTUM_ID_BITS;
            let quantum = x & QUANTUM_ID_MASK;
            let ghost before = self.available();
            self.available_quanta.insert(level, quantum as u64);
            proof {
                assert(self.available() == before.union(entry_block(tb[i as int])));
                assert forall|k: int| i + 1 <= k < n implies entry_block(#[trigger] tb[k]).disjoint(self.available()) by {
                    assert(entry_block(tb[k]).disjoint(entry_block(tb[i as int])));
                }
                assert forall|y: int| #[trigger] self.available().contains(y) == a0.union(pending_upto(tb, i + 1)).contains(y) by {
                    if pending_upto(tb, i + 1).contains(y) {
                        let k = choose|k: int| 0 <= k < i + 1 && #[trigger] entry_block(tb[k]).contains(y);
                        if k < i {
                            assert(pending_upto(tb, i as int).contains(y));
                        }
                    }
                    if pending_upto(tb, i as int).contains(y) {
                        let k = choose|k: int| 0 <= k < i && #[trigger] entry_block(tb[k]).contains(y);
                        assert(pending_upto(tb, i + 1).contains(y));
                    }
                    if entry_block(tb[i as int]).contains(y) {
                        assert(pending_upto(tb, i + 1).contains(y));
                    }
                }
                assert(self.available() =~= a0.union(pending_upto(tb, i + 1)));
            }
            i = i + 1;
        }
        self.transfer_buffer.clear();
    }

    /// Moves every dirty quantum to the clean side: the released tower is
    /// drained level by level into the transfer buffer, which is flushed
    /// into the available tower, after a global TLB flush, whenever it is
    /// full and once at the end.
    pub fn recycle<S: SystemInterface>(&mut self, sys: &mut S)
        requires
            old(self).wf(),
        ensures
            final(self).wf(),
            final(self).base() == old(self).base(),
            final(self).count() == old(self).count(),
            final(self).levels() == old(self).levels(),
            final(self).available() == old(self).unheld(),
            final(self).released() == Set::<int>::empty(),
            final(self).flushes() > old(self).flushes(),
    {
        let ghost a0 = self.available();
        let ghost r0 = self.released();
        let levels = self.released_quanta.level_count();
        proof {
            self.released_quanta.lemma_lens();
        }
        let mut l: usize = 0;
        while l < levels
            invariant
                self.towers_alike(),
                self.transfer_ok(),
                levels == self.released_quanta.levels(),
                self.released_quanta.bits().len() == levels,
                self.quantum_base == old(self).quantum_base,
                self.available_quanta.count() == old(self).available_quanta.count(),
                self.available_quanta.levels() == old(self).available_quanta.levels(),
                self.available_quanta.shape() == old(self).available_quanta.shape(),
                a0 == old(self).available(),
                r0 == old(self).released(),
                self.available().disjoint(self.released()),
                pending(self.transfer_buffer@).disjoint(self.available()),
                pending(self.transfer_buffer@).disjoint(self.released()),
                self.available().union(self.released()).union(pending(self.transfer_buffer@)) == a0.union(r0),
                l <= levels,
                forall|j: int, b: int| 0 <= j < l ==> !#[trigger] self.released_quanta.bits()[j].contains(b),
                self.flushes() >= old(self).flushes(),
            decreases levels - l,
        {
            let words = self.released_quanta.word_count(l);
            let mut w: usize = 0;
            while w < words
                invariant
                    self.towers_alike(),
                    self.transfer_ok(),
                    levels == self.released_quanta.levels(),
                self.released_quanta.bits().len() == levels,
                    l < levels,
                    words == self.released_quanta.shape()[l as int],
                    words <= 0x100_0000,
                    self.quantum_base == old(self).quantum_base,
                    self.available_quanta.count() == old(self).available_quanta.count(),
                    self.available_quanta.levels() == old(self).available_quanta.levels(),
                    self.available_quanta.shape() == old(self).available_quanta.shape(),
                    a0 == old(self).available(),
                    r0 == old(self).released(),
                    self.available().disjoint(self.released()),
                    pending(self.transfer_buffer@).disjoint(self.available()),
                    pending(self.transfer_buffer@).disjoint(self.released()),
                    self.available().union(self.released()).union(pending(self.transfer_buffer@)) == a0.union(r0),
                    w <= words,
                    forall|j: int, b: int| 0 <= j < l ==> !#[trigger] self.released_quanta.bits()[j].contains(b),
                    forall|b: int| 0 <= b < 64 * w ==> !#[trigger] self.released_quanta.bits()[l as int].contains(b),
                    self.flushes() >= old(self).flushes(),
                decreases words - w,
            {
                let mut x = self.released_quanta.level_word(l, w);
                while x != 0
                    invariant
                        self.towers_alike(),
                        self.transfer_ok(),
                        levels == self.released_quanta.levels(),
                self.released_quanta.bits().len() == levels,
                        l < levels,
                        w < words,
                        words == self.released_quanta.shape()[l as int],
                        words <= 0x100_0000,
                        self.quantum_base == old(self).quantum_base,
                        self.available_quanta.count() == old(self).available_quanta.count(),
                        self.available_quanta.levels() == old(self).available_quanta.levels(),
                        self.available_quanta.shape() == old(self).available_quanta.shape(),
                        a0 == old(self).available(),
                        r0 == old(self).released(),
                        self.available().disjoint(self.released()),
                        pending(self.transfer_buffer@).disjoint(self.available()),
                        pending(self.transfer_buffer@).disjoint(self.released()),
                        self.available().union(self.released()).union(pending(self.transfer_buffer@)) == a0.union(r0),
                        forall|j: int, b: int| 0 <= j < l ==> !#[trigger] self.released_quanta.bits()[j].contains(b),
                        forall|b: int| 0 <= b < 64 * w ==> !#[trigger] self.released_quanta.bits()[l as int].contains(b),
                        forall|j: int| 0 <= j < 64 ==> bit_of(x, j) == self.released_quanta.bits()[l as int].contains(w as int * 64 + j),
                        self.flushes() >= old(self).flushes(),
                    decreases x,
                {
                    let bit = x.trailing_zeros() as u64;
                    proof {
                        vstd::std_specs::bits::axiom_u64_trailing_zeros(x);
                    }
                    let b = w as u64 * 64 + bit;
                    let ghost before = *self;
                    proof {
                        assert(bit_of(x, bit as int));
                        assert(self.released_quanta.bits()[l as int].contains(b as int));
                    }
                    self.released_quanta.clear(l, b);
                    proof {
                        assert(self.released_quanta.bits()[l as int] == before.released_quanta.bits()[l as int].remove(b as int));
                        assert forall|j: int, c: int| 0 <= j < l implies !#[trigger] self.released_quanta.bits()[j].contains(c) by {
                            assert(self.released_quanta.bits()[j] == before.released_quanta.bits()[j]);
                        }
                    }
                    if self.transfer_buffer.len() == self.transfer_capacity {
                        self.insert_transfer_vector(sys);
                    }
                    proof {
                        crate::buddy::BuddyTower::lemma_blk_block(l as int, b as int);
                        vstd::arithmetic::power2::lemma_pow2_pos(l as nat);
                        vstd::bits::lemma_u64_shl_is_mul(b, l as u64);
                    }
                    let q = b << (l as u64);
                    let e = encode_transfer(l as u32, q as u32);
                    let ghost mid = *self;
                    self.transfer_buffer.push(e);
                    proof {
                        let tb = self.transfer_buffer@;
                        let nb = blk(l as int, b as int);
                        assert(entry_block(e) == nb);
                        assert(pending(tb) =~= pending(mid.transfer_buffer@).union(nb)) by {
                            assert forall|y: int| #[trigger] pending(tb).contains(y) == pending(mid.transfer_buffer@).union(nb).contains(y) by {
                                if pending(tb).contains(y) {
                                    let k = choose|k: int| 0 <= k < tb.len() && #[trigger] entry_block(tb[k]).contains(y);
                                    if k < tb.len() - 1 {
                                        assert(tb[k] == mid.transfer_buffer@[k]);
                                    }
                                }
                                if pending(mid.transfer_buffer@).contains(y) {
                                    let k = choose|k: int| 0 <= k < mid.transfer_buffer@.len() && #[trigger] entry_block(mid.transfer_buffer@[k]).contains(y);
                                    assert(tb[k] == mid.transfer_buffer@[k]);
                                }
                                if nb.contains(y) {
                                    assert(entry_block(tb[tb.len() - 1]).contains(y));
                                }
                            }
                        }
                        assert forall|k: int| 0 <= k < tb.len() - 1 implies entry_block(#[trigger] tb[k]).disjoint(nb) by {
                            assert(tb[k] == mid.transfer_buffer@[k]);
                            assert forall|y: int| entry_block(tb[k]).contains(y) implies !nb.contains(y) by {
                                assert(pending(mid.transfer_buffer@).contains(y));
                            }
                        }
                        assert forall|k1: int, k2: int|
                            0 <= k1 < tb.len() && 0 <= k2 < tb.len() && k1 != k2 implies entry_block(
                                #[trigger] tb[k1],
                            ).disjoint(entry_block(#[trigger] tb[k2])) by {
                            if k1 < tb.len() - 1 && k2 < tb.len() - 1 {
                                assert(tb[k1] == mid.transfer_buffer@[k1]);
                                assert(tb[k2] == mid.transfer_buffer@[k2]);
                            }
                        }
                        assert(self.available().union(self.released()).union(pending(tb)) =~= a0.union(r0));
                        assert(bit_of(x, bit as int));
                        assert forall|j: int| 0 <= j < 64 implies bit_of(x ^ (1u64 << bit), j) == self.released_quanta.bits()[l as int].contains(w as int * 64 + j) by {
                            assert(self.released_quanta.bits()[l as int].contains(w as int * 64 + j) == (before.released_quanta.bits()[l as int].contains(w as int * 64 + j) && j != bit));
                            crate::buddy::lemma_flip_bit(x, bit, j as u64);
                        }
                        assert((x ^ (1u64 << bit)) < x) by (bit_vector)
                            requires
                                bit < 64,
                                (x >> bit) & 1 == 1,
                        ;
                    }
                    x = x ^ (1u64 << bit);
                }
                proof {
                    assert forall|b: int| 0 <= b < 64 * (w + 1) implies !#[trigger] self.released_quanta.bits()[l as int].contains(b) by {
                        if b >= 64 * w {
                            let j = b - 64 * w;
                            assert(!bit_of(0, j)) by {
                                let jj = j as u64;
                                assert((0u64 >> jj) & 1 == 0) by (bit_vector);
                            }
                        }
                    }
                }
                w = w + 1;
            }
            proof {
                assert forall|j: int, b: int| 0 <= j < l + 1 implies !#[trigger] self.released_quanta.bits()[j].contains(b) by {
                    if j == l && self.released_quanta.bits()[j].contains(b) {
                        self.released_quanta.lemma_bits_bound(j, b);
                    }
                }
            }
            l = l + 1;
        }
        proof {
            self.released_quanta.lemma_no_bits();
        }
        self.insert_transfer_vector(sys);
        proof {
            assert(self.available() =~= a0.union(r0));
        }
    }

    /// Takes a clean run of `2^level` quanta: up to 32 attempts, each a scan
    /// of the available tower followed, where it found nothing, by a recycle.
    /// A run that was dirty when the call began is only handed out after a
    /// global TLB flush.
    pub fn allocate<S: SystemInterface>(
        &mut self,
        level: u32,
        rng: &mut rand::rngs::SmallRng,
        sys: &mut S,
    ) -> (r: Option<QuantumAddress>)
        requires
            old(self).wf(),
            level < old(self).levels(),
        ensures
            final(self).wf(),
            final(self).base() == old(self).base(),
            final(self).count() == old(self).count(),
            final(self).levels() == old(self).levels(),
            final(self).flushes() >= old(self).flushes(),
            final(self).released().subset_of(old(self).released()),
            match r {
                Some(a) => {
                    let q = old(self).index_of(a@);
                    &&& q >= 0
                    &&& a@ == old(self).base() + q * VIRTUAL_QUANTUM_SIZE
                    &&& q % exp2(level as int) == 0
                    &&& q + exp2(level as int) <= old(self).count()
                    &&& block(level as int, q).subset_of(old(self).unheld())
                    &&& final(self).unheld() == old(self).unheld().difference(block(level as int, q))
                    &&& (block(level as int, q).subset_of(old(self).available()) || final(self).flushes() > old(self).flushes())
                },
                None => {
                    &&& final(self).unheld() == old(self).unheld()
                    &&& final(self).released() == Set::<int>::empty()
                    &&& final(self).flushes() > old(self).flushes()
                    &&& forall|t: int, b: int|
                        level <= t < final(self).levels() && final(self).available_shape()[t] <= 16
                            ==> !#[trigger] final(self).available_bits()[t].contains(b)
                },
            },
    {
        let mut attempt: u32 = 0;
        let ghost mut recycled = false;
        while attempt < 32
            invariant
                self.wf(),
                level < self.levels(),
                self.base() == old(self).base(),
                self.count() == old(self).count(),
                self.levels() == old(self).levels(),
                self.unheld() == old(self).unheld(),
                self.flushes() >= old(self).flushes(),
                self.released().subset_of(old(self).released()),
                self.flushes() == old(self).flushes() ==> self.available() == old(self).available(),
                recycled ==> self.released() == Set::<int>::empty() && self.flushes() > old(self).flushes(),
                attempt > 1 ==> recycled,
                attempt > 0 ==> forall|t: int, b: int|
                    level <= t < self.levels() && self.available_shape()[t] <= 16
                        ==> !#[trigger] self.available_bits()[t].contains(b),
            decreases 32 - attempt,
        {
            if attempt > 0 {
                self.recycle(sys);
                proof {
                    recycled = true;
                }
            }
            let found = self.available_quanta.remove(level, rng);
            match found {
                Some(q) => {
                    proof {
                        let p = exp2(level as int);
                        vstd::arithmetic::power2::lemma_pow2_pos(level as nat);
                        assert((q + 1) * VIRTUAL_QUANTUM_SIZE <= self.count() * VIRTUAL_QUANTUM_SIZE) by (nonlinear_arith)
                            requires
                                q + 1 <= q + p,
                                q + p <= self.count(),
                        ;
                        assert(self.unheld() =~= old(self).unheld().difference(block(level as int, q as int)));
                        self.available_quanta.lemma_free_in_range();
                        assert(self.available().disjoint(self.released()));
                    }
                    let addr = self.quantum_base + q * VIRTUAL_QUANTUM_SIZE;
                    proof {
                        vstd::arithmetic::div_mod::lemma_div_multiples_vanish(q as int, VIRTUAL_QUANTUM_SIZE as int);
                        vstd::arithmetic::div_mod::lemma_mod_multiples_basic(q as int, VIRTUAL_QUANTUM_SIZE as int);
                        assert(q * VIRTUAL_QUANTUM_SIZE == VIRTUAL_QUANTUM_SIZE * q);
                        assert((self.quantum_base as int + q * VIRTUAL_QUANTUM_SIZE) % (VIRTUAL_QUANTUM_SIZE as int) == 0) by {
                            vstd::arithmetic::div_mod::lemma_mod_adds(self.quantum_base as int, q * VIRTUAL_QUANTUM_SIZE, VIRTUAL_QUANTUM_SIZE as int);
                        }
                    }
                    return Some(QuantumAddress::from_start(addr));
                },
                None => {},
            }
            attempt = attempt + 1;
        }
        None
    }

    /// Address of the first quantum, as a machine value.
    pub fn base_exec(&self) -> (r: u64)
        ensures
            r == self.base(),
    {
        self.quantum_base
    }

    /// Whether quantum `q` is free, clean or dirty.
    pub fn is_free(&self, q: u64) -> (r: bool)
        requires
            self.wf(),
        ensures
            r == self.unheld().contains(q as int),
    {
        self.available_quanta.contains(q) || self.released_quanta.contains(q)
    }

    /// Whether `quantum` starts a run of `2^level` quanta inside the range
    /// that allocators hold in full.
    pub fn is_held(&self, level: u32, quantum: QuantumAddress) -> (r: bool)
        requires
            self.wf(),
            level < self.levels(),
        ensures
            r == (quantum@ >= self.base() && self.index_of(quantum@) % exp2(level as int) == 0
                && self.index_of(quantum@) + exp2(level as int) <= self.count() && block(
                level as int,
                self.index_of(quantum@),
            ).disjoint(self.unheld())),
    {
        let a = quantum.start();
        if a < self.quantum_base {
            return false;
        }
        let index = self.index_for(level, quantum);
        proof {
            vstd::arithmetic::power2::lemma_pow2_pos(level as nat);
            vstd::arithmetic::power2::lemma_pow2_strictly_increases(level as nat, 32);
            vstd::arithmetic::power2::lemma2_to64();
            vstd::bits::lemma_u64_shl_is_mul(1, level as u64);
        }
        let size = 1u64 << (level as u64);
        if index % size != 0 || index + size > self.available_quanta.count_exec() {
            return false;
        }
        let mut i: u64 = 0;
        while i < size
            invariant
                self.wf(),
                size == exp2(level as int),
                index + size <= self.count(),
                quantum@ >= self.base(),
                index == self.index_of(quantum@),
                (index as int) % exp2(level as int) == 0,
                i <= size,
                forall|x: int| index <= x < index + i ==> !#[trigger] self.unheld().contains(x),
            decreases size - i,
        {
            if self.is_free(index + i) {
                assert(block(level as int, index as int).contains(index + i));
                return false;
            }
            i = i + 1;
        }
        assert(block(level as int, index as int).disjoint(self.unheld()));
        true
    }

    /// Returns a run to the dirty side where allocators hold all of it, and
    /// says whether it did; otherwise nothing changes.
    pub fn release_dirty(&mut self, level: u32, quantum: QuantumAddress) -> (r: bool)
        requires
            old(self).wf(),
            level < old(self).levels(),
        ensures
            final(self).wf(),
            final(self).base() == old(self).base(),
            final(self).count() == old(self).count(),
            final(self).levels() == old(self).levels(),
            r == (quantum@ >= old(self).base() && old(self).index_of(quantum@) % exp2(level as int) == 0
                && old(self).index_of(quantum@) + exp2(level as int) <= old(self).count() && block(
                level as int,
                old(self).index_of(quantum@),
            ).disjoint(old(self).unheld())),
            r ==> final(self).released() == old(self).released().union(
                block(level as int, old(self).index_of(quantum@)),
            ),
            final(self).available() == old(self).available(),
            !r ==> final(self).released() == old(self).released(),
    {
        if !self.is_held(level, quantum) {
            return false;
        }
        self.dealloc_dirty(level, quantum);
        true
    }

    /// Returns a run to the clean side where allocators hold all of it, and
    /// says whether it did; otherwise nothing changes.
    pub fn release_clean(&mut self, level: u32, quantum: QuantumAddress) -> (r: bool)
        requires
            old(self).wf(),
            level < old(self).levels(),
        ensures
            final(self).wf(),
            final(self).base() == old(self).base(),
            final(self).count() == old(self).count(),
            final(self).levels() == old(self).levels(),
            r == (quantum@ >= old(self).base() && old(self).index_of(quantum@) % exp2(level as int) == 0
                && old(self).index_of(quantum@) + exp2(level as int) <= old(self).count() && block(
                level as int,
                old(self).index_of(quantum@),
            ).disjoint(old(self).unheld())),
            r ==> final(self).available() == old(self).available().union(
                block(level as int, old(self).index_of(quantum@)),
            ),
            final(self).released() == old(self).released(),
            !r ==> final(self).available() == old(self).available(),
    {
        if !self.is_held(level, quantum) {
            return false;
        }
        self.dealloc_clean(level, quantum);
        true
    }

    /// A quantum index that some allocator holds, turned back into the
    /// storage's index space.
    fn index_for(&self, level: u32, quantum: QuantumAddress) -> (r: u64)
        requires
            self.towers_alike(),
            quantum@ >= self.base(),
        ensures
            r == self.index_of(quantum@),
    {
        let a = quantum.start();
        (a - self.quantum_base) / VIRTUAL_QUANTUM_SIZE
    }

    /// Returns the run of `2^level` quanta that starts at `quantum`, which
    /// has held no stale translation, to the clean side.
    pub fn dealloc_clean(&mut self, level: u32, quantum: QuantumAddress)
        requires
            old(self).wf(),
            level < old(self).levels(),
            quantum@ >= old(self).base(),
            old(self).index_of(quantum@) % exp2(level as int) == 0,
            old(self).index_of(quantum@) + exp2(level as int) <= old(self).count(),
            block(level as int, old(self).index_of(quantum@)).disjoint(old(self).unheld()),
        ensures
            final(self).wf(),
            final(self).base() == old(self).base(),
            final(self).count() == old(self).count(),
            final(self).levels() == old(self).levels(),
            final(self).available() == old(self).available().union(
                block(level as int, old(self).index_of(quantum@)),
            ),
            final(self).released() == old(self).released(),
    {
        let index = self.index_for(level, quantum);
        self.available_quanta.insert(level, index);
    }

    /// Returns the run of `2^level` quanta that starts at `quantum`, which
    /// may still have stale translations, to the dirty side.
    pub fn dealloc_dirty(&mut self, level: u32, quantum: QuantumAddress)
        requires
            old(self).wf(),
            level < old(self).levels(),
            quantum@ >= old(self).base(),
            old(self).index_of(quantum@) % exp2(level as int) == 0,
            old(self).index_of(quantum@) + exp2(level as int) <= old(self).count(),
            block(level as int, old(self).index_of(quantum@)).disjoint(old(self).unheld()),
        ensures
            final(self).wf(),
            final(self).base() == old(self).base(),
            final(self).count() == old(self).count(),
            final(self).levels() == old(self).levels(),
            final(self).released() == old(self).released().union(
                block(level as int, old(self).index_of(quantum@)),
            ),
            final(self).available() == old(self).available(),
    {
        let index = self.index_for(level, quantum);
        self.released_quanta.insert(level, index);
    }
}

/// No quantum is both clean and dirty: nothing in the released tower is in
/// the available tower.
pub proof fn lemma_released_not_available(s: &QuantumStorage)
    requires
        s.wf(),
    ensures
        s.released().disjoint(s.available()),
{
}

/// Round trip of a run: after `allocate` hands out the run `block(level, q)`,
/// `dealloc_dirty` (or a successful `release_dirty`) gives it back and
/// `recycle` runs, the clean quanta are exactly the free quanta from before
/// the allocation and none is dirty.
pub proof fn lemma_alloc_dealloc_recycle(
    s0: QuantumStorage,
    s1: QuantumStorage,
    s2: QuantumStorage,
    s3: QuantumStorage,
    level: int,
    q: int,
)
    requires
        s0.wf(),
        s1.wf(),
        block(level, q).subset_of(s0.unheld()),
        s1.unheld() == s0.unheld().difference(block(level, q)),
        s2.released() == s1.released().union(block(level, q)),
        s2.available() == s1.available(),
        s3.available() == s2.unheld(),
        s3.released() == Set::<int>::empty(),
    ensures
        s2.unheld() == s0.unheld(),
        s3.available() == s0.unheld(),
        s3.unheld() == s0.unheld(),
{
    assert forall|x: int| #[trigger] s2.unheld().contains(x) == s0.unheld().contains(x) by {
        assert(s1.unheld().contains(x) == (s1.available().contains(x) || s1.released().contains(x)));
        if block(level, q).contains(x) {
            assert(s0.unheld().contains(x));
        }
    }
    assert(s2.unheld() =~= s0.unheld());
    assert(s3.unheld() =~= s0.unheld());
}

} // verus!
