//! Buddy bitmaps over virtual quanta. One `BuddyMap` holds one bit for each
//! aligned block of one size; a `BuddyTower` stacks one map per size, block
//! `b` of level `l` standing for the quanta `q` with `q / 2^l == b`.

use crate::rng::random_index;
use vstd::arithmetic::div_mod::{
    lemma_div_denominator, lemma_div_multiples_vanish, lemma_fundamental_div_mod,
};
use vstd::arithmetic::mul::lemma_mul_strict_inequality_converse;
use vstd::arithmetic::power2::{lemma_pow2_pos, lemma_pow2_unfold, pow2};
use vstd::bits::{lemma_u64_shl_is_mul, lemma_u64_shr_is_div};
use vstd::prelude::*;

verus! {

/// Bit `j` of `x`.
pub open spec fn bit_of(x: u64, j: int) -> bool {
    (x >> (j as u64)) & 1 == 1
}

/// The block that pairs with `b` one level up.
pub open spec fn buddy(b: int) -> int {
    if b % 2 == 0 {
        b + 1
    } else {
        b - 1
    }
}

pub proof fn lemma_flip_bit(x: u64, i: u64, j: u64)
    requires
        i < 64,
        j < 64,
    ensures
        bit_of(x ^ (1u64 << i), j as int) == (if i == j {
            !bit_of(x, j as int)
        } else {
            bit_of(x, j as int)
        }),
{
    assert((((x ^ (1u64 << i)) >> j) & 1 == 1) == (if i == j {
        (x >> j) & 1 != 1
    } else {
        (x >> j) & 1 == 1
    })) by (bit_vector)
        requires
            i < 64,
            j < 64,
    ;
}

/// Stepping one position on in a ring of `len` slots.
pub proof fn lemma_mod_step(a: int, len: int)
    requires
        a >= 0,
        len > 0,
    ensures
        (a + 1) % len == (if a % len + 1 == len {
            0
        } else {
            a % len + 1
        }),
{
    lemma_fundamental_div_mod(a, len);
    let q = a / len;
    let r = a % len;
    assert(a + 1 == q * len + (r + 1)) by (nonlinear_arith)
        requires
            a == len * q + r,
    ;
    if r + 1 == len {
        assert(a + 1 == (q + 1) * len + 0) by (nonlinear_arith)
            requires
                a + 1 == q * len + (r + 1),
                r + 1 == len,
        ;
        vstd::arithmetic::div_mod::lemma_fundamental_div_mod_converse(a + 1, len, q + 1, 0);
    } else {
        vstd::arithmetic::div_mod::lemma_fundamental_div_mod_converse(a + 1, len, q, r + 1);
    }
}

/// Scanning 16 consecutive words of a ring of at most 16 words visits all.
pub proof fn lemma_scan_covers(start: int, len: int, w: int)
    requires
        0 <= start < len <= 16,
        0 <= w < len,
    ensures
        exists|j: int| 0 <= j < 16 && #[trigger] ((start + j) % len) == w,
{
    let j = if w >= start {
        w - start
    } else {
        w + len - start
    };
    if w >= start {
        vstd::arithmetic::div_mod::lemma_fundamental_div_mod_converse(start + j, len, 0, w);
    } else {
        vstd::arithmetic::div_mod::lemma_fundamental_div_mod_converse(start + j, len, 1, w);
    }
    assert((start + j) % len == w);
}

proof fn lemma_zero_word(j: u64)
    requires
        j < 64,
    ensures
        !bit_of(0, j as int),
{
    assert((0u64 >> j) & 1 == 0) by (bit_vector);
}

proof fn lemma_nonzero_word(x: u64)
    requires
        x != 0,
    ensures
        exists|j: int| 0 <= j < 64 && bit_of(x, j),
{
    let t = x.trailing_zeros();
    vstd::std_specs::bits::axiom_u64_trailing_zeros(x);
    assert(bit_of(x, t as int));
}

/// One bit for each block of one level.
pub struct BuddyMap {
    pairs: Vec<u64>,
}

impl BuddyMap {
    /// Number of bits the map holds.
    pub closed spec fn cap(&self) -> int {
        64 * self.pairs@.len() as int
    }

    /// The bit of block `b` is set.
    pub closed spec fn has(&self, b: int) -> bool {
        0 <= b < self.cap() && bit_of(self.pairs@[b / 64], b % 64)
    }

    /// The word at `w`: its bit `j` is the bit of block `64 * w + j`.
    pub closed spec fn word_value(&self, w: int) -> u64 {
        self.pairs@[w]
    }

    /// A zero word holds no set bit.
    pub proof fn lemma_zero_word_clear(&self, w: int, c: int)
        requires
            0 <= w < self.words(),
            self.word_value(w) == 0,
            c / 64 == w,
        ensures
            !self.has(c),
    {
        if 0 <= c < self.cap() {
            lemma_zero_word((c % 64) as u64);
        }
    }

    /// Number of 64-bit words.
    pub closed spec fn words(&self) -> int {
        self.pairs@.len() as int
    }

    /// Number of words, as a machine value.
    pub fn words_len(&self) -> (r: usize)
        ensures
            r == self.words(),
    {
        self.pairs.len()
    }

    pub proof fn lemma_cap(&self)
        ensures
            self.cap() == 64 * self.words(),
            self.words() >= 0,
    {
    }

    /// A map of `words` words, all clear.
    pub fn new(words: usize) -> (r: Self)
        ensures
            r.words() == words,
            forall|b: int| !#[trigger] r.has(b),
    {
        let mut pairs: Vec<u64> = Vec::new();
        let mut i: usize = 0;
        while i < words
            invariant
                i <= words,
                pairs@.len() == i,
                forall|j: int| 0 <= j < i ==> pairs@[j] == 0,
            decreases words - i,
        {
            pairs.push(0);
            i = i + 1;
        }
        let r = BuddyMap { pairs };
        assert forall|b: int| !#[trigger] r.has(b) by {
            if 0 <= b < r.cap() {
                lemma_zero_word((b % 64) as u64);
            }
        }
        r
    }

    /// Sets the bit of block `b`, unless the bit of its buddy is set: then
    /// that bit is cleared instead and `true` returned, the two being free
    /// together one level up.
    pub fn insert(&mut self, b: u64) -> (r: bool)
        requires
            b < old(self).cap(),
            old(self).words() <= 0x100_0000,
            !old(self).has(b as int),
        ensures
            final(self).words() == old(self).words(),
            r == old(self).has(buddy(b as int)),
            forall|c: int|
                #[trigger] final(self).has(c) == (if r {
                    old(self).has(c) && c != buddy(b as int)
                } else {
                    old(self).has(c) || c == b
                }),
    {
        assert(b / 64 < self.pairs@.len());
        let word = (b / 64) as usize;
        let bit = b % 64;
        let buddy_bit = bit ^ 1;
        let x = self.pairs[word];
        proof {
            assert(buddy_bit == (if bit % 2 == 0 {
                bit + 1
            } else {
                bit - 1
            })) by (bit_vector)
                requires
                    buddy_bit == bit ^ 1,
                    bit < 64,
            ;
            assert(buddy(b as int) / 64 == b / 64 && buddy(b as int) % 64 == buddy_bit);
        }
        let has_buddy = (x >> buddy_bit) & 1 == 1;
        let ghost pre = *old(self);
        let r = if has_buddy {
            self.pairs.set(word, x ^ (1u64 << buddy_bit));
            true
        } else {
            self.pairs.set(word, x ^ (1u64 << bit));
            false
        };
        proof {
            assert(has_buddy == pre.has(buddy(b as int)));
            let flipped = if r {
                buddy_bit
            } else {
                bit
            };
            assert forall|c: int|
                #[trigger] self.has(c) == (if r {
                    pre.has(c) && c != buddy(b as int)
                } else {
                    pre.has(c) || c == b
                }) by {
                if 0 <= c < self.cap() {
                    if c / 64 == word as int {
                        lemma_flip_bit(x, flipped, (c % 64) as u64);
                    }
                }
            }
        }
        r
    }

    /// Whether the bit of block `b` is set.
    pub fn contains(&self, b: u64) -> (r: bool)
        requires
            b < self.cap(),
            self.words() <= 0x100_0000,
        ensures
            r == self.has(b as int),
    {
        assert(b / 64 < self.pairs@.len());
        let w = (b / 64) as usize;
        let j = b % 64;
        assert(w as int == b as int / 64 && j as int == b as int % 64);
        let x = self.pairs[w];
        assert(bit_of(x, j as int) == ((x >> j) & 1 == 1));
        (x >> j) & 1 == 1
    }

    /// Clears the bit of block `b`.
    pub fn clear_bit(&mut self, b: u64)
        requires
            b < old(self).cap(),
            old(self).words() <= 0x100_0000,
        ensures
            final(self).words() == old(self).words(),
            forall|c: int| #[trigger] final(self).has(c) == (old(self).has(c) && c != b),
    {
        assert(b / 64 < self.pairs@.len());
        let word = (b / 64) as usize;
        let bit = b % 64;
        let x = self.pairs[word];
        let ghost pre = *old(self);
        self.pairs.set(word, x & !(1u64 << bit));
        proof {
            assert forall|c: int| #[trigger] self.has(c) == (pre.has(c) && c != b) by {
                if 0 <= c < self.cap() && c / 64 == word as int {
                    let j = (c % 64) as u64;
                    assert((((x & !(1u64 << bit)) >> j) & 1 == 1) == (j != bit && (x >> j) & 1
                        == 1)) by (bit_vector)
                        requires
                            j < 64,
                            bit < 64,
                    ;
                }
            }
        }
    }

    /// The word `w`, whose bit `j` is the bit of block `64 * w + j`.
    pub fn word(&self, w: usize) -> (r: u64)
        requires
            w < self.words(),
        ensures
            forall|j: int| 0 <= j < 64 ==> bit_of(r, j) == self.has(w as int * 64 + j),
    {
        let x = self.pairs[w];
        proof {
            assert forall|j: int| 0 <= j < 64 implies bit_of(x, j) == self.has(w as int * 64 + j) by {
                let c = w as int * 64 + j;
                assert(c / 64 == w as int && c % 64 == j);
            }
        }
        x
    }

    /// Sets the bit of block `b`, whatever its buddy holds.
    pub fn set_bit(&mut self, b: u64)
        requires
            b < old(self).cap(),
            old(self).words() <= 0x100_0000,
        ensures
            final(self).words() == old(self).words(),
            forall|c: int| #[trigger] final(self).has(c) == (old(self).has(c) || c == b),
    {
        assert(b / 64 < self.pairs@.len());
        let word = (b / 64) as usize;
        let bit = b % 64;
        let x = self.pairs[word];
        let ghost pre = *old(self);
        self.pairs.set(word, x | (1u64 << bit));
        proof {
            assert forall|c: int| #[trigger] self.has(c) == (pre.has(c) || c == b) by {
                if 0 <= c < self.cap() && c / 64 == word as int {
                    let j = (c % 64) as u64;
                    assert((((x | (1u64 << bit)) >> j) & 1 == 1) == (j == bit || (x >> j) & 1
                        == 1)) by (bit_vector)
                        requires
                            j < 64,
                            bit < 64,
                    ;
                }
            }
        }
    }

    /// Looks for a set bit in at most 16 words, from word `start` on and
    /// wrapping at the end. In the first non-zero word met, the lowest set
    /// bit is cleared and its block returned.
    pub fn remove(&mut self, start: usize) -> (r: Option<u64>)
        requires
            start < old(self).words(),
            old(self).words() <= 0x100_0000,
        ensures
            final(self).words() == old(self).words(),
            match r {
                Some(b) => (exists|j: int|
                    0 <= j < 16 && b / 64 == #[trigger] ((start + j) % old(self).words()) && forall|j2: int|
                        0 <= j2 < j ==> #[trigger] old(self).word_value((start + j2) % old(self).words()) == 0)
                    && old(self).has(b as int) && forall|c: int|
                    #[trigger] final(self).has(c) == (old(self).has(c) && c != b as int) && (
                    forall|c: int|
                        b as int - b as int % 64 <= c < b ==> !old(self).has(c)),
                None => *final(self) == *old(self) && forall|j: int|
                    0 <= j < 16 ==> #[trigger] old(self).word_value((start + j) % old(self).words()) == 0,
            },
    {
        let len = self.pairs.len();
        let mut i = start;
        let mut n: usize = 0;
        proof {
            vstd::arithmetic::div_mod::lemma_small_mod(start as nat, len as nat);
        }
        while n < 16
            invariant
                *self == *old(self),
                len == self.words(),
                len <= 0x100_0000,
                i < len,
                n <= 16,
                i == (start + n) % (len as int),
                forall|j: int| 0 <= j < n ==> #[trigger] self.word_value((start + j) % (len as int)) == 0,
            decreases 16 - n,
        {
            let x = self.pairs[i];
            if x != 0 {
                let bit = x.trailing_zeros();
                proof {
                    vstd::std_specs::bits::axiom_u64_trailing_zeros(x);
                }
                let ghost b = i as int * 64 + bit as int;
                self.pairs.set(i, x ^ (1u64 << (bit as u64)));
                proof {
                    assert(b / 64 == i as int && b % 64 == bit as int);
                    assert forall|c: int|
                        #[trigger] self.has(c) == (old(self).has(c) && c != b) by {
                        if 0 <= c < self.cap() && c / 64 == i as int {
                            lemma_flip_bit(x, bit as u64, (c % 64) as u64);
                        }
                    }
                    assert forall|c: int| b - b % 64 <= c < b implies !old(self).has(c) by {
                        assert(c / 64 == i as int);
                        let j = (c % 64) as u64;
                        assert(j < bit);
                        assert((x >> j) & 1u64 == 0u64);
                    }
                }
                proof {
                    assert(b / 64 == (start + n) % (len as int));
                }
                return Some(i as u64 * 64 + bit as u64);
            }
            proof {
                lemma_mod_step(start + n, len as int);
            }
            i = i + 1;
            if i == len {
                i = 0;
            }
            n = n + 1;
        }
        None
    }
}

/// `2^l`.
pub open spec fn exp2(l: int) -> int {
    pow2(l as nat) as int
}

/// The quanta of block `b` at level `l`.
pub open spec fn blk(l: int, b: int) -> Set<int> {
    Set::new(|x: int| 0 <= x && x / exp2(l as int) == b)
}

/// The aligned run of `2^level` quanta that starts at `q`.
pub open spec fn block(level: int, q: int) -> Set<int> {
    Set::new(|x: int| q <= x < q + exp2(level as int))
}

proof fn lemma_div_step(x: int, l: int)
    requires
        x >= 0,
        l >= 0,
    ensures
        exp2(l) > 0,
        exp2(l + 1) == 2 * exp2(l),
        x / exp2(l + 1) == (x / exp2(l)) / 2,
{
    lemma_pow2_pos(l as nat);
    lemma_pow2_unfold((l + 1) as nat);
    lemma_div_denominator(x, exp2(l), 2);
}

proof fn lemma_witness(b: int, l: int)
    requires
        b >= 0,
        l >= 0,
    ensures
        exp2(l) > 0,
        b * exp2(l) >= 0,
        (b * exp2(l)) / exp2(l) == b,
{
    lemma_pow2_pos(l as nat);
    lemma_div_multiples_vanish(b, exp2(l));
    vstd::arithmetic::mul::lemma_mul_is_commutative(b, exp2(l));
    assert(b * exp2(l) >= 0) by (nonlinear_arith)
        requires
            b >= 0,
            exp2(l) > 0,
    ;
}

/// For an aligned start `q`, the block of `q / 2^l` at level `l` is the run
/// `[q, q + 2^l)`.
proof fn lemma_blk_is_block(l: int, q: int)
    requires
        q >= 0,
        l >= 0,
        q % exp2(l) == 0,
    ensures
        blk(l, q / exp2(l)) == block(l, q),
{
    let p = exp2(l);
    lemma_pow2_pos(l as nat);
    lemma_fundamental_div_mod(q, p);
    assert forall|x: int| #[trigger] blk(l as int, q / p).contains(x) == block(l as int, q).contains(x) by {
        if x >= 0 {
            lemma_fundamental_div_mod(x, p);
            let d = x / p;
            let e = q / p;
            assert(q == p * e);
            assert(x == p * d + x % p);
            assert(d == e <==> (q <= x < q + p)) by (nonlinear_arith)
                requires
                    p > 0,
                    q == p * e,
                    x == p * d + x % p,
                    0 <= x % p < p,
            ;
        } else {
            assert(q <= x ==> false);
        }
    }
    assert(blk(l as int, q / p) =~= block(l as int, q));
}

/// Number of words at level `l` of a tower over `n` quanta: one bit for each
/// block of `2^l` quanta, rounded up.
pub open spec fn level_words(n: int, l: nat) -> int
    decreases l,
{
    if l == 0 {
        (n + 63) / 64
    } else {
        (level_words(n, (l - 1) as nat) + 1) / 2
    }
}

/// A hierarchy of buddy maps over `count` quanta: a set bit of block `b` at
/// level `l` stands for the free quanta of `blk(l, b)`.
pub struct BuddyTower {
    quantum_count: u64,
    maps: Vec<BuddyMap>,
}

impl BuddyTower {
    pub closed spec fn levels(&self) -> int {
        self.maps@.len() as int
    }

    pub closed spec fn count(&self) -> int {
        self.quantum_count as int
    }

    /// The bit of level `l` that covers quantum `x` is set.
    pub closed spec fn covers(&self, l: int, x: int) -> bool {
        0 <= l < self.maps@.len() && 0 <= x && self.maps@[l].has(x / exp2(l as int))
    }

    /// The free quanta, indexed from the first quantum of the range.
    pub closed spec fn free(&self) -> Set<int> {
        Set::new(|x: int| exists|l: int| #[trigger] self.covers(l, x))
    }

    /// The set bits of each level.
    pub closed spec fn bits(&self) -> Seq<Set<int>> {
        Seq::new(self.maps@.len(), |l: int| Set::new(|b: int| self.maps@[l].has(b)))
    }

    /// The number of words at each level, which fixes the tower's shape.
    pub closed spec fn shape(&self) -> Seq<int> {
        Seq::new(self.maps@.len(), |l: int| self.maps@[l].words())
    }

    pub closed spec fn wf(&self) -> bool {
        &&& 1 <= self.maps@.len() <= 32
        &&& 1 <= self.quantum_count <= 0x800_0000
        &&& forall|l: int|
            0 <= l < self.maps@.len() ==> 1 <= #[trigger] self.maps@[l].words() <= 0x100_0000
                && self.maps@[l].cap() * exp2(l as int) >= self.quantum_count
        &&& forall|l: int|
            0 <= l < self.maps@.len() - 1 ==> #[trigger] self.maps@[l + 1].cap() * 2
                >= self.maps@[l].cap()
        &&& forall|x: int, l1: int, l2: int|
            #[trigger] self.covers(l1, x) && #[trigger] self.covers(l2, x) ==> l1 == l2
        &&& forall|x: int, l: int| #[trigger] self.covers(l, x) ==> x < self.quantum_count
        &&& self.coalesced()
    }

    /// Below the top level, no two buddies are free apart: they would have
    /// merged one level up.
    pub closed spec fn coalesced(&self) -> bool {
        forall|l: int, b: int|
            0 <= l < self.maps@.len() - 1 && #[trigger] self.maps@[l].has(b) ==> !self.maps@[l].has(buddy(b))
    }

    /// In a well-formed tower, a free block's buddy is not free below the
    /// top level.
    pub proof fn lemma_buddies_merged(&self, l: int, b: int)
        requires
            self.wf(),
            0 <= l < self.levels() - 1,
            self.bits()[l].contains(b),
        ensures
            !self.bits()[l].contains(buddy(b)),
    {
    }

    /// The free quanta all lie in `[0, count)`.
    pub proof fn lemma_free_in_range(&self)
        requires
            self.wf(),
        ensures
            forall|x: int| #[trigger] self.free().contains(x) ==> 0 <= x < self.count(),
    {
    }

    /// A tower of `levels` levels over `quantum_count` quanta, all of them
    /// taken.
    pub fn new(quantum_count: u64, levels: usize) -> (r: Self)
        requires
            1 <= quantum_count <= 0x800_0000,
            1 <= levels <= 32,
        ensures
            r.wf(),
            r.levels() == levels,
            r.count() == quantum_count,
            r.free() == Set::<int>::empty(),
            r.shape() == Seq::new(levels as nat, |l: int| level_words(quantum_count as int, l as nat)),
    {
        let mut maps: Vec<BuddyMap> = Vec::new();
        let mut words = (quantum_count + 63) / 64;
        let mut l: usize = 0;
        proof {
            lemma_pow2_pos(0);
            vstd::arithmetic::power2::lemma2_to64();
            assert(exp2(0) == 1);
            assert(64 * words * exp2(0) == 64 * words);
        }
        while l < levels
            invariant
                l <= levels <= 32,
                maps@.len() == l,
                1 <= words <= 0x20_0000,
                1 <= quantum_count <= 0x800_0000,
                64 * words * exp2(l as int) >= quantum_count,
                l > 0 ==> 2 * words >= maps@[l - 1].words(),
                words == level_words(quantum_count as int, l as nat),
                forall|j: int| 0 <= j < l ==> #[trigger] maps@[j].words() == level_words(quantum_count as int, j as nat),
                forall|j: int|
                    0 <= j < l ==> 1 <= #[trigger] maps@[j].words() <= 0x100_0000
                        && maps@[j].cap() * exp2(j) >= quantum_count,
                forall|j: int|
                    0 <= j < l - 1 ==> #[trigger] maps@[j + 1].cap() * 2 >= maps@[j].cap(),
                forall|j: int, b: int| 0 <= j < l ==> !#[trigger] maps@[j].has(b),
            decreases levels - l,
        {
            let m = BuddyMap::new(words as usize);
            proof {
                m.lemma_cap();
                if l > 0 {
                    maps@[l - 1].lemma_cap();
                }
            }
            maps.push(m);
            proof {
                lemma_div_step(0, l as int);
                lemma_pow2_pos(l as nat);
                let w = words as int;
                let p = exp2(l as int);
                assert(64 * ((w + 1) / 2) * (2 * p) >= 64 * w * p) by (nonlinear_arith)
                    requires
                        w >= 1,
                        p > 0,
                ;
            }
            words = (words + 1) / 2;
            l = l + 1;
        }
        let r = BuddyTower { quantum_count, maps };
        assert(r.free() =~= Set::<int>::empty());
        assert(r.shape() =~= Seq::new(levels as nat, |l: int| level_words(quantum_count as int, l as nat)));
        r
    }

    /// Adds the quanta of `[q, q + 2^level)`, none of which is free, merging
    /// each block with its buddy while both are free.
    pub fn insert(&mut self, level: u32, q: u64)
        requires
            old(self).wf(),
            level < old(self).levels(),
            (q as int) % exp2(level as int) == 0,
            q + exp2(level as int) <= old(self).count(),
            block(level as int, q as int).disjoint(old(self).free()),
        ensures
            final(self).wf(),
            final(self).levels() == old(self).levels(),
            final(self).count() == old(self).count(),
            final(self).shape() == old(self).shape(),
            final(self).free() == old(self).free().union(block(level as int, q as int)),
    {
        proof {
            lemma_u64_shr_is_div(q, level as u64);
            lemma_blk_is_block(level as int, q as int);
            lemma_witness((q as int) / exp2(level as int), level as int);
            let b = (q as int) / exp2(level as int);
            let x = b * exp2(level as int);
            assert(blk(level as int, b).contains(x));
            self.maps@[level as int].lemma_cap();
            assert(x < self.count());
            lemma_mul_strict_inequality_converse(b, self.maps@[level as int].cap(), exp2(level as int));
        }
        let b = q >> (level as u64);
        self.insert_at(level as usize, b);
    }

    /// Marks every quantum of the range free, one at a time from the first,
    /// so that buddies merge as they meet.
    pub fn fill(&mut self)
        requires
            old(self).wf(),
            old(self).free() == Set::<int>::empty(),
        ensures
            final(self).wf(),
            final(self).levels() == old(self).levels(),
            final(self).count() == old(self).count(),
            final(self).shape() == old(self).shape(),
            final(self).free() == Set::new(|x: int| 0 <= x < old(self).count()),
    {
        let n = self.quantum_count;
        let mut q: u64 = 0;
        proof {
            lemma_pow2_pos(0);
            vstd::arithmetic::power2::lemma2_to64();
            assert(self.free() =~= Set::new(|x: int| 0 <= x < 0));
        }
        while q < n
            invariant
                self.wf(),
                self.levels() == old(self).levels(),
                self.count() == old(self).count(),
                self.shape() == old(self).shape(),
                n == self.count(),
                q <= n,
                exp2(0) == 1,
                self.free() == Set::new(|x: int| 0 <= x < q),
            decreases n - q,
        {
            proof {
                assert(block(0, q as int) =~= set![q as int]);
            }
            self.insert(0, q);
            proof {
                assert(self.free() =~= Set::new(|x: int| 0 <= x < q + 1));
            }
            q = q + 1;
        }
    }

    /// Number of quanta, as a machine value.
    pub fn count_exec(&self) -> (r: u64)
        ensures
            r == self.count(),
    {
        self.quantum_count
    }

    /// Number of levels, as a machine value.
    pub fn level_count(&self) -> (r: usize)
        ensures
            r == self.levels(),
    {
        self.maps.len()
    }

    /// Number of words at level `l`, as a machine value.
    pub fn word_count(&self, l: usize) -> (r: usize)
        requires
            self.wf(),
            l < self.levels(),
        ensures
            r == self.shape()[l as int],
            1 <= r <= 0x100_0000,
    {
        self.maps[l].words_len()
    }

    /// Word `w` of level `l`: its bit `j` is set where block `64 * w + j`
    /// of that level is free.
    pub fn level_word(&self, l: usize, w: usize) -> (r: u64)
        requires
            self.wf(),
            l < self.levels(),
            w < self.shape()[l as int],
        ensures
            forall|j: int| 0 <= j < 64 ==> bit_of(r, j) == self.bits()[l as int].contains(w as int * 64 + j),
    {
        self.maps[l].word(w)
    }

    /// Takes block `b` of level `l`, whose bit is set.
    pub fn clear(&mut self, l: usize, b: u64)
        requires
            old(self).wf(),
            l < old(self).levels(),
            old(self).bits()[l as int].contains(b as int),
        ensures
            final(self).wf(),
            final(self).levels() == old(self).levels(),
            final(self).count() == old(self).count(),
            final(self).shape() == old(self).shape(),
            final(self).bits() == old(self).bits().update(l as int, old(self).bits()[l as int].remove(b as int)),
            blk(l as int, b as int).subset_of(old(self).free()),
            final(self).free() == old(self).free().difference(blk(l as int, b as int)),
            (b as int) * exp2(l as int) + exp2(l as int) <= old(self).count(),
    {
        let ghost pre = *old(self);
        proof {
            pre.maps@[l as int].lemma_cap();
        }
        self.maps[l].clear_bit(b);
        proof {
            assert(self.maps@.len() == pre.maps@.len());
            assert forall|j: int| 0 <= j < pre.levels() && j != l implies self.maps@[j] == pre.maps@[j] by {}
            Self::lemma_clear_effect(&pre, self, l as int, b as int);
            assert forall|j: int| 0 <= j < self.levels() implies #[trigger] self.bits()[j] == pre.bits().update(l as int, pre.bits()[l as int].remove(b as int))[j] by {
                if j == l as int {
                    assert(self.bits()[j] =~= pre.bits()[j].remove(b as int));
                } else {
                    assert(self.bits()[j] =~= pre.bits()[j]);
                }
            }
            assert(self.bits() =~= pre.bits().update(l as int, pre.bits()[l as int].remove(b as int)));
            let p = exp2(l as int);
            lemma_witness(b as int, l as int);
            lemma_witness(b as int + 1, l as int);
            assert((b as int + 1) * p == b * p + p) by (nonlinear_arith);
            let x = (b as int + 1) * p - 1;
            assert(x / p == b as int) by {
                vstd::arithmetic::div_mod::lemma_fundamental_div_mod_converse(x, p, b as int, p - 1);
            }
            assert(blk(l as int, b as int).contains(x));
            assert(pre.covers(l as int, x));
        }
    }

    /// Whether quantum `q` is free.
    pub fn contains(&self, q: u64) -> (r: bool)
        requires
            self.wf(),
        ensures
            r == self.free().contains(q as int),
    {
        if q >= self.quantum_count {
            return false;
        }
        let n = self.maps.len();
        let mut l: usize = 0;
        while l < n
            invariant
                self.wf(),
                n == self.maps@.len(),
                q < self.quantum_count,
                l <= n,
                forall|j: int| 0 <= j < l ==> !#[trigger] self.covers(j, q as int),
            decreases n - l,
        {
            proof {
                self.maps@[l as int].lemma_cap();
                lemma_pow2_pos(l as nat);
                lemma_u64_shr_is_div(q, l as u64);
                let p = exp2(l as int);
                let c = self.maps@[l as int].cap();
                lemma_fundamental_div_mod(q as int, p);
                let d = (q as int) / p;
                let rem = (q as int) % p;
                assert(d < c) by (nonlinear_arith)
                    requires
                        q == p * d + rem,
                        rem >= 0,
                        q < c * p,
                        p > 0,
                ;
            }
            if self.maps[l].contains(q >> (l as u64)) {
                assert(self.covers(l as int, q as int));
                return true;
            }
            l = l + 1;
        }
        false
    }

    /// One bit set and one word count per level.
    pub proof fn lemma_lens(&self)
        ensures
            self.bits().len() == self.levels(),
            self.shape().len() == self.levels(),
    {
    }

    /// A set bit lies within its level's words.
    pub proof fn lemma_bits_bound(&self, l: int, b: int)
        requires
            0 <= l < self.levels(),
            self.bits()[l].contains(b),
        ensures
            0 <= b < 64 * self.shape()[l],
    {
    }

    /// A tower with no set bit has no free quantum.
    pub proof fn lemma_no_bits(&self)
        requires
            forall|l: int, b: int| 0 <= l < self.levels() ==> !#[trigger] self.bits()[l].contains(b),
        ensures
            self.free() == Set::<int>::empty(),
    {
        assert forall|x: int| !#[trigger] self.free().contains(x) by {
            if self.free().contains(x) {
                let l = choose|l: int| self.covers(l, x);
                assert(self.bits()[l].contains(x / exp2(l)));
            }
        }
        assert(self.free() =~= Set::<int>::empty());
    }

    /// Turns a block number of level `l` into the run of quanta it covers.
    pub proof fn lemma_blk_block(l: int, b: int)
        requires
            0 <= l,
            0 <= b,
        ensures
            blk(l, b) == block(l, b * exp2(l)),
            (b * exp2(l)) % exp2(l) == 0,
            (b * exp2(l)) / exp2(l) == b,
    {
        lemma_witness(b, l);
        vstd::arithmetic::div_mod::lemma_mod_multiples_basic(b, exp2(l));
        vstd::arithmetic::mul::lemma_mul_is_commutative(b, exp2(l));
        lemma_blk_is_block(l, b * exp2(l));
    }

    /// In a well-formed tower, the two children of a set bit, one level
    /// down, are clear.
    pub proof fn lemma_children_clear(&self, l: int, b: int)
        requires
            self.wf(),
            1 <= l < self.levels(),
            self.bits()[l].contains(b),
        ensures
            !self.bits()[l - 1].contains(2 * b),
            !self.bits()[l - 1].contains(2 * b + 1),
    {
        self.maps@[l].lemma_cap();
        assert(b >= 0);
        lemma_witness(2 * b, l - 1);
        lemma_div_step(2 * b * exp2(l - 1), l - 1);
        assert(self.covers(l, 2 * b * exp2(l - 1)));
        if self.maps@[l - 1].has(2 * b) {
            assert(self.covers(l - 1, 2 * b * exp2(l - 1)));
        }
        lemma_witness(2 * b + 1, l - 1);
        lemma_div_step((2 * b + 1) * exp2(l - 1), l - 1);
        assert(self.covers(l, (2 * b + 1) * exp2(l - 1)));
        if self.maps@[l - 1].has(2 * b + 1) {
            assert(self.covers(l - 1, (2 * b + 1) * exp2(l - 1)));
        }
    }

    proof fn lemma_same_maps(a: &Self, b: &Self)
        requires
            a.maps@ == b.maps@,
            a.quantum_count == b.quantum_count,
        ensures
            a.wf() == b.wf(),
            a.free() == b.free(),
            a.bits() == b.bits(),
            a.shape() == b.shape(),
            a.levels() == b.levels(),
            a.count() == b.count(),
    {
        assert forall|l: int, x: int| #[trigger] a.covers(l, x) == b.covers(l, x) by {}
        assert forall|x: int| #[trigger] a.free().contains(x) == b.free().contains(x) by {
            if a.free().contains(x) {
                let l = choose|l: int| a.covers(l, x);
                assert(b.covers(l, x));
            }
            if b.free().contains(x) {
                let l = choose|l: int| b.covers(l, x);
                assert(a.covers(l, x));
            }
        }
        assert(a.free() =~= b.free());
        assert(a.bits() =~= b.bits());
        assert(a.shape() =~= b.shape());
        if b.wf() {
            assert forall|x: int, l1: int, l2: int| #[trigger] a.covers(l1, x) && #[trigger] a.covers(l2, x) implies l1 == l2 by {
                assert(b.covers(l1, x) && b.covers(l2, x));
            }
            assert forall|x: int, l: int| #[trigger] a.covers(l, x) implies x < a.quantum_count by {
                assert(b.covers(l, x));
            }
        }
        if a.wf() {
            assert forall|x: int, l1: int, l2: int| #[trigger] b.covers(l1, x) && #[trigger] b.covers(l2, x) implies l1 == l2 by {
                assert(a.covers(l1, x) && a.covers(l2, x));
            }
            assert forall|x: int, l: int| #[trigger] b.covers(l, x) implies x < b.quantum_count by {
                assert(a.covers(l, x));
            }
        }
    }

    proof fn lemma_set_effect(old_t: &Self, new_t: &Self, l: int, b: int)
        requires
            old_t.wf(),
            0 <= l < old_t.levels(),
            new_t.quantum_count == old_t.quantum_count,
            new_t.maps@.len() == old_t.maps@.len(),
            forall|j: int| 0 <= j < old_t.levels() && j != l ==> new_t.maps@[j] == old_t.maps@[j],
            new_t.maps@[l].words() == old_t.maps@[l].words(),
            forall|c: int| #[trigger] new_t.maps@[l].has(c) == (old_t.maps@[l].has(c) || c == b),
            blk(l, b).disjoint(old_t.free()),
            forall|x: int| #[trigger] blk(l, b).contains(x) ==> x < old_t.count(),
            l == old_t.levels() - 1 || !old_t.maps@[l].has(buddy(b)),
            !old_t.maps@[l].has(b),
        ensures
            new_t.wf(),
            new_t.shape() == old_t.shape(),
            new_t.free() == old_t.free().union(blk(l, b)),
    {
        assert forall|x: int, j: int| #[trigger] new_t.covers(j, x) == (old_t.covers(j, x) || (j == l
            && blk(l, b).contains(x))) by {
        }
        assert forall|x: int| #[trigger] new_t.free().contains(x) == old_t.free().union(
            blk(l, b),
        ).contains(x) by {
            if blk(l, b).contains(x) {
                assert(new_t.covers(l, x));
            }
            if old_t.free().contains(x) {
                let j = choose|j: int| old_t.covers(j, x);
                assert(new_t.covers(j, x));
            }
            if new_t.free().contains(x) {
                let j = choose|j: int| new_t.covers(j, x);
                assert(old_t.covers(j, x) || blk(l, b).contains(x));
            }
        }
        assert(new_t.free() =~= old_t.free().union(blk(l, b)));
        assert forall|x: int, l1: int, l2: int| #[trigger] new_t.covers(l1, x) && #[trigger] new_t.covers(l2, x) implies l1 == l2 by {
            if blk(l, b).contains(x) {
                assert(!old_t.free().contains(x));
                assert(!old_t.covers(l1, x));
                assert(!old_t.covers(l2, x));
            } else {
                assert(old_t.covers(l1, x) && old_t.covers(l2, x));
            }
        }
        assert forall|j: int| 0 <= j < new_t.maps@.len() implies #[trigger] new_t.maps@[j].words() == old_t.maps@[j].words() by {}
        assert(new_t.shape() =~= old_t.shape());
        assert forall|j: int| 0 <= j < new_t.maps@.len() - 1 implies #[trigger] new_t.maps@[j + 1].cap() * 2
                >= new_t.maps@[j].cap() by {
            new_t.maps@[j].lemma_cap();
            new_t.maps@[j + 1].lemma_cap();
            old_t.maps@[j].lemma_cap();
            old_t.maps@[j + 1].lemma_cap();
            assert(old_t.maps@[j + 1].cap() * 2 >= old_t.maps@[j].cap());
        }
        assert forall|j: int| 0 <= j < new_t.maps@.len() implies 1 <= #[trigger] new_t.maps@[j].words() <= 0x100_0000
                && new_t.maps@[j].cap() * exp2(j) >= new_t.quantum_count by {
            new_t.maps@[j].lemma_cap();
            old_t.maps@[j].lemma_cap();
        }
        Self::lemma_coalesced_after_set(old_t, new_t, l, b);
    }

    proof fn lemma_coalesced_after_set(old_t: &Self, new_t: &Self, l: int, b: int)
        requires
            old_t.coalesced(),
            0 <= l < old_t.levels(),
            new_t.maps@.len() == old_t.maps@.len(),
            forall|j: int| 0 <= j < old_t.levels() && j != l ==> new_t.maps@[j] == old_t.maps@[j],
            forall|c: int| #[trigger] new_t.maps@[l].has(c) == (old_t.maps@[l].has(c) || c == b),
            l == old_t.levels() - 1 || !old_t.maps@[l].has(buddy(b)),
            !old_t.maps@[l].has(b),
        ensures
            new_t.coalesced(),
    {
        assert forall|j: int, c: int|
            0 <= j < new_t.maps@.len() - 1 && #[trigger] new_t.maps@[j].has(c) implies !new_t.maps@[j].has(buddy(c)) by {
            if j == l {
                if c == b {
                    assert(buddy(b) != b);
                } else if buddy(c) == b {
                    assert(c == buddy(b));
                } else {
                    assert(old_t.maps@[j].has(c));
                }
            } else {
                assert(old_t.maps@[j].has(c));
            }
        }
    }

    proof fn lemma_clear_effect(old_t: &Self, new_t: &Self, l: int, b: int)
        requires
            old_t.wf(),
            0 <= l < old_t.levels(),
            old_t.maps@[l].has(b),
            new_t.quantum_count == old_t.quantum_count,
            new_t.maps@.len() == old_t.maps@.len(),
            forall|j: int| 0 <= j < old_t.levels() && j != l ==> new_t.maps@[j] == old_t.maps@[j],
            new_t.maps@[l].words() == old_t.maps@[l].words(),
            forall|c: int| #[trigger] new_t.maps@[l].has(c) == (old_t.maps@[l].has(c) && c != b),
        ensures
            new_t.wf(),
            new_t.shape() == old_t.shape(),
            blk(l, b).subset_of(old_t.free()),
            new_t.free() == old_t.free().difference(blk(l, b)),
    {
        assert forall|x: int, j: int| #[trigger] new_t.covers(j, x) == (old_t.covers(j, x) && !(j == l
            && blk(l, b).contains(x))) by {
        }
        assert forall|x: int| #[trigger] blk(l, b).contains(x) implies old_t.free().contains(x) by {
            assert(old_t.covers(l, x));
        }
        assert forall|x: int| #[trigger] new_t.free().contains(x) == old_t.free().difference(
            blk(l, b),
        ).contains(x) by {
            if old_t.free().contains(x) && !blk(l, b).contains(x) {
                let j = choose|j: int| old_t.covers(j, x);
                assert(new_t.covers(j, x));
            }
            if new_t.free().contains(x) {
                let j = choose|j: int| new_t.covers(j, x);
                assert(old_t.covers(j, x));
                if blk(l, b).contains(x) {
                    assert(old_t.covers(l, x));
                    assert(j == l);
                }
            }
        }
        assert(new_t.free() =~= old_t.free().difference(blk(l, b)));
        assert forall|x: int, l1: int, l2: int| #[trigger] new_t.covers(l1, x) && #[trigger] new_t.covers(l2, x) implies l1 == l2 by {
            assert(old_t.covers(l1, x) && old_t.covers(l2, x));
        }
        assert forall|x: int, j: int| #[trigger] new_t.covers(j, x) implies x < new_t.quantum_count by {
            assert(old_t.covers(j, x));
        }
        assert(new_t.shape() =~= old_t.shape());
        assert forall|j: int| 0 <= j < new_t.maps@.len() - 1 implies #[trigger] new_t.maps@[j + 1].cap() * 2
                >= new_t.maps@[j].cap() by {
            new_t.maps@[j].lemma_cap();
            new_t.maps@[j + 1].lemma_cap();
            old_t.maps@[j].lemma_cap();
            old_t.maps@[j + 1].lemma_cap();
            assert(old_t.maps@[j + 1].cap() * 2 >= old_t.maps@[j].cap());
        }
        assert forall|j: int| 0 <= j < new_t.maps@.len() implies 1 <= #[trigger] new_t.maps@[j].words() <= 0x100_0000
                && new_t.maps@[j].cap() * exp2(j) >= new_t.quantum_count by {
            new_t.maps@[j].lemma_cap();
            old_t.maps@[j].lemma_cap();
        }
        assert forall|j: int, c: int|
            0 <= j < new_t.maps@.len() - 1 && #[trigger] new_t.maps@[j].has(c) implies !new_t.maps@[j].has(buddy(c)) by {
            assert(old_t.maps@[j].has(c));
        }
    }

    fn insert_at(&mut self, l: usize, b: u64)
        requires
            old(self).wf(),
            l < old(self).levels(),
            b < old(self).maps@[l as int].cap(),
            blk(l as int, b as int).disjoint(old(self).free()),
            forall|x: int| #[trigger] blk(l as int, b as int).contains(x) ==> x < old(self).count(),
        ensures
            final(self).wf(),
            final(self).levels() == old(self).levels(),
            final(self).count() == old(self).count(),
            final(self).shape() == old(self).shape(),
            final(self).free() == old(self).free().union(blk(l as int, b as int)),
        decreases old(self).levels() - l,
    {
        let ghost pre = *old(self);
        proof {
            lemma_witness(b as int, l as int);
            assert(blk(l as int, b as int).contains(b * exp2(l as int)));
            assert(!pre.covers(l as int, b * exp2(l as int)));
            pre.maps@[l as int].lemma_cap();
        }
        if l + 1 == self.maps.len() {
            self.maps[l].set_bit(b);
            proof {
                Self::lemma_set_effect(&pre, self, l as int, b as int);
            }
            return;
        }
        let merged = self.maps[l].insert(b);
        if !merged {
            proof {
                Self::lemma_set_effect(&pre, self, l as int, b as int);
            }
            return;
        }
        let ghost mid = *self;
        proof {
            let bb = buddy(b as int);
            Self::lemma_clear_effect(&pre, &mid, l as int, bb);
            assert forall|x: int| #[trigger] blk(l as int + 1, b as int / 2).contains(x) == (blk(l as int, b as int).contains(x) || blk(l as int, bb).contains(x)) by {
                if x >= 0 {
                    lemma_div_step(x, l as int);
                }
            }
            assert(blk(l as int + 1, b as int / 2) =~= blk(l as int, b as int).union(blk(l as int, bb)));
            pre.maps@[l as int].lemma_cap();
            pre.maps@[l as int + 1].lemma_cap();
            assert(pre.maps@[l as int + 1].cap() * 2 >= pre.maps@[l as int].cap());
            assert(mid.maps@[l as int + 1] == pre.maps@[l as int + 1]);
            assert(mid.free() =~= pre.free().difference(blk(l as int, bb)));
        }
        self.insert_at(l + 1, b / 2);
        proof {
            let bb = buddy(b as int);
            assert(self.free() =~= pre.free().union(blk(l as int, b as int)));
        }
    }

    /// Splits block `c` of level `l` down to level `level`: the upper halves
    /// become free on the way, and the block of the lowest half at `level` is
    /// returned.
    fn split_down(&mut self, l: usize, c: u64, level: usize) -> (r: u64)
        requires
            old(self).wf(),
            level <= l < old(self).levels(),
            c < old(self).maps@[l as int].cap(),
            blk(l as int, c as int).disjoint(old(self).free()),
            forall|x: int| #[trigger] blk(l as int, c as int).contains(x) ==> x < old(self).count(),
        ensures
            final(self).wf(),
            final(self).levels() == old(self).levels(),
            final(self).count() == old(self).count(),
            final(self).shape() == old(self).shape(),
            blk(level as int, r as int).subset_of(blk(l as int, c as int)),
            final(self).free() == old(self).free().union(
                blk(l as int, c as int).difference(blk(level as int, r as int)),
            ),
            r < final(self).maps@[level as int].cap(),
        decreases l - level,
    {
        let ghost pre = *old(self);
        if l == level {
            proof {
                assert(blk(l as int, c as int).difference(blk(level as int, c as int)) =~= Set::empty());
                assert(self.free() =~= pre.free().union(Set::empty()));
            }
            return c;
        }
        proof {
            pre.maps@[l as int].lemma_cap();
        }
        let lo = l - 1;
        let hi_half = 2 * c + 1;
        proof {
            let p = exp2(lo as int);
            lemma_witness(hi_half as int, lo as int);
            lemma_div_step(hi_half * p, lo as int);
            let x = hi_half * p;
            assert(blk(l as int, c as int).contains(x));
            pre.maps@[lo as int].lemma_cap();
            lemma_mul_strict_inequality_converse(hi_half as int, pre.maps@[lo as int].cap(), p);
            assert(!pre.covers(lo as int, x));
            lemma_witness(2 * c as int, lo as int);
            lemma_div_step((2 * c) * p, lo as int);
            assert(blk(l as int, c as int).contains((2 * c) * p));
            assert(!pre.covers(lo as int, (2 * c) * p));
            assert(buddy(hi_half as int) == 2 * c);
            assert forall|y: int| #[trigger] blk(lo as int, hi_half as int).contains(y) implies blk(l as int, c as int).contains(y) by {
                lemma_div_step(y, lo as int);
            }
        }
        let merged = self.maps[lo].insert(hi_half);
        proof {
            assert(!merged);
            Self::lemma_set_effect(&pre, self, lo as int, hi_half as int);
        }
        let ghost mid = *self;
        proof {
            assert forall|y: int| #[trigger] blk(l as int, c as int).contains(y) == (blk(lo as int, 2 * c as int).contains(y) || blk(lo as int, hi_half as int).contains(y)) by {
                if y >= 0 {
                    lemma_div_step(y, lo as int);
                }
            }
            mid.maps@[lo as int].lemma_cap();
            assert(2 * c < mid.maps@[lo as int].cap());
            assert forall|x: int| #[trigger] blk(lo as int, 2 * c as int).contains(x) implies x < mid.count() by {
                assert(blk(l as int, c as int).contains(x));
            }
        }
        let r = self.split_down(lo, 2 * c, level);
        proof {
            assert forall|y: int| #[trigger] blk(level as int, r as int).contains(y) implies blk(l as int, c as int).contains(y) by {
                assert(blk(lo as int, 2 * c as int).contains(y));
            }
            assert(self.free() =~= pre.free().union(
                blk(l as int, c as int).difference(blk(level as int, r as int)),
            ));
        }
        r
    }

    /// Takes a free run of `2^level` quanta: tries the levels from `level`
    /// up, each from a random word, and splits a larger block where it found
    /// one. Returns the run's first quantum, or `None` where the scans found
    /// nothing, the tower then being unchanged.
    pub fn remove(&mut self, level: u32, rng: &mut rand::rngs::SmallRng) -> (r: Option<u64>)
        requires
            old(self).wf(),
            level < old(self).levels(),
        ensures
            final(self).wf(),
            final(self).levels() == old(self).levels(),
            final(self).count() == old(self).count(),
            final(self).shape() == old(self).shape(),
            match r {
                Some(q) => {
                    &&& (q as int) % exp2(level as int) == 0
                    &&& q + exp2(level as int) <= old(self).count()
                    &&& block(level as int, q as int).subset_of(old(self).free())
                    &&& final(self).free() == old(self).free().difference(
                        block(level as int, q as int),
                    )
                },
                None => final(self).bits() == old(self).bits() && final(self).free() == old(
                    self,
                ).free() && forall|t: int, b: int|
                    level <= t < old(self).levels() && old(self).shape()[t] <= 16
                        ==> !#[trigger] old(self).bits()[t].contains(b),
            },
    {
        let ghost pre = *old(self);
        let mut t = level as usize;
        while t < self.maps.len()
            invariant
                self.maps@ == pre.maps@,
                self.quantum_count == pre.quantum_count,
                pre == *old(self),
                pre.wf(),
                level <= t,
                level < pre.levels(),
                forall|t2: int, b: int|
                    level <= t2 < t && pre.shape()[t2] <= 16 ==> !#[trigger] pre.bits()[t2].contains(b),
            decreases pre.levels() - t,
        {
            proof {
                self.maps@[t as int].lemma_cap();
            }
            let start = random_index(rng, self.maps[t].words_len());
            let found = self.maps[t].remove(start);
            match found {
                Some(b) => {
                    let ghost mid = *self;
                    proof {
                        assert(mid.quantum_count == pre.quantum_count);
                        assert forall|j: int| 0 <= j < pre.levels() && j != t implies mid.maps@[j] == pre.maps@[j] by {}
                        assert(mid.maps@.len() == pre.maps@.len());
                        assert(mid.levels() == pre.levels());
                        assert(mid.count() == pre.count());
                        Self::lemma_clear_effect(&pre, &mid, t as int, b as int);
                        assert(mid.maps@[t as int].has(b as int) == false);
                        pre.maps@[t as int].lemma_cap();
                        assert forall|x: int| #[trigger] blk(t as int, b as int).contains(x) implies x < pre.count() by {
                            assert(pre.covers(t as int, x));
                        }
                    }
                    let c = self.split_down(t, b, level as usize);
                    proof {
                        let p = exp2(level as int);
                        lemma_witness(c as int, level as int);
                        assert(blk(level as int, c as int).contains(c * p));
                        assert(pre.free().contains(c * p));
                        assert(c * p < pre.count());
                        lemma_u64_shl_is_mul(c, level as u64);
                        lemma_div_multiples_vanish(c as int, p);
                        vstd::arithmetic::div_mod::lemma_mod_multiples_basic(c as int, p);
                        lemma_blk_is_block(level as int, c * p);
                        let q = c * p;
                        assert(block(level as int, q).contains(q + p - 1));
                        assert(blk(level as int, c as int).contains(q + p - 1));
                        assert(pre.free().contains(q + p - 1));
                        assert(self.free() =~= pre.free().difference(block(level as int, q)));
                    }
                    return Some(c << (level as u64));
                },
                None => {
                    proof {
                        assert(self.maps@ =~= pre.maps@);
                        let m = pre.maps@[t as int];
                        assert forall|t2: int, b: int|
                            level <= t2 < t + 1 && pre.shape()[t2] <= 16 implies !#[trigger] pre.bits()[t2].contains(b) by {
                            if t2 == t && pre.bits()[t2].contains(b) {
                                assert(m.has(b));
                                m.lemma_cap();
                                let w = b / 64;
                                lemma_scan_covers(start as int, m.words(), w);
                                let j = choose|j: int| 0 <= j < 16 && #[trigger] ((start + j) % m.words()) == w;
                                assert(m.word_value((start + j) % m.words()) == 0);
                                m.lemma_zero_word_clear(w, b);
                            }
                        }
                    }
                },
            }
            t = t + 1;
        }
        proof {
            Self::lemma_same_maps(self, &pre);
        }
        None
    }
}

} // verus!
