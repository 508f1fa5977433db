//! An open-addressed, linearly probed table of counted records, each packed
//! into one 64-bit word: a key in the low `K` bits, a value in the next `V`
//! bits and a count in the `C` bits above them. A slot whose count is zero is
//! empty.

use crate::packed::{
    field, fits, lemma_add_count, lemma_low_fields, lemma_pack_fields, lemma_sub_count, low_mask,
    pack_spec,
};
use vstd::arithmetic::power2::{lemma_pow2_pos, pow2};
use vstd::bits::{lemma_u64_pow2_no_overflow, lemma_u64_shl_is_mul};
use vstd::prelude::*;

verus! {

#[verifier::external_type_specification]
#[verifier::external_body]
pub struct ExRandomState(ahash::RandomState);

/// Relies on `ahash::RandomState::with_seed`: builds the hasher state. The
/// hashes it gives also depend on seeds drawn once per process, so nothing is
/// stated of them.
#[verifier::external_body]
fn seeded_state(seed: u64) -> ahash::RandomState {
    ahash::RandomState::with_seed(seed as usize)
}

/// Relies on `ahash::RandomState::hash_one`: hashes one key. The value varies
/// from process to process, so no property of it is stated.
#[verifier::external_body]
fn hash_key(state: &ahash::RandomState, k: u64) -> u64 {
    state.hash_one(k)
}

/// A decoded slot: key, value and count.
pub type Record = (u64, u64, u64);

/// The slot at `i` after an insert of `(k, v, c)` there.
pub open spec fn insert_post(
    old: Seq<Record>,
    k: u64,
    v: u64,
    c: u64,
    new: Seq<Record>,
    r: Option<usize>,
) -> bool {
    match r {
        Some(i) => i < old.len() && old[i as int].2 == 0 && new == old.update(i as int, (k, v, c)),
        None => new == old && forall|j: int| 0 <= j < old.len() ==> old[j].2 != 0,
    }
}

/// Some occupied slot holds key `k`.
pub open spec fn holds_key(s: Seq<Record>, k: u64) -> bool {
    exists|j: int| 0 <= j < s.len() && s[j].2 != 0 && s[j].0 == k
}

/// What one decrement of key `k` does: one occupied slot with that key loses
/// one from its count, and its value comes back when the count reaches zero.
/// Where no occupied slot holds `k`, nothing changes.
pub open spec fn decrement_post(old: Seq<Record>, k: u64, new: Seq<Record>, r: Option<u64>) -> bool {
    if holds_key(old, k) {
        exists|j: int|
            0 <= j < old.len() && old[j].2 != 0 && old[j].0 == k && new == old.update(
                j,
                (old[j].0, old[j].1, (old[j].2 - 1) as u64),
            ) && r == (if old[j].2 == 1 {
                Some(old[j].1)
            } else {
                None
            })
    } else {
        new == old && r is None
    }
}

/// The slot at `i` after its count has grown by `d`.
pub open spec fn increment_post(old: Seq<Record>, i: int, d: u64, new: Seq<Record>) -> bool {
    new == old.update(i, (old[i].0, old[i].1, (old[i].2 + d) as u64))
}

/// Number of occupied slots.
pub open spec fn occupied_in(s: Seq<Record>) -> nat
    decreases s.len(),
{
    if s.len() == 0 {
        0
    } else {
        occupied_in(s.drop_last()) + if s.last().2 != 0 {
            1nat
        } else {
            0nat
        }
    }
}

/// No more slots are occupied than there are slots.
pub proof fn lemma_occupied_bound(s: Seq<Record>)
    ensures
        occupied_in(s) <= s.len(),
    decreases s.len(),
{
    if s.len() > 0 {
        lemma_occupied_bound(s.drop_last());
    }
}

/// Where fewer slots are occupied than there are, one is empty.
pub proof fn lemma_occupied_has_empty(s: Seq<Record>)
    requires
        occupied_in(s) < s.len(),
    ensures
        exists|j: int| 0 <= j < s.len() && s[j].2 == 0,
    decreases s.len(),
{
    if s.last().2 == 0 {
        assert(s[s.len() - 1].2 == 0);
    } else {
        lemma_occupied_has_empty(s.drop_last());
        let j = choose|j: int| 0 <= j < s.drop_last().len() && s.drop_last()[j].2 == 0;
        assert(s[j].2 == 0);
    }
}

/// Filling an empty slot occupies one slot more.
pub proof fn lemma_occupied_fill(s: Seq<Record>, i: int, r: Record)
    requires
        0 <= i < s.len(),
        s[i].2 == 0,
        r.2 != 0,
    ensures
        occupied_in(s.update(i, r)) == occupied_in(s) + 1,
    decreases s.len(),
{
    let t = s.update(i, r);
    if i == s.len() - 1 {
        assert(t.drop_last() =~= s.drop_last());
    } else {
        assert(t.drop_last() =~= s.drop_last().update(i, r));
        lemma_occupied_fill(s.drop_last(), i, r);
    }
}

/// The probe position `j` steps after `start` in a table of `len` slots.
pub open spec fn probe(start: int, j: int, len: int) -> int {
    if start + j < len {
        start + j
    } else {
        start + j - len
    }
}

/// Exactly one occupied slot holds key `k`: the one at `i`.
pub open spec fn only_at(s: Seq<Record>, k: u64, i: int) -> bool {
    &&& 0 <= i < s.len()
    &&& s[i].0 == k
    &&& s[i].2 != 0
    &&& forall|j: int| 0 <= j < s.len() && j != i && s[j].2 != 0 ==> s[j].0 != k
}

/// A record that alone holds its key, with count `m`, counts down: of `m`
/// decrements in a row, the first `m - 1` return nothing and the last returns
/// the record's value and empties the slot.
pub proof fn lemma_count_down(states: Seq<Seq<Record>>, rs: Seq<Option<u64>>, k: u64, i: int)
    requires
        states.len() == rs.len() + 1,
        only_at(states[0], k, i),
        rs.len() == states[0][i].2,
        forall|t: int|
            0 <= t < rs.len() ==> decrement_post(states[t], k, states[t + 1], #[trigger] rs[t]),
    ensures
        forall|t: int| 0 <= t < rs.len() - 1 ==> #[trigger] rs[t] is None,
        rs[rs.len() - 1] == Some(states[0][i].1),
        states[rs.len() as int][i].2 == 0,
        states[rs.len() as int].len() == states[0].len(),
    decreases rs.len(),
{
    let s0 = states[0];
    assert(decrement_post(states[0], k, states[1], rs[0]));
    assert(holds_key(s0, k));
    let j = choose|j: int|
        0 <= j < s0.len() && s0[j].2 != 0 && s0[j].0 == k && states[1] == s0.update(
            j,
            (s0[j].0, s0[j].1, (s0[j].2 - 1) as u64),
        ) && rs[0] == (if s0[j].2 == 1 {
            Some(s0[j].1)
        } else {
            None
        });
    assert(j == i);
    if rs.len() > 1 {
        let states2 = states.subrange(1, states.len() as int);
        let rs2 = rs.subrange(1, rs.len() as int);
        assert forall|t: int| 0 <= t < rs2.len() implies decrement_post(
            states2[t],
            k,
            states2[t + 1],
            #[trigger] rs2[t],
        ) by {
            assert(decrement_post(states[t + 1], k, states[t + 2], rs[t + 1]));
        }
        lemma_count_down(states2, rs2, k, i);
        assert forall|t: int| 0 <= t < rs.len() - 1 implies #[trigger] rs[t] is None by {
            if t > 0 {
                assert(rs2[t - 1] is None);
            }
        }
    }
}

/// Round trip of one record: after `insert(k, v, c)` of a key that no slot
/// held, then `n - 1` accepted `increment_at` of one on the slot it returned,
/// the following `n + c - 1` calls of `decrement(k)` return nothing but for
/// the last, which returns `v`.
pub proof fn lemma_insert_increment_decrement(
    s0: Seq<Record>,
    k: u64,
    v: u64,
    c: u64,
    slot: Option<usize>,
    incs: Seq<Seq<Record>>,
    decs: Seq<Seq<Record>>,
    rs: Seq<Option<u64>>,
)
    requires
        !holds_key(s0, k),
        c >= 1,
        slot is Some,
        incs.len() >= 1,
        insert_post(s0, k, v, c, incs[0], slot),
        forall|t: int|
            0 <= t < incs.len() - 1 ==> increment_post(
                #[trigger] incs[t],
                slot.unwrap() as int,
                1,
                incs[t + 1],
            ),
        c + incs.len() - 1 <= u64::MAX,
        decs.len() == rs.len() + 1,
        decs[0] == incs[incs.len() - 1],
        rs.len() == c + incs.len() - 1,
        forall|t: int|
            0 <= t < rs.len() ==> decrement_post(decs[t], k, decs[t + 1], #[trigger] rs[t]),
    ensures
        forall|t: int| 0 <= t < rs.len() - 1 ==> #[trigger] rs[t] is None,
        rs[rs.len() - 1] == Some(v),
{
    let i = slot.unwrap() as int;
    assert forall|t: int| 0 <= t < incs.len() implies only_at(#[trigger] incs[t], k, i)
        && incs[t][i] == (k, v, (c + t) as u64) by {
        lemma_increments(s0, k, v, c, i, incs, t);
    }
    lemma_count_down(decs, rs, k, i);
}

proof fn lemma_increments(
    s0: Seq<Record>,
    k: u64,
    v: u64,
    c: u64,
    i: int,
    incs: Seq<Seq<Record>>,
    t: int,
)
    requires
        !holds_key(s0, k),
        c >= 1,
        0 <= t < incs.len(),
        0 <= i < s0.len(),
        s0[i].2 == 0,
        incs[0] == s0.update(i, (k, v, c)),
        forall|u: int|
            0 <= u < incs.len() - 1 ==> increment_post(#[trigger] incs[u], i, 1, incs[u + 1]),
        c + incs.len() - 1 <= u64::MAX,
    ensures
        only_at(incs[t], k, i),
        incs[t][i] == (k, v, (c + t) as u64),
        incs[t].len() == s0.len(),
    decreases t,
{
    if t > 0 {
        lemma_increments(s0, k, v, c, i, incs, t - 1);
        assert(increment_post(incs[t - 1], i, 1, incs[t]));
    }
}

pub struct SmallCountHashMap<const C: u32, const V: u32, const K: u32> {
    slot_index_mask: usize,
    slots: Vec<u64>,
    random_state: ahash::RandomState,
}

impl<const C: u32, const V: u32, const K: u32> View for SmallCountHashMap<C, V, K> {
    type V = Seq<Record>;

    closed spec fn view(&self) -> Seq<Record> {
        Seq::new(self.slots@.len(), |i: int| Self::decode(self.slots@[i]))
    }
}

impl<const C: u32, const V: u32, const K: u32> SmallCountHashMap<C, V, K> {
    /// The fields of a raw slot word.
    pub open spec fn decode(x: u64) -> Record {
        (x & low_mask(K as u64), field(x, K as u64, V as u64), x >> (K + V) as u64)
    }

    /// The largest count a slot may hold.
    pub open spec fn max_count() -> u64 {
        (1u64 << (C - 1) as u64)
    }

    pub closed spec fn wf(&self) -> bool {
        &&& 1 <= C && 1 <= K && C + V + K <= 63
        &&& self.slots@.len() == self.slot_index_mask + 1
        &&& exists|n: nat| n < 63 && self.slots@.len() == pow2(n)
        &&& forall|i: int| 0 <= i < self@.len() ==> #[trigger] self@[i].2 <= Self::max_count()
    }

    /// A table with at least `s` slots, a power of two, all empty.
    pub fn with_num_slots(s: usize) -> (r: Self)
        requires
            1 <= C && 1 <= K && C + V + K <= 63,
            s <= 0x4000_0000,
        ensures
            r.wf(),
            r@.len() >= s,
            forall|i: int| 0 <= i < r@.len() ==> #[trigger] r@[i].2 == 0,
    {
        let mut n: usize = 1;
        let ghost mut e: nat = 0;
        proof {
            vstd::arithmetic::power2::lemma2_to64();
        }
        while n < s
            invariant
                n == pow2(e),
                e <= 30,
                1 <= n <= 0x4000_0000,
                s <= 0x4000_0000,
            decreases 0x8000_0000 - n,
        {
            proof {
                vstd::arithmetic::power2::lemma_pow2_unfold(e + 1);
                vstd::arithmetic::power2::lemma2_to64();
            }
            proof {
                e = e + 1;
            }
            assert(n * 2 > n);
            n = n * 2;
        }
        let mut slots: Vec<u64> = Vec::new();
        let mut i: usize = 0;
        while i < n
            invariant
                i <= n,
                slots@.len() == i,
                forall|j: int| 0 <= j < i ==> slots@[j] == 0,
            decreases n - i,
        {
            slots.push(0);
            i = i + 1;
        }
        let r = SmallCountHashMap { slot_index_mask: n - 1, slots, random_state: seeded_state(0xee61096f95490820) };
        assert forall|j: int| 0 <= j < r@.len() implies #[trigger] r@[j].2 == 0 by {
            let x = r.slots@[j];
            let sh = (K + V) as u64;
            assert(x == 0);
            assert(0u64 >> sh == 0) by (bit_vector);
        }
        r
    }

    /// Number of slots.
    pub fn capacity(&self) -> (r: usize)
        requires
            self.wf(),
        ensures
            r == self@.len(),
    {
        self.slots.len()
    }

    /// Number of occupied slots.
    pub fn occupied(&self) -> (r: usize)
        requires
            self.wf(),
        ensures
            r == occupied_in(self@),
    {
        let n = self.slots.len();
        let sh = (K + V) as u64;
        let mut i: usize = 0;
        let mut r: usize = 0;
        while i < n
            invariant
                self.wf(),
                n == self@.len(),
                i <= n,
                r <= i,
                sh == K + V,
                sh < 64,
                r == occupied_in(self@.take(i as int)),
            decreases n - i,
        {
            proof {
                assert(self@.take(i + 1).drop_last() =~= self@.take(i as int));
            }
            if self.slots[i] >> sh != 0 {
                r = r + 1;
            }
            i = i + 1;
        }
        proof {
            assert(self@.take(n as int) =~= self@);
        }
        r
    }

    fn target_slot(&self, k: u64) -> (r: usize)
        requires
            self.wf(),
        ensures
            r < self@.len(),
    {
        let h = hash_key(&self.random_state, k);
        let m = self.slot_index_mask as u64;
        assert(h & m <= m) by (bit_vector);
        (h & m) as usize
    }

    fn next_slot(&self, i: usize) -> (r: usize)
        requires
            self.wf(),
            i < self@.len(),
        ensures
            r < self@.len(),
            r == (if i + 1 < self@.len() {
                i + 1
            } else {
                0
            }),
    {
        if i < self.slots.len() - 1 {
            i + 1
        } else {
            0
        }
    }

    /// Installs `(k, v, c)` in the first empty slot probing from `start`,
    /// and returns its index; `None` only where every slot is occupied.
    pub fn insert_from(&mut self, start: usize, k: u64, v: u64, c: u64) -> (r: Option<usize>)
        requires
            old(self).wf(),
            start < old(self)@.len(),
            fits(k, K as u64),
            fits(v, V as u64),
            1 <= c <= Self::max_count(),
        ensures
            final(self).wf(),
            insert_post(old(self)@, k, v, c, final(self)@, r),
            r matches Some(i) ==> exists|n: int|
                0 <= n < old(self)@.len() && i == probe(start as int, n, old(self)@.len() as int)
                    && forall|j: int|
                    0 <= j < n ==> #[trigger] old(self)@[probe(start as int, j, old(self)@.len() as int)].2 != 0,
    {
        let ghost cb = C as u64;
        let ghost sh = (K + V) as u64;
        proof {
            assert(c <= (1u64 << (cb - 1) as u64) ==> c < (1u64 << cb)) by (bit_vector)
                requires
                    1 <= cb < 64,
            ;
            lemma_pack_fields(k, v, c, K as u64, V as u64, C as u64);
        }
        let record = ((c << (V as u64)) | v) << (K as u64) | k;
        assert(record == pack_spec(k, v, c, K as u64, V as u64));
        assert(Self::decode(record) == (k, v, c));
        let len = self.slots.len();
        let mut i = start;
        let mut n: usize = 0;
        while n < len
            invariant
                self.wf(),
                self@ == old(self)@,
                len == self@.len(),
                start < len,
                n <= len,
                i == probe(start as int, n as int, len as int),
                Self::decode(record) == (k, v, c),
                c <= Self::max_count(),
                forall|j: int| 0 <= j < n ==> #[trigger] self@[probe(start as int, j, len as int)].2 != 0,
            decreases len - n,
        {
            let x = self.slots[i];
            if x >> ((K + V) as u64) == 0 {
                let ghost pre = self@;
                let ghost pre_slots = self.slots@;
                self.slots.set(i, record);
                proof {
                    assert forall|j: int| 0 <= j < len && j != i implies self@[j] == pre[j] by {
                        assert(self.slots@[j] == pre_slots[j]);
                    }
                    assert(self@ =~= old(self)@.update(i as int, (k, v, c)));
                    assert(i == probe(start as int, n as int, len as int));
                }
                return Some(i);
            }
            i = self.next_slot(i);
            n = n + 1;
        }
        assert forall|t: int| 0 <= t < len implies #[trigger] old(self)@[t].2 != 0 by {
            let j = if t >= start {
                t - start
            } else {
                t + len - start
            };
            assert(probe(start as int, j, len as int) == t);
        }
        None
    }

    /// Installs `(k, v, c)` in the first empty slot at or after the hash of
    /// `k`, and returns its index; `None` only where every slot is occupied.
    pub fn insert(&mut self, k: u64, v: u64, c: u64) -> (r: Option<usize>)
        requires
            old(self).wf(),
            fits(k, K as u64),
            fits(v, V as u64),
            1 <= c <= Self::max_count(),
        ensures
            final(self).wf(),
            insert_post(old(self)@, k, v, c, final(self)@, r),
            r matches Some(i) ==> exists|start: int, n: int|
                0 <= start < old(self)@.len() && 0 <= n < old(self)@.len() && i == probe(
                    start,
                    n,
                    old(self)@.len() as int,
                ) && forall|j: int|
                    0 <= j < n ==> #[trigger] old(self)@[probe(start, j, old(self)@.len() as int)].2 != 0,
    {
        let ghost cb = C as u64;
        let ghost sh = (K + V) as u64;
        proof {
            assert(c <= (1u64 << (cb - 1) as u64) ==> c < (1u64 << cb)) by (bit_vector)
                requires
                    1 <= cb < 64,
            ;
            lemma_pack_fields(k, v, c, K as u64, V as u64, C as u64);
        }
        let record = ((c << (V as u64)) | v) << (K as u64) | k;
        assert(record == pack_spec(k, v, c, K as u64, V as u64));
        assert(Self::decode(record) == (k, v, c));
        let start = self.target_slot(k);
        let r = self.insert_from(start, k, v, c);
        proof {
            if r is Some {
                let n = choose|n: int|
                    0 <= n < old(self)@.len() && r->0 == probe(start as int, n, old(self)@.len() as int)
                        && forall|j: int|
                        0 <= j < n ==> #[trigger] old(self)@[probe(start as int, j, old(self)@.len() as int)].2 != 0;
                assert(0 <= start < old(self)@.len());
            }
        }
        r
    }

    /// Adds `amount` to the count of slot `index`, which the caller learnt
    /// from `insert` to hold key `k`. Where the slot holds no such record, or
    /// the count would pass the largest allowed one, nothing changes and
    /// `false` comes back.
    pub fn increment_at(&mut self, index: usize, k: u64, amount: u64) -> (r: bool)
        requires
            old(self).wf(),
        ensures
            final(self).wf(),
            r == (index < old(self)@.len() && old(self)@[index as int].0 == k
                && old(self)@[index as int].2 != 0 && old(self)@[index as int].2 + amount
                <= Self::max_count()),
            r ==> increment_post(old(self)@, index as int, amount, final(self)@),
            !r ==> final(self)@ == old(self)@,
    {
        if index >= self.slots.len() {
            return false;
        }
        let km = crate::packed::mask(K);
        let x0 = self.slots[index];
        if (x0 & km) != k || (x0 >> ((K + V) as u64)) == 0 {
            return false;
        }
        let x = self.slots[index];
        let sh = (K + V) as u64;
        let cur = x >> sh;
        let max = 1u64 << ((C - 1) as u64);
        if amount > max || cur > max - amount {
            return false;
        }
        proof {
            let cb = C as u64;
            assert(max < (1u64 << cb) && (1u64 << cb) <= (1u64 << 63)) by (bit_vector)
                requires
                    1 <= cb < 64,
                    max == 1u64 << (cb - 1) as u64,
            ;
            lemma_add_count(x, amount, sh, cb);
            let y = (x + (amount << sh)) as u64;
            lemma_low_fields(x, y, K as u64, V as u64);
        }
        let y = x + (amount << sh);
        let ghost pre = self@;
        let ghost pre_slots = self.slots@;
        self.slots.set(index, y);
        proof {
            assert forall|j: int| 0 <= j < pre.len() && j != index implies self@[j] == pre[j] by {
                assert(self.slots@[j] == pre_slots[j]);
            }
            assert(self@ =~= old(self)@.update(
                index as int,
                (old(self)@[index as int].0, old(self)@[index as int].1, (old(self)@[index as int].2 + amount) as u64),
            ));
        }
        true
    }

    /// Takes one from the count of the occupied slot that holds `k`, probing
    /// from its hash. Returns the slot's value where the count reached zero,
    /// which empties the slot.
    pub fn decrement(&mut self, k: u64) -> (r: Option<u64>)
        requires
            old(self).wf(),
        ensures
            final(self).wf(),
            decrement_post(old(self)@, k, final(self)@, r),
            r matches Some(v) ==> fits(v, V as u64),
    {
        let start = self.target_slot(k);
        let len = self.slots.len();
        let mut i = start;
        let mut n: usize = 0;
        let sh = (K + V) as u64;
        let km = crate::packed::mask(K);
        let vm = crate::packed::mask(V);
        while n < len
            invariant
                self.wf(),
                self@ == old(self)@,
                len == self@.len(),
                start < len,
                n <= len,
                sh == K + V,
                km == low_mask(K as u64),
                vm == low_mask(V as u64),
                i == probe(start as int, n as int, len as int),
                forall|j: int|
                    0 <= j < n ==> !(#[trigger] self@[probe(start as int, j, len as int)].2 != 0
                        && self@[probe(start as int, j, len as int)].0 == k),
            decreases len - n,
        {
            let found = self.slots[i];
            if (found >> sh) != 0 && (found & km) == k {
                proof {
                    lemma_sub_count(found, sh);
                    let y = (found - (1u64 << sh)) as u64;
                    lemma_u64_pow2_no_overflow(sh as nat);
                    assert(y & low_mask(sh) == found & low_mask(sh));
                    lemma_low_fields(found, y, K as u64, V as u64);
                }
                let old_val = found;
                let ghost pre = self@;
                let ghost pre_slots = self.slots@;
                self.slots.set(i, found - (1u64 << sh));
                let old_count = old_val >> sh;
                let ghost j = i as int;
                proof {
                    assert forall|t: int| 0 <= t < len && t != j implies self@[t] == pre[t] by {
                        assert(self.slots@[t] == pre_slots[t]);
                    }
                    assert(self@ =~= old(self)@.update(
                        j,
                        (old(self)@[j].0, old(self)@[j].1, (old(self)@[j].2 - 1) as u64),
                    ));
                }
                if old_count == 1 {
                    proof {
                        let y = old_val >> (K as u64);
                        let vb = V as u64;
                        assert((y & vm) < (1u64 << vb)) by (bit_vector)
                            requires
                                vb < 64,
                                vm == ((1u64 << vb) - 1) as u64,
                        ;
                    }
                    return Some((old_val >> (K as u64)) & vm);
                } else {
                    return None;
                }
            }
            i = self.next_slot(i);
            n = n + 1;
        }
        proof {
            if holds_key(old(self)@, k) {
                let t = choose|t: int| 0 <= t < old(self)@.len() && old(self)@[t].2 != 0 && old(self)@[t].0 == k;
                let j = if t >= start {
                    t - start
                } else {
                    t + len - start
                };
                assert(probe(start as int, j, len as int) == t);
            }
        }
        None
    }
}

} // verus!
