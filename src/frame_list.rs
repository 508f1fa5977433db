//! A thread's cache of free huge frames, and its exchanges with the global
//! pool.

use vstd::prelude::*;

verus! {

/// Most frames one cache holds: a head frame and the entries that fit in it.
pub const FRAME_LIST_CAPACITY: usize = 262144;

/// Frames a cache refills with by default.
pub const DEFAULT_REFILL_SIZE: usize = 4;

/// Frames above which a cache gives its surplus back to the pool.
pub const RELEASE_THRESHOLD: usize = 4;

/// Every frame held by the cache or the pool before is held by one of them
/// after.
pub open spec fn kept(old_cache: Seq<u64>, old_pool: Seq<u64>, new_cache: Seq<u64>, new_pool: Seq<u64>) -> bool {
    forall|f: u64|
        old_cache.contains(f) || old_pool.contains(f) ==> new_cache.contains(f) || new_pool.contains(f)
}

/// The free frames a thread holds, most recently pushed last.
pub struct FrameList {
    frames: Vec<u64>,
}

impl View for FrameList {
    type V = Seq<u64>;

    closed spec fn view(&self) -> Seq<u64> {
        self.frames@
    }
}

impl FrameList {
    pub open spec fn wf(&self) -> bool {
        self@.len() <= FRAME_LIST_CAPACITY
    }

    pub fn new() -> (r: Self)
        ensures
            r@ == Seq::<u64>::empty(),
            r.wf(),
    {
        FrameList { frames: Vec::new() }
    }

    /// Number of frames held.
    pub fn count(&self) -> (r: usize)
        ensures
            r == self@.len(),
    {
        self.frames.len()
    }

    proof fn lemma_steal_kept(&self, c0: Seq<u64>, p0: Seq<u64>, p1: Seq<u64>)
        requires
            self@.subrange(0, c0.len() as int) == c0,
            p1 == p0.subrange(0, p1.len() as int),
            p1.len() <= p0.len(),
            self@.len() + p1.len() == c0.len() + p0.len(),
            forall|k: int|
                c0.len() <= k < self@.len() ==> #[trigger] self@[k] == p0[p0.len() - 1 - (k - c0.len())],
        ensures
            kept(c0, p0, self@, p1),
    {
        assert forall|f: u64| c0.contains(f) || p0.contains(f) implies self@.contains(f) || p1.contains(f) by {
            if c0.contains(f) {
                let i = choose|i: int| 0 <= i < c0.len() && c0[i] == f;
                assert(self@.subrange(0, c0.len() as int)[i] == f);
            } else {
                let i = choose|i: int| 0 <= i < p0.len() && p0[i] == f;
                if i < p1.len() {
                    assert(p1[i] == f);
                } else {
                    let k = c0.len() + (p0.len() - 1 - i);
                    assert(self@[k] == f);
                }
            }
        }
    }

    /// Adds `f`; refused where the cache is full.
    pub fn push(&mut self, f: u64) -> (r: Result<(), ()>)
        requires
            old(self).wf(),
        ensures
            final(self).wf(),
            r is Ok == (old(self)@.len() < FRAME_LIST_CAPACITY),
            r is Ok ==> final(self)@ == old(self)@.push(f),
            r is Err ==> final(self)@ == old(self)@,
    {
        if self.frames.len() == FRAME_LIST_CAPACITY {
            return Err(());
        }
        self.frames.push(f);
        Ok(())
    }

    /// Takes the frame pushed last; `None` only where the cache is empty.
    pub fn pop(&mut self) -> (r: Option<u64>)
        requires
            old(self).wf(),
        ensures
            final(self).wf(),
            old(self)@.len() == 0 ==> r is None && final(self)@ == old(self)@,
            old(self)@.len() > 0 ==> r == Some(old(self)@.last()) && final(self)@ == old(self)@.drop_last(),
    {
        self.frames.pop()
    }

    /// Moves every frame but the first to `pool`.
    fn spill_to(&mut self, pool: &mut Vec<u64>)
        requires
            old(self).wf(),
            old(self)@.len() >= 1,
        ensures
            final(self).wf(),
            final(self)@ == old(self)@.subrange(0, 1),
            final(pool)@.len() == old(pool)@.len() + old(self)@.len() - 1,
            final(pool)@.subrange(0, old(pool)@.len() as int) == old(pool)@,
            forall|i: int|
                1 <= i < old(self)@.len() ==> final(pool)@[old(pool)@.len() + old(self)@.len() - 1 - i]
                    == #[trigger] old(self)@[i],
            kept(old(self)@, old(pool)@, final(self)@, final(pool)@),
    {
        let ghost p0 = pool@.len();
        let ghost n0 = self.frames@.len();
        while self.frames.len() > 1
            invariant
                1 <= self.frames@.len() <= old(self)@.len(),
                p0 == old(pool)@.len(),
                n0 == old(self)@.len(),
                self.frames@ == old(self)@.subrange(0, self.frames@.len() as int),
                pool@.len() == old(pool)@.len() + old(self)@.len() - self.frames@.len(),
                pool@.subrange(0, old(pool)@.len() as int) == old(pool)@,
                forall|i: int|
                    self.frames@.len() <= i < n0 ==> pool@[p0 + n0 - 1 - i] == #[trigger] old(self)@[i],
            decreases self.frames@.len(),
        {
            let f = self.frames.pop().unwrap();
            let ghost before = pool@;
            pool.push(f);
            proof {
                assert(pool@.subrange(0, old(pool)@.len() as int) =~= before.subrange(0, old(pool)@.len() as int));
                assert(self.frames@ =~= old(self)@.subrange(0, self.frames@.len() as int));
            }
        }
        proof {
            assert forall|f: u64| old(self)@.contains(f) || old(pool)@.contains(f) implies self@.contains(f) || pool@.contains(f) by {
                if old(self)@.contains(f) {
                    let i = choose|i: int| 0 <= i < old(self)@.len() && old(self)@[i] == f;
                    if i == 0 {
                        assert(self@[0] == f);
                    } else {
                        assert(pool@[p0 + n0 - 1 - i] == old(self)@[i]);
                    }
                } else {
                    let i = choose|i: int| 0 <= i < old(pool)@.len() && old(pool)@[i] == f;
                    assert(pool@.subrange(0, p0 as int)[i] == f);
                }
            }
        }
    }

    /// Adds `f`; where the cache is full, first moves all frames but one to
    /// `pool`.
    pub fn push_with_spill(&mut self, f: u64, pool: &mut Vec<u64>)
        requires
            old(self).wf(),
        ensures
            final(self).wf(),
            final(self)@.len() + final(pool)@.len() == old(self)@.len() + old(pool)@.len() + 1,
            final(self)@.last() == f,
            final(self)@.len() >= 1,
            final(pool)@.subrange(0, old(pool)@.len() as int) == old(pool)@,
            kept(old(self)@, old(pool)@, final(self)@, final(pool)@),
    {
        if self.frames.len() == FRAME_LIST_CAPACITY {
            self.spill_to(pool);
        }
        let ghost mid = self.frames@;
        self.frames.push(f);
        proof {
            assert forall|g: u64| mid.contains(g) implies self@.contains(g) by {
                let i = choose|i: int| 0 <= i < mid.len() && mid[i] == g;
                assert(self@[i] == g);
            }
        }
    }

    /// Takes a frame, refilling from `pool` with up to `refill_size` frames
    /// where the cache is empty. `None` where both are empty.
    pub fn pop_with_refill(&mut self, pool: &mut Vec<u64>, refill_size: usize) -> (r: Option<u64>)
        requires
            old(self).wf(),
            0 < refill_size < FRAME_LIST_CAPACITY,
        ensures
            final(self).wf(),
            r is None <==> (old(self)@.len() == 0 && old(pool)@.len() == 0),
            final(self)@.len() + final(pool)@.len() + (if r is Some { 1int } else { 0int })
                == old(self)@.len() + old(pool)@.len(),
            old(self)@.len() > 0 ==> r == Some(old(self)@.last()) && final(pool)@ == old(pool)@,
            forall|f: u64|
                old(self)@.contains(f) || old(pool)@.contains(f) ==> final(self)@.contains(f)
                    || final(pool)@.contains(f) || r == Some(f),
            r matches Some(f) ==> old(self)@.contains(f) || old(pool)@.contains(f),
    {
        let ghost c0 = self@;
        if let Some(x) = self.pop() {
            proof {
                assert forall|f: u64| c0.contains(f) || pool@.contains(f) implies self@.contains(f)
                    || pool@.contains(f) || x == f by {
                    if c0.contains(f) && f != x {
                        let i = choose|i: int| 0 <= i < c0.len() && c0[i] == f;
                        assert(self@[i] == f);
                    }
                }
            }
            return Some(x);
        }
        let ghost p0 = pool@;
        self.steal_from_vec(pool, 1);
        let ghost c1 = self@;
        let r = self.pop();
        proof {
            if r is Some {
                assert(c1[c1.len() - 1] == p0[p0.len() - 1 - (c1.len() - 1 - 0)]);
                assert(p0.contains(r->0));
            }
            assert forall|f: u64| c1.contains(f) implies r == Some(f) by {
                let i = choose|i: int| 0 <= i < c1.len() && c1[i] == f;
            }
        }
        r
    }

    /// Gives all frames but one back to `pool` where the cache holds more
    /// than a few.
    pub fn release_extra_to_vec(&mut self, pool: &mut Vec<u64>)
        requires
            old(self).wf(),
        ensures
            final(self).wf(),
            final(self)@.len() + final(pool)@.len() == old(self)@.len() + old(pool)@.len(),
            old(self)@.len() > RELEASE_THRESHOLD ==> final(self)@.len() == 1,
            old(self)@.len() <= RELEASE_THRESHOLD ==> final(self)@ == old(self)@ && final(pool)@ == old(pool)@,
            old(self)@.len() > RELEASE_THRESHOLD ==> final(self)@ == old(self)@.subrange(0, 1) && forall|i: int|
                1 <= i < old(self)@.len() ==> final(pool)@[old(pool)@.len() + old(self)@.len() - 1 - i]
                    == #[trigger] old(self)@[i],
            final(pool)@.subrange(0, old(pool)@.len() as int) == old(pool)@,
            kept(old(self)@, old(pool)@, final(self)@, final(pool)@),
    {
        if self.frames.len() > RELEASE_THRESHOLD {
            self.spill_to(pool);
        } else {
            assert(pool@.subrange(0, pool@.len() as int) =~= pool@);
        }
    }

    /// Moves frames from the end of `pool` until the cache holds
    /// `target_count`; `None` where the pool ran out first.
    pub fn steal_from_vec(&mut self, pool: &mut Vec<u64>, target_count: usize) -> (r: Option<()>)
        requires
            old(self).wf(),
            target_count < FRAME_LIST_CAPACITY,
        ensures
            final(self).wf(),
            final(self)@.len() + final(pool)@.len() == old(self)@.len() + old(pool)@.len(),
            r is Some <==> old(self)@.len() >= target_count || old(self)@.len() + old(pool)@.len() >= target_count,
            r is Some ==> final(self)@.len() >= target_count,
            r is None ==> final(pool)@.len() == 0,
            r is Some && old(self)@.len() < target_count ==> final(self)@.len() == target_count,
            old(self)@.len() >= target_count ==> final(self)@ == old(self)@ && final(pool)@ == old(pool)@,
            final(self)@.subrange(0, old(self)@.len() as int) == old(self)@,
            final(pool)@ == old(pool)@.subrange(0, final(pool)@.len() as int),
            forall|k: int|
                old(self)@.len() <= k < final(self)@.len() ==> #[trigger] final(self)@[k]
                    == old(pool)@[old(pool)@.len() - 1 - (k - old(self)@.len())],
            kept(old(self)@, old(pool)@, final(self)@, final(pool)@),
    {
        if self.frames.len() >= target_count {
            assert(self@.subrange(0, self@.len() as int) =~= self@);
            assert(pool@.subrange(0, pool@.len() as int) =~= pool@);
            return Some(());
        }
        while self.frames.len() < target_count
            invariant
                self.frames@.len() <= target_count < FRAME_LIST_CAPACITY,
                self.frames@.len() + pool@.len() == old(self)@.len() + old(pool)@.len(),
                self.frames@.len() >= old(self)@.len(),
                old(self)@.len() < target_count,
                self.frames@.subrange(0, old(self)@.len() as int) == old(self)@,
                pool@ == old(pool)@.subrange(0, pool@.len() as int),
                forall|k: int|
                    old(self)@.len() <= k < self.frames@.len() ==> #[trigger] self.frames@[k]
                        == old(pool)@[old(pool)@.len() - 1 - (k - old(self)@.len())],
            decreases target_count - self.frames@.len(),
        {
            let ghost before_pool = pool@;
            match pool.pop() {
                Some(f) => {
                    let ghost before = self.frames@;
                    self.frames.push(f);
                    proof {
                        assert(self.frames@.subrange(0, old(self)@.len() as int) =~= before.subrange(0, old(self)@.len() as int));
                        assert(pool@ =~= old(pool)@.subrange(0, pool@.len() as int));
                    }
                },
                None => {
                    proof {
                        self.lemma_steal_kept(old(self)@, old(pool)@, pool@);
                    }
                    return None;
                },
            }
        }
        proof {
            self.lemma_steal_kept(old(self)@, old(pool)@, pool@);
        }
        Some(())
    }
}

} // verus!
