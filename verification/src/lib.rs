//! Create and recycle integer ids using a ranged pool.
//!
//! The main exported structure [`IdPool`] hands out the smallest free
//! identifier on request and takes identifiers back for reuse. Free
//! identifiers are stored as a sorted list of disjoint, non-adjacent
//! half-open ranges, so memory stays proportional to the number of
//! fragments of free space rather than the number of free identifiers.

use vstd::prelude::*;

verus! {

/// A half-open run `[start, end)` of currently-free identifiers.
#[derive(Copy, Debug, Clone)]
pub struct Range {
    start: usize,
    end: usize,
}

impl Range {
    /// The lower bound of the range, as a mathematical integer.
    pub closed spec fn spec_start(self) -> int {
        self.start as int
    }

    /// The (exclusive) upper bound of the range, as a mathematical integer.
    pub closed spec fn spec_end(self) -> int {
        self.end as int
    }

    /// Calculates the length of the range.
    pub fn len(&self) -> (n: usize)
        requires
            self.spec_start() <= self.spec_end(),
        ensures
            n == self.spec_end() - self.spec_start(),
    {
        self.end - self.start
    }

    /// Calculates whether a given value is contained
    /// within the range.
    pub fn contains(&self, value: &usize) -> (r: bool)
        ensures
            r == (self.spec_start() <= *value < self.spec_end()),
    {
        value >= &self.start && value < &self.end
    }
}

/// The set of integers covered by the half-open interval `[lo, hi)`.
pub open spec fn range_set(lo: int, hi: int) -> Set<int> {
    Set::new(|x: int| lo <= x < hi)
}

/// Well-formedness of a list of ranges: every range is non-empty, and the
/// ranges are sorted ascending by start, pairwise disjoint and pairwise
/// non-adjacent (each range ends strictly below where the next one starts).
pub open spec fn ranges_wf(s: Seq<Range>) -> bool {
    &&& forall|i: int|
        0 <= i < s.len() ==> (#[trigger] s[i]).spec_start() < s[i].spec_end()
    &&& forall|i: int, j: int|
        0 <= i < j < s.len() ==> (#[trigger] s[i]).spec_end() < (#[trigger] s[j]).spec_start()
}

/// Whether some range of the list covers the value `x`.
pub open spec fn ranges_cover(s: Seq<Range>, x: int) -> bool {
    exists|i: int| 0 <= i < s.len() && (#[trigger] s[i]).spec_start() <= x < s[i].spec_end()
}

/// Keeps track of free ids within a specified range,
/// handles requests and returns of ids based on internal
/// state.
///
/// Internally, a collection of free id ranges is stored.
/// On a request for an id from the pool, the lowest
/// available number will be returned to the caller.
/// Ids can also be returned to the pool to be reused by
/// subsequent id requests.
#[derive(Debug, Clone)]
pub struct IdPool {
    /// List of available id ranges
    free: Vec<Range>,
    /// Number of ids currently in use
    used: usize,
}

impl IdPool {
    /// The stored free ranges, in storage order.
    pub closed spec fn intervals(self) -> Seq<Range> {
        self.free@
    }

    /// The count of ids currently in use, as a mathematical integer.
    pub closed spec fn spec_used(self) -> int {
        self.used as int
    }

    /// Well-formedness: the stored ranges are non-empty, sorted ascending,
    /// pairwise disjoint and pairwise non-adjacent. This makes the list the
    /// unique, maximally-coalesced picture of the free set (see
    /// `lemma_canonical_representation`).
    pub open spec fn wf(self) -> bool {
        ranges_wf(self.intervals())
    }

    /// Whether `id` is currently free, i.e. covered by some stored range.
    pub open spec fn is_free(self, id: int) -> bool {
        ranges_cover(self.intervals(), id)
    }

    /// The set of all currently-free identifiers.
    pub open spec fn free_ids(self) -> Set<int> {
        Set::new(|id: int| self.is_free(id))
    }

    /// Creates a new `IdPool` with a default range, which
    /// starts at `1` and ends at `usize::MAX`.
    pub fn new() -> (pool: Self)
        ensures
            pool.wf(),
            pool.spec_used() == 0,
            pool.intervals().len() == 1,
            pool.free_ids() == range_set(1, usize::MAX as int),
    {
        Self::new_ranged(1..usize::MAX)
    }

    /// Creates a new `IdPool` with the given range.
    pub fn new_ranged(range: core::ops::Range<usize>) -> (pool: Self)
        requires
            range.start < range.end,
        ensures
            pool.wf(),
            pool.spec_used() == 0,
            pool.intervals().len() == 1,
            pool.intervals()[0].spec_start() == range.start,
            pool.intervals()[0].spec_end() == range.end,
            pool.free_ids() == range_set(range.start as int, range.end as int),
    {
        let mut vec: Vec<Range> = Vec::new();
        vec.push(Range { start: range.start, end: range.end });
        let pool = Self { free: vec, used: 0 };
        proof {
            assert forall|x: int| pool.is_free(x) <==> range.start <= x < range.end by {
                if range.start <= x < range.end {
                    assert(pool.intervals()[0].spec_start() <= x < pool.intervals()[0].spec_end());
                }
            }
            assert(pool.free_ids() =~= range_set(range.start as int, range.end as int));
        }
        pool
    }

    /// Gets the current count of used ids.
    pub fn get_used(&self) -> (used: usize)
        ensures
            used == self.spec_used(),
    {
        self.used
    }

    /// Returns a new id or `None` if there are no free ids
    /// in the pool.
    ///
    /// The id handed out is always the smallest currently-free identifier;
    /// it leaves the free set, and the used count grows by one.
    pub fn request_id(&mut self) -> (id: Option<usize>)
        requires
            old(self).wf(),
            old(self).intervals().len() > 0 ==> old(self).spec_used() < usize::MAX as int,
        ensures
            final(self).wf(),
            old(self).intervals().len() == 0 ==> id is None && *final(self) == *old(self)
                && old(self).free_ids() =~= Set::<int>::empty(),
            old(self).intervals().len() > 0 ==> {
                &&& id == Some(old(self).intervals()[0].spec_start() as usize)
                &&& old(self).free_ids().contains(id->Some_0 as int)
                &&& forall|x: int| old(self).free_ids().contains(x) ==> id->Some_0 as int <= x
                &&& final(self).free_ids() == old(self).free_ids().remove(id->Some_0 as int)
                &&& final(self).spec_used() == old(self).spec_used() + 1
            },
    {
        // short-circuit if there are no free ranges
        if self.free.len() == 0 {
            proof {
                assert(old(self).free_ids() =~= Set::<int>::empty());
            }
            return None;
        }
        // the ranges are sorted ascending, so the first one holds the
        // smallest free values
        let first = self.free[0];
        let id = first.start;
        proof {
            assert(old(self).intervals()[0].spec_start() <= id < old(self).intervals()[0].spec_end());
            assert(old(self).free_ids().contains(id as int));
            assert forall|x: int| old(self).free_ids().contains(x) implies id as int <= x by {
                assert(old(self).is_free(x));
                let i = choose|i: int|
                    0 <= i < old(self).intervals().len()
                        && (#[trigger] old(self).intervals()[i]).spec_start() <= x
                        < old(self).intervals()[i].spec_end();
                if i > 0 {
                    assert(old(self).intervals()[0].spec_end() < old(self).intervals()[i].spec_start());
                }
            }
        }
        self.used = self.used + 1;
        if id + 1 == first.end {
            // the range is down to its last value; hand it out and drop the range
            self.free.remove(0);
            proof {
                let pre = old(self).intervals();
                let post = self.intervals();
                assert forall|k: int| 0 <= k < post.len() implies post[k] == pre[k + 1] by {}
                assert forall|x: int| self.is_free(x) <==> (old(self).is_free(x) && x != id as int) by {
                    if self.is_free(x) {
                        let k = choose|k: int|
                            0 <= k < post.len() && (#[trigger] post[k]).spec_start() <= x
                                < post[k].spec_end();
                        assert(pre[k + 1].spec_start() <= x < pre[k + 1].spec_end());
                        assert(pre[0].spec_end() < pre[k + 1].spec_start());
                    }
                    if old(self).is_free(x) && x != id as int {
                        let i = choose|i: int|
                            0 <= i < pre.len() && (#[trigger] pre[i]).spec_start() <= x
                                < pre[i].spec_end();
                        if i > 0 {
                            assert(post[i - 1].spec_start() <= x < post[i - 1].spec_end());
                        }
                    }
                }
                assert(self.free_ids() =~= old(self).free_ids().remove(id as int));
            }
        } else {
            // trim the range from its low end
            let trimmed = Range { start: id + 1, end: first.end };
            self.free.set(0, trimmed);
            proof {
                let pre = old(self).intervals();
                let post = self.intervals();
                assert forall|x: int| self.is_free(x) <==> (old(self).is_free(x) && x != id as int) by {
                    if self.is_free(x) {
                        let k = choose|k: int|
                            0 <= k < post.len() && (#[trigger] post[k]).spec_start() <= x
                                < post[k].spec_end();
                        if k == 0 {
                            assert(pre[0].spec_start() <= x < pre[0].spec_end());
                        } else {
                            assert(pre[k].spec_start() <= x < pre[k].spec_end());
                            assert(pre[0].spec_end() < pre[k].spec_start());
                        }
                    }
                    if old(self).is_free(x) && x != id as int {
                        let i = choose|i: int|
                            0 <= i < pre.len() && (#[trigger] pre[i]).spec_start() <= x
                                < pre[i].spec_end();
                        assert(post[i].spec_start() <= x < post[i].spec_end());
                    }
                }
                assert(self.free_ids() =~= old(self).free_ids().remove(id as int));
            }
        }
        Some(id)
    }

    /// Finds, by binary search over the sorted range list, the leftmost
    /// stored range that the returned `id` could touch: the index of the
    /// first range whose end is not below `id`. Every range before that
    /// index lies entirely below `id`, with a gap of at least one value in
    /// between.
    fn find_position(&self, id: usize) -> (i: usize)
        requires
            self.wf(),
        ensures
            i <= self.intervals().len(),
            forall|j: int| 0 <= j < i ==> (#[trigger] self.intervals()[j]).spec_end() < id as int,
            i < self.intervals().len() ==> self.intervals()[i as int].spec_end() >= id as int,
    {
        let mut lo: usize = 0;
        let mut hi: usize = self.free.len();
        while lo < hi
            invariant
                self.wf(),
                lo <= hi <= self.intervals().len(),
                forall|j: int| 0 <= j < lo ==> (#[trigger] self.intervals()[j]).spec_end() < id as int,
                forall|j: int|
                    hi <= j < self.intervals().len() ==> (#[trigger] self.intervals()[j]).spec_end()
                        >= id as int,
            decreases hi - lo,
        {
            let mid = lo + (hi - lo) / 2;
            if self.free[mid].end < id {
                // everything up to mid ends below id: the sorted order puts
                // every earlier range's end below this one's start
                proof {
                    assert forall|j: int| 0 <= j < mid + 1 implies (
                    #[trigger] self.intervals()[j]).spec_end() < id as int by {
                        if lo <= j < mid {
                            assert(self.intervals()[j].spec_end() < self.intervals()[
                            mid as int].spec_start());
                        }
                    }
                }
                lo = mid + 1;
            } else {
                // everything from mid on ends at or above id
                proof {
                    assert forall|j: int| mid <= j < self.intervals().len() implies (
                    #[trigger] self.intervals()[j]).spec_end() >= id as int by {
                        if j > mid {
                            assert(self.intervals()[mid as int].spec_end() < self.intervals()[
                            j].spec_start());
                        }
                    }
                }
                hi = mid;
            }
        }
        lo
    }

    /// Returns an id to the pool or `Err(usize)` if the
    /// id is already in the pool.
    ///
    /// On success the id joins the free set and the used count shrinks by
    /// one; on failure (the id was already free) the pool is left untouched.
    #[verifier::rlimit(100)]
    #[verifier::spinoff_prover]
    pub fn return_id(&mut self, id: usize) -> (r: Result<(), usize>)
        requires
            old(self).wf(),
            id < usize::MAX,
            old(self).free_ids().contains(id as int) || old(self).spec_used() > 0,
        ensures
            final(self).wf(),
            old(self).free_ids().contains(id as int) ==> r == Err::<(), usize>(id) && *final(self)
                == *old(self),
            !old(self).free_ids().contains(id as int) ==> {
                &&& r == Ok::<(), usize>(())
                &&& final(self).free_ids() == old(self).free_ids().insert(id as int)
                &&& final(self).spec_used() == old(self).spec_used() - 1
            },
    {
        let ghost pre = old(self).intervals();
        let i = self.find_position(id);
        let n = self.free.len();
        if i == n {
            // id lies above every stored range, with a gap: append a new
            // singleton range
            proof {
                assert(!old(self).is_free(id as int)) by {
                    if old(self).is_free(id as int) {
                        let w = choose|w: int|
                            0 <= w < pre.len() && (#[trigger] pre[w]).spec_start() <= (id as int) < pre[w].spec_end();
                        assert(pre[w].spec_end() < id as int);
                    }
                }
                assert(!old(self).free_ids().contains(id as int));
            }
            self.used = self.used - 1;
            self.free.push(Range { start: id, end: id + 1 });
            proof {
                let post = self.intervals();
                assert forall|x: int| self.is_free(x) <==> (old(self).is_free(x) || x == id as int) by {
                    if self.is_free(x) {
                        let k = choose|k: int|
                            0 <= k < post.len() && (#[trigger] post[k]).spec_start() <= x
                                < post[k].spec_end();
                        if k < pre.len() {
                            assert(pre[k].spec_start() <= x < pre[k].spec_end());
                        }
                    }
                    if old(self).is_free(x) {
                        let w = choose|w: int|
                            0 <= w < pre.len() && (#[trigger] pre[w]).spec_start() <= x
                                < pre[w].spec_end();
                        assert(post[w].spec_start() <= x < post[w].spec_end());
                    }
                    if x == id as int {
                        assert(post[post.len() - 1].spec_start() <= x < post[post.len()
                            - 1].spec_end());
                    }
                }
                assert(self.free_ids() =~= old(self).free_ids().insert(id as int));
            }
            return Ok(());
        }
        let s = self.free[i].start;
        let e = self.free[i].end;
        if id + 1 < s {
            // id lies below this range, with a gap on both sides: insert a
            // new singleton range here
            proof {
                assert(!old(self).is_free(id as int)) by {
                    if old(self).is_free(id as int) {
                        let w = choose|w: int|
                            0 <= w < pre.len() && (#[trigger] pre[w]).spec_start() <= (id as int) < pre[w].spec_end();
                        if w > i {
                            assert(pre[i as int].spec_end() < pre[w].spec_start());
                        }
                    }
                }
                assert(!old(self).free_ids().contains(id as int));
            }
            self.used = self.used - 1;
            self.free.insert(i, Range { start: id, end: id + 1 });
            proof {
                let post = self.intervals();
                assert forall|a: int, b: int|
                    0 <= a < b < post.len() implies (#[trigger] post[a]).spec_end() < (
                #[trigger] post[b]).spec_start() by {
                    if a < i && b > i {
                        assert(pre[a].spec_end() < pre[b - 1].spec_start());
                    } else if a == i && b > i {
                        assert(post[b].spec_start() == pre[b - 1].spec_start());
                        if b - 1 > i {
                            assert(pre[i as int].spec_end() < pre[b - 1].spec_start());
                        }
                    }
                }
                assert forall|x: int| self.is_free(x) <==> (old(self).is_free(x) || x == id as int) by {
                    if self.is_free(x) {
                        let k = choose|k: int|
                            0 <= k < post.len() && (#[trigger] post[k]).spec_start() <= x
                                < post[k].spec_end();
                        if k < i {
                            assert(pre[k].spec_start() <= x < pre[k].spec_end());
                        } else if k > i {
                            assert(pre[k - 1].spec_start() <= x < pre[k - 1].spec_end());
                        }
                    }
                    if old(self).is_free(x) {
                        let w = choose|w: int|
                            0 <= w < pre.len() && (#[trigger] pre[w]).spec_start() <= x
                                < pre[w].spec_end();
                        if w < i {
                            assert(post[w].spec_start() <= x < post[w].spec_end());
                        } else {
                            assert(post[w + 1].spec_start() <= x < post[w + 1].spec_end());
                        }
                    }
                    if x == id as int {
                        assert(post[i as int].spec_start() <= x < post[i as int].spec_end());
                    }
                }
                assert(self.free_ids() =~= old(self).free_ids().insert(id as int));
            }
            Ok(())
        } else if id + 1 == s {
            // id sits just below this range: extend the range downward. The
            // range before this one ends strictly below id, so no new
            // adjacency can appear on that side.
            proof {
                assert(!old(self).is_free(id as int)) by {
                    if old(self).is_free(id as int) {
                        let w = choose|w: int|
                            0 <= w < pre.len() && (#[trigger] pre[w]).spec_start() <= (id as int) < pre[w].spec_end();
                        if w > i {
                            assert(pre[i as int].spec_end() < pre[w].spec_start());
                        }
                    }
                }
                assert(!old(self).free_ids().contains(id as int));
            }
            self.used = self.used - 1;
            self.free.set(i, Range { start: id, end: e });
            proof {
                let post = self.intervals();
                assert forall|x: int| self.is_free(x) <==> (old(self).is_free(x) || x == id as int) by {
                    if self.is_free(x) {
                        let k = choose|k: int|
                            0 <= k < post.len() && (#[trigger] post[k]).spec_start() <= x
                                < post[k].spec_end();
                        if k != i && 0 <= k < pre.len() {
                            assert(pre[k].spec_start() <= x < pre[k].spec_end());
                        }
                        if k == i && x != id as int {
                            assert(pre[i as int].spec_start() <= x < pre[i as int].spec_end());
                        }
                    }
                    if old(self).is_free(x) {
                        let w = choose|w: int|
                            0 <= w < pre.len() && (#[trigger] pre[w]).spec_start() <= x
                                < pre[w].spec_end();
                        assert(post[w].spec_start() <= x < post[w].spec_end());
                    }
                    if x == id as int {
                        assert(post[i as int].spec_start() <= x < post[i as int].spec_end());
                    }
                }
                assert(self.free_ids() =~= old(self).free_ids().insert(id as int));
            }
            Ok(())
        } else if id < e {
            // id is contained in this free range already: it cannot be
            // returned, and the pool is left untouched
            proof {
                assert(pre[i as int].spec_start() <= (id as int) < pre[i as int].spec_end());
                assert(old(self).free_ids().contains(id as int));
            }
            Err(id)
        } else {
            // find_position gave a range whose end is not below id, and the
            // cases above rule everything else out: id == e, so the returned
            // id extends this range upward by one
            proof {
                assert(!old(self).is_free(id as int)) by {
                    if old(self).is_free(id as int) {
                        let w = choose|w: int|
                            0 <= w < pre.len() && (#[trigger] pre[w]).spec_start() <= (id as int) < pre[w].spec_end();
                        if w > i {
                            assert(pre[i as int].spec_end() < pre[w].spec_start());
                        }
                    }
                }
                assert(!old(self).free_ids().contains(id as int));
            }
            self.used = self.used - 1;
            let merge_next = i + 1 < n && self.free[i + 1].start == id + 1;
            if merge_next {
                // the extended range meets the next one exactly: coalesce
                // the two into a single range
                let next_end = self.free[i + 1].end;
                self.free.set(i, Range { start: s, end: next_end });
                self.free.remove(i + 1);
                proof {
                    let post = self.intervals();
                    assert forall|a: int, b: int|
                        0 <= a < b < post.len() implies (#[trigger] post[a]).spec_end() < (
                    #[trigger] post[b]).spec_start() by {
                        if a == i {
                            assert(pre[i + 1].spec_end() < pre[b + 1].spec_start());
                        } else if a > i {
                            assert(pre[a + 1].spec_end() < pre[b + 1].spec_start());
                        } else if b > i {
                            assert(pre[a].spec_end() < pre[b + 1].spec_start());
                        }
                    }
                    assert forall|x: int|
                        self.is_free(x) <==> (old(self).is_free(x) || x == id as int) by {
                        if self.is_free(x) {
                            let k = choose|k: int|
                                0 <= k < post.len() && (#[trigger] post[k]).spec_start() <= x
                                    < post[k].spec_end();
                            if k < i {
                                assert(pre[k].spec_start() <= x < pre[k].spec_end());
                            } else if k == i && x != id as int {
                                if x < id as int {
                                    assert(pre[i as int].spec_start() <= x < pre[
                                    i as int].spec_end());
                                } else {
                                    assert(pre[i + 1].spec_start() <= x < pre[i + 1].spec_end());
                                }
                            } else if k > i {
                                assert(pre[k + 1].spec_start() <= x < pre[k + 1].spec_end());
                            }
                        }
                        if old(self).is_free(x) {
                            let w = choose|w: int|
                                0 <= w < pre.len() && (#[trigger] pre[w]).spec_start() <= x
                                    < pre[w].spec_end();
                            if w <= i {
                                assert(post[if w == i { i as int } else { w }].spec_start() <= x
                                    < post[if w == i { i as int } else { w }].spec_end());
                            } else if w == i + 1 {
                                assert(post[i as int].spec_start() <= x < post[
                                i as int].spec_end());
                            } else {
                                assert(post[w - 1].spec_start() <= x < post[w - 1].spec_end());
                            }
                        }
                        if x == id as int {
                            assert(post[i as int].spec_start() <= x < post[i as int].spec_end());
                        }
                    }
                    assert(self.free_ids() =~= old(self).free_ids().insert(id as int));
                }
            } else {
                self.free.set(i, Range { start: s, end: id + 1 });
                proof {
                    let post = self.intervals();
                    assert forall|a: int, b: int|
                        0 <= a < b < post.len() implies (#[trigger] post[a]).spec_end() < (
                    #[trigger] post[b]).spec_start() by {
                        if a == i {
                            // the next range starts above id, and not at
                            // id + 1, so it starts above id + 1
                            assert(pre[i as int].spec_end() < pre[b].spec_start());
                            if b > i + 1 {
                                assert(pre[i + 1].spec_end() < pre[b].spec_start());
                            }
                        }
                    }
                    assert forall|x: int|
                        self.is_free(x) <==> (old(self).is_free(x) || x == id as int) by {
                        if self.is_free(x) {
                            let k = choose|k: int|
                                0 <= k < post.len() && (#[trigger] post[k]).spec_start() <= x
                                    < post[k].spec_end();
                            if k != i {
                                assert(pre[k].spec_start() <= x < pre[k].spec_end());
                            } else if x != id as int {
                                assert(pre[i as int].spec_start() <= x < pre[i as int].spec_end());
                            }
                        }
                        if old(self).is_free(x) {
                            let w = choose|w: int|
                                0 <= w < pre.len() && (#[trigger] pre[w]).spec_start() <= x
                                    < pre[w].spec_end();
                            assert(post[w].spec_start() <= x < post[w].spec_end());
                        }
                        if x == id as int {
                            assert(post[i as int].spec_start() <= x < post[i as int].spec_end());
                        }
                    }
                    assert(self.free_ids() =~= old(self).free_ids().insert(id as int));
                }
            }
            Ok(())
        }
    }
}

/// Whether a list of `(start, end)` pairs describes a well-formed free list:
/// every pair is a non-empty half-open range, and consecutive pairs are in
/// ascending order with a gap of at least one value between them.
pub open spec fn valid_free_list(list: Seq<(usize, usize)>) -> bool {
    &&& forall|i: int| 0 <= i < list.len() ==> (#[trigger] list[i]).0 < list[i].1
    &&& forall|i: int| 0 <= i && i + 1 < list.len() ==> (#[trigger] list[i]).1 < list[i + 1].0
}

/// In a well-formed free list, the gaps between consecutive ranges carry
/// over to any two ranges: an earlier range ends strictly below where a
/// later one starts.
proof fn lemma_free_list_ordered(list: Seq<(usize, usize)>, a: int, b: int)
    requires
        valid_free_list(list),
        0 <= a < b < list.len(),
    ensures
        list[a].1 < list[b].0,
    decreases b - a,
{
    if a + 1 < b {
        lemma_free_list_ordered(list, a + 1, b);
    }
}

impl IdPool {
    /// The pool's state as plain data, for an external serialization layer:
    /// the free ranges as `(start, end)` pairs in storage order, and the
    /// used count.
    pub fn export_state(&self) -> (state: (Vec<(usize, usize)>, usize))
        ensures
            state.0@.len() == self.intervals().len(),
            forall|i: int|
                0 <= i < state.0@.len() ==> (#[trigger] state.0@[i]).0
                    == self.intervals()[i].spec_start() && state.0@[i].1
                    == self.intervals()[i].spec_end(),
            state.1 == self.spec_used(),
    {
        let mut list: Vec<(usize, usize)> = Vec::new();
        let n = self.free.len();
        let mut i: usize = 0;
        while i < n
            invariant
                n == self.intervals().len(),
                i <= n,
                list@.len() == i,
                forall|j: int|
                    0 <= j < i ==> (#[trigger] list@[j]).0 == self.intervals()[j].spec_start()
                        && list@[j].1 == self.intervals()[j].spec_end(),
            decreases n - i,
        {
            let r = self.free[i];
            list.push((r.start, r.end));
            i = i + 1;
        }
        (list, self.used)
    }

    /// Rebuilds a pool from previously exported state. Succeeds exactly when
    /// the list is a well-formed free list; the rebuilt pool then stores
    /// those ranges and that used count. A malformed list (an empty range,
    /// or ranges out of order, overlapping or adjacent) yields `None`.
    #[verifier::rlimit(50)]
    #[verifier::spinoff_prover]
    pub fn import_state(list: Vec<(usize, usize)>, used: usize) -> (pool: Option<IdPool>)
        ensures
            pool is Some <==> valid_free_list(list@),
            pool is Some ==> {
                let p = pool->Some_0;
                &&& p.wf()
                &&& p.spec_used() == used
                &&& p.intervals().len() == list@.len()
                &&& forall|i: int|
                    0 <= i < list@.len() ==> (#[trigger] p.intervals()[i]).spec_start()
                        == list@[i].0 && p.intervals()[i].spec_end() == list@[i].1
            },
    {
        let n = list.len();
        let mut free: Vec<Range> = Vec::new();
        let mut i: usize = 0;
        while i < n
            invariant
                n == list@.len(),
                i <= n,
                free@.len() == i,
                forall|j: int|
                    0 <= j < i ==> (#[trigger] free@[j]).spec_start() == list@[j].0
                        && free@[j].spec_end() == list@[j].1,
                forall|j: int| 0 <= j < i ==> (#[trigger] list@[j]).0 < list@[j].1,
                forall|j: int| 0 <= j && j + 1 < i ==> (#[trigger] list@[j]).1 < list@[j + 1].0,
            decreases n - i,
        {
            let pair = list[i];
            if pair.0 >= pair.1 {
                return None;
            }
            if i > 0 && list[i - 1].1 >= pair.0 {
                return None;
            }
            free.push(Range { start: pair.0, end: pair.1 });
            i = i + 1;
        }
        let pool = IdPool { free, used };
        proof {
            assert forall|a: int, b: int|
                0 <= a < b < pool.intervals().len() implies (#[trigger] pool.intervals()[a]).spec_end()
                < (#[trigger] pool.intervals()[b]).spec_start() by {
                lemma_free_list_ordered(list@, a, b);
            }
        }
        Some(pool)
    }
}

/// Smallest-first allocation: while the free identifiers form the single
/// interval `[next, hi)`, the smallest free identifier is `next`, and taking
/// it leaves exactly `[next + 1, hi)` free. Since a fresh pool over
/// `[lo, hi)` starts with `free_ids() == range_set(lo, hi)` and `request_id`
/// hands out the smallest free identifier and removes it, applying this step
/// `k` times shows that the first `k` requests yield `lo`, `lo + 1`, ...,
/// `lo + k - 1`, in that order.
pub proof fn lemma_smallest_first_step(next: int, hi: int)
    requires
        next < hi,
    ensures
        range_set(next, hi).contains(next),
        forall|x: int| range_set(next, hi).contains(x) ==> next <= x,
        range_set(next, hi).remove(next) == range_set(next + 1, hi),
{
    assert(range_set(next, hi).remove(next) =~= range_set(next + 1, hi));
}

/// Round trip: allocating a free identifier and then returning that same
/// identifier restores both the free set and the used count to their values
/// before the allocation. The two hypotheses are exactly what the contracts
/// of `request_id` (which yielded `id`) and of a successful
/// `return_id(id)` state about the free set and the used count.
pub proof fn lemma_allocate_return_round_trip(p0: IdPool, p1: IdPool, p2: IdPool, id: int)
    requires
        p0.free_ids().contains(id),
        p1.free_ids() == p0.free_ids().remove(id),
        p1.spec_used() == p0.spec_used() + 1,
        p2.free_ids() == p1.free_ids().insert(id),
        p2.spec_used() == p1.spec_used() - 1,
    ensures
        p2.free_ids() == p0.free_ids(),
        p2.spec_used() == p0.spec_used(),
{
    assert(p2.free_ids() =~= p0.free_ids());
}

/// One observable step of a pool's life, as the contracts of `request_id`
/// and `return_id` describe it.
pub enum PoolEvent {
    /// A `request_id` call that yielded this id.
    Granted(int),
    /// A `request_id` call that found the pool exhausted.
    Exhausted,
    /// A `return_id` call of this id that succeeded.
    Returned(int),
    /// A `return_id` call of this id that was rejected.
    Rejected(int),
}

/// How one event takes the pool from state `p` to state `q`: exactly the
/// effect on the free set and the used count that the contracts of
/// `request_id` and `return_id` state for that outcome.
pub open spec fn pool_step(p: IdPool, e: PoolEvent, q: IdPool) -> bool {
    match e {
        PoolEvent::Granted(id) => {
            &&& p.free_ids().contains(id)
            &&& q.free_ids() == p.free_ids().remove(id)
            &&& q.spec_used() == p.spec_used() + 1
        },
        PoolEvent::Exhausted => p.free_ids() == Set::<int>::empty() && q == p,
        PoolEvent::Returned(id) => {
            &&& !p.free_ids().contains(id)
            &&& q.free_ids() == p.free_ids().insert(id)
            &&& q.spec_used() == p.spec_used() - 1
        },
        PoolEvent::Rejected(id) => p.free_ids().contains(id) && q == p,
    }
}

/// How many events of a history granted an id.
pub open spec fn count_granted(events: Seq<PoolEvent>) -> int
    decreases events.len(),
{
    if events.len() == 0 {
        0
    } else {
        count_granted(events.drop_last()) + if events.last() is Granted {
            1int
        } else {
            0int
        }
    }
}

/// How many events of a history returned an id successfully.
pub open spec fn count_returned(events: Seq<PoolEvent>) -> int
    decreases events.len(),
{
    if events.len() == 0 {
        0
    } else {
        count_returned(events.drop_last()) + if events.last() is Returned {
            1int
        } else {
            0int
        }
    }
}

/// The used count is a running tally: over any sequence of operations —
/// `states` the pool's successive values, `events` what each call did —
/// `used` ends at its starting value plus the number of ids granted minus
/// the number successfully returned. A freshly constructed pool starts with
/// `used == 0`, so its count always equals allocations minus successful
/// returns.
pub proof fn lemma_used_is_running_count(states: Seq<IdPool>, events: Seq<PoolEvent>)
    requires
        states.len() == events.len() + 1,
        forall|k: int|
            0 <= k < events.len() ==> pool_step(states[k], #[trigger] events[k], states[k + 1]),
    ensures
        states.last().spec_used() == states[0].spec_used() + count_granted(events) - count_returned(
            events,
        ),
    decreases events.len(),
{
    if events.len() > 0 {
        let n = events.len() as int;
        assert forall|k: int|
            0 <= k < events.drop_last().len() implies pool_step(
            states.drop_last()[k],
            #[trigger] events.drop_last()[k],
            states.drop_last()[k + 1],
        ) by {
            assert(pool_step(states[k], events[k], states[k + 1]));
        }
        lemma_used_is_running_count(states.drop_last(), events.drop_last());
        assert(pool_step(states[n - 1], events[n - 1], states[n]));
    }
}

/// Two well-formed range lists that cover the same values are the same list.
proof fn lemma_ranges_canonical(a: Seq<Range>, b: Seq<Range>)
    requires
        ranges_wf(a),
        ranges_wf(b),
        forall|x: int| ranges_cover(a, x) <==> ranges_cover(b, x),
    ensures
        a =~= b,
    decreases a.len(),
{
    if a.len() == 0 && b.len() == 0 {
        assert(a =~= b);
    } else if a.len() == 0 {
        assert(ranges_cover(b, b[0].spec_start()));
        assert(false);
    } else if b.len() == 0 {
        assert(ranges_cover(a, a[0].spec_start()));
        assert(false);
    } else {
        let sa = a[0].spec_start();
        let ea = a[0].spec_end();
        let sb = b[0].spec_start();
        let eb = b[0].spec_end();
        // each list's first start is the smallest covered value, so the two
        // first starts agree
        assert(ranges_cover(a, sa));
        assert(ranges_cover(b, sb));
        assert(sb <= sa) by {
            let j = choose|j: int|
                0 <= j < b.len() && (#[trigger] b[j]).spec_start() <= sa < b[j].spec_end();
            if j > 0 {
                assert(b[0].spec_end() < b[j].spec_start());
            }
        }
        assert(sa <= sb) by {
            let j = choose|j: int|
                0 <= j < a.len() && (#[trigger] a[j]).spec_start() <= sb < a[j].spec_end();
            if j > 0 {
                assert(a[0].spec_end() < a[j].spec_start());
            }
        }
        // were one first range shorter, its end would be covered by the
        // other list but — by non-adjacency — not by its own
        assert(ea == eb) by {
            if ea < eb {
                assert(ranges_cover(b, ea));
                assert(ranges_cover(a, ea));
                let i = choose|i: int|
                    0 <= i < a.len() && (#[trigger] a[i]).spec_start() <= ea < a[i].spec_end();
                assert(i > 0);
                assert(a[0].spec_end() < a[i].spec_start());
                assert(false);
            }
            if eb < ea {
                assert(ranges_cover(a, eb));
                assert(ranges_cover(b, eb));
                let j = choose|j: int|
                    0 <= j < b.len() && (#[trigger] b[j]).spec_start() <= eb < b[j].spec_end();
                assert(j > 0);
                assert(b[0].spec_end() < b[j].spec_start());
                assert(false);
            }
        }
        // the first ranges agree; the rest cover the same values, so they
        // agree too, by induction
        let ta = a.drop_first();
        let tb = b.drop_first();
        assert forall|x: int| ranges_cover(ta, x) <==> ranges_cover(tb, x) by {
            if ranges_cover(ta, x) {
                let i = choose|i: int|
                    0 <= i < ta.len() && (#[trigger] ta[i]).spec_start() <= x < ta[i].spec_end();
                assert(a[i + 1].spec_start() <= x < a[i + 1].spec_end());
                assert(a[0].spec_end() < a[i + 1].spec_start());
                assert(ranges_cover(b, x));
                let j = choose|j: int|
                    0 <= j < b.len() && (#[trigger] b[j]).spec_start() <= x < b[j].spec_end();
                assert(j > 0);
                assert(tb[j - 1].spec_start() <= x < tb[j - 1].spec_end());
            }
            if ranges_cover(tb, x) {
                let j = choose|j: int|
                    0 <= j < tb.len() && (#[trigger] tb[j]).spec_start() <= x < tb[j].spec_end();
                assert(b[j + 1].spec_start() <= x < b[j + 1].spec_end());
                assert(b[0].spec_end() < b[j + 1].spec_start());
                assert(ranges_cover(a, x));
                let i = choose|i: int|
                    0 <= i < a.len() && (#[trigger] a[i]).spec_start() <= x < a[i].spec_end();
                assert(i > 0);
                assert(ta[i - 1].spec_start() <= x < ta[i - 1].spec_end());
            }
        }
        lemma_ranges_canonical(ta, tb);
        assert forall|k: int| 0 <= k < a.len() implies a[k] == b[k] by {
            if k > 0 {
                assert(ta[k - 1] == tb[k - 1]);
            }
        }
    }
}

/// Canonical representation: the sorted, non-adjacent range list is the one
/// well-formed picture of a free set, so two well-formed pools with the same
/// free identifiers store exactly the same ranges. In particular, after a
/// round trip — allocate an identifier, then return it — not only the free
/// set but the stored range list itself is back to what it was.
pub proof fn lemma_canonical_representation(p: IdPool, q: IdPool)
    requires
        p.wf(),
        q.wf(),
        p.free_ids() == q.free_ids(),
    ensures
        p.intervals() == q.intervals(),
{
    assert forall|x: int| ranges_cover(p.intervals(), x) <==> ranges_cover(q.intervals(), x) by {
        assert(p.free_ids().contains(x) <==> p.is_free(x));
        assert(q.free_ids().contains(x) <==> q.is_free(x));
        assert(p.free_ids().contains(x) == q.free_ids().contains(x));
    }
    lemma_ranges_canonical(p.intervals(), q.intervals());
}

/// Idempotent rejection: after a successful `return_id(id)` — whose contract
/// says the free set grew by `id` — the identifier is free, so a second
/// `return_id(id)`, by its contract, fails with `Err(id)` and leaves the
/// pool unchanged.
pub proof fn lemma_double_return_rejected(p1: IdPool, p2: IdPool, id: int)
    requires
        p2.free_ids() == p1.free_ids().insert(id),
    ensures
        p2.free_ids().contains(id),
{
    assert(p1.free_ids().insert(id).contains(id));
}


} // verus!
