//! A record of which byte positions of a file have been written, kept as
//! the ranges in which they arrived. Completion of an upload demands that
//! the recorded ranges cover every position below the declared total, not
//! merely that the high-water mark reached it.
use vstd::prelude::*;

verus! {

/// Whether position `x` lies in one of the recorded half-open ranges.
pub open spec fn spec_covered_by(ranges: Seq<(u64, u64)>, x: int) -> bool {
    exists|i: int| 0 <= i < ranges.len() && (#[trigger] ranges[i]).0 <= x < ranges[i].1
}

pub struct RangeSet {
    ranges: Vec<(u64, u64)>,
}

impl RangeSet {
    /// The positions this set covers.
    pub closed spec fn covered(&self, x: int) -> bool {
        spec_covered_by(self.ranges@, x)
    }

    /// Coverage of every position in `[0, total)`.
    pub open spec fn covers_upto(&self, total: int) -> bool {
        forall|x: int| 0 <= x < total ==> self.covered(x)
    }

    pub fn new() -> (r: RangeSet)
        ensures
            forall|x: int| !r.covered(x),
    {
        RangeSet { ranges: Vec::new() }
    }

    /// Records that the positions in `[start, end)` have been written.
    pub fn record(&mut self, start: u64, end: u64)
        ensures
            forall|x: int|
                final(self).covered(x) == (old(self).covered(x) || (start <= x < end)),
    {
        self.ranges.push((start, end));
        proof {
            let rs = self.ranges@;
            let prev = old(self).ranges@;
            assert forall|x: int|
                spec_covered_by(rs, x) == (spec_covered_by(prev, x) || (start <= x
                    < end)) by {
                if spec_covered_by(prev, x) {
                    let i = choose|i: int| 0 <= i < prev.len() && (#[trigger] prev[i]).0 <= x < prev[i].1;
                    assert(rs[i].0 <= x < rs[i].1);
                }
                if start <= x < end {
                    assert(rs[rs.len() - 1].0 <= x < rs[rs.len() - 1].1);
                }
                if spec_covered_by(rs, x) {
                    let i = choose|i: int| 0 <= i < rs.len() && (#[trigger] rs[i]).0 <= x < rs[i].1;
                    if i < prev.len() {
                        assert(prev[i].0 <= x < prev[i].1);
                    }
                }
            }
        }
    }

    /// Decides whether the recorded ranges cover all of `[0, total)`.
    ///
    /// Works by greedy reachability: starting from zero, repeatedly extend
    /// the covered prefix by any range that begins at or before its end.
    /// When no range extends the prefix, its end is uncovered.
    pub fn is_complete(&self, total: u64) -> (r: bool)
        ensures
            r == self.covers_upto(total as int),
    {
        if total == 0 {
            return true;
        }
        let n = self.ranges.len();
        let mut cur: u64 = 0;
        loop
            invariant
                cur < total,
                n == self.ranges@.len(),
                forall|x: int| 0 <= x < cur ==> self.covered(x),
            decreases total - cur,
        {
            let mut best: u64 = cur;
            let mut i: usize = 0;
            while i < n
                invariant
                    n == self.ranges@.len(),
                    0 <= i <= n,
                    cur <= best,
                    forall|x: int| cur <= x < best ==> self.covered(x),
                    forall|j: int|
                        0 <= j < i ==> !(self.ranges@[j].0 <= cur && best < self.ranges@[j].1),
                decreases n - i,
            {
                let (s, e) = self.ranges[i];
                if s <= cur && e > best {
                    proof {
                        assert forall|x: int| cur <= x < e implies self.covered(x) by {
                            assert(self.ranges@[i as int].0 <= x < self.ranges@[i as int].1);
                        }
                    }
                    best = e;
                }
                i = i + 1;
            }
            if best == cur {
                proof {
                    assert(!self.covered(cur as int)) by {
                        if self.covered(cur as int) {
                            let j = choose|j: int|
                                0 <= j < self.ranges@.len() && (#[trigger] self.ranges@[j]).0
                                    <= cur < self.ranges@[j].1;
                            assert(!(self.ranges@[j].0 <= cur && best < self.ranges@[j].1));
                        }
                    }
                }
                return false;
            }
            if best >= total {
                return true;
            }
            cur = best;
        }
    }
}

} // verus!
