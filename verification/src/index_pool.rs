//! A recycling allocator for the small unsigned identifiers shared by
//! every node kind of the dock tree.

use vstd::prelude::*;

verus! {

/// Hands out identifiers: the smallest recycled one first while any
/// exist, then fresh ones from a monotonic counter.
pub struct IndexPool {
    pub recycled: Vec<u32>,
    pub next_index: u32,
}

/// The position of the smallest recycled identifier: the entry there is
/// no larger than any other, and the entries ahead of it are strictly
/// larger (so the position is the first that holds the minimum).
pub open spec fn min_recycled_at(s: Seq<u32>, m: int) -> bool {
    &&& 0 <= m < s.len()
    &&& forall|j: int| 0 <= j < s.len() ==> s[m] <= s[j]
    &&& forall|j: int| 0 <= j < m ==> s[j] > s[m]
}

impl IndexPool {
    pub fn new() -> (r: IndexPool)
        ensures
            r.recycled@ == Seq::<u32>::empty(),
            r.next_index == 0,
    {
        IndexPool { recycled: Vec::new(), next_index: 0 }
    }

    /// Returns the smallest previously recycled identifier if any exist,
    /// else the next never-issued integer.
    pub fn get_index(&mut self) -> (r: u32)
        requires
            old(self).recycled@.len() > 0 || old(self).next_index < u32::MAX,
        ensures
            old(self).recycled@.len() > 0 ==> exists|m: int|
                {
                    &&& #[trigger] min_recycled_at(old(self).recycled@, m)
                    &&& r == old(self).recycled@[m]
                    &&& final(self).recycled@ == old(self).recycled@.remove(m)
                    &&& final(self).next_index == old(self).next_index
                },
            old(self).recycled@.len() == 0 ==> {
                &&& r == old(self).next_index
                &&& final(self).recycled@ == old(self).recycled@
                &&& final(self).next_index == old(self).next_index + 1
            },
    {
        if self.recycled.len() > 0 {
            let ghost s0 = self.recycled@;
            let mut best: usize = 0;
            let mut k: usize = 1;
            while k < self.recycled.len()
                invariant
                    0 <= best < k <= self.recycled@.len(),
                    *self == *old(self),
                    forall|j: int| 0 <= j < k ==> self.recycled@[best as int] <= self.recycled@[j],
                    forall|j: int|
                        0 <= j < best ==> self.recycled@[j] > self.recycled@[best as int],
                decreases self.recycled@.len() - k,
            {
                if self.recycled[k] < self.recycled[best] {
                    best = k;
                }
                k = k + 1;
            }
            let index = self.recycled.remove(best);
            proof {
                assert(min_recycled_at(s0, best as int));
            }
            index
        } else {
            self.next_index = self.next_index + 1;
            self.next_index - 1
        }
    }

    /// Returns an identifier to the free pool, but only if it lies below
    /// the high-water mark; a foreign identifier is silently ignored.
    pub fn recycle_index(&mut self, index: u32)
        ensures
            index < old(self).next_index ==> final(self).recycled@ == old(self).recycled@.push(
                index,
            ),
            index >= old(self).next_index ==> final(self).recycled@ == old(self).recycled@,
            final(self).next_index == old(self).next_index,
    {
        if index < self.next_index {
            self.recycled.push(index);
        }
    }
}

} // verus!
