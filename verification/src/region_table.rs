//! A sorted table of physical memory regions.
//!
//! A `FrameTable` keeps non-overlapping, non-empty regions ordered by their
//! start address, in a table bounded by what fits one page of entries. Each
//! region carries caller-defined metadata.

use vstd::prelude::*;

verus! {

/// How many regions one table holds: a page of 32-byte entries, less one
/// entry's worth of space for the table's own length and link.
pub const MAX_TABLE_SIZE: usize = 127;

/// Caller-defined per-region metadata.
pub trait Metadata: Sized + Copy {
    /// Whether memory of this metadata may be allocated from.
    fn is_usable(&self) -> bool;
}

impl Metadata for usize {
    /// Plain numbers mark nothing allocatable.
    fn is_usable(&self) -> bool {
        false
    }
}

/// One table entry: the half-open range `[start, end)` and its metadata.
#[derive(Debug, Clone, Copy)]
pub struct Region<M: Metadata> {
    pub metadata: M,
    pub start: usize,
    pub end: usize,
}

impl<M: Metadata> Region<M> {
    /// The range the region covers, as its two ends.
    pub fn extents(&self) -> (r: (usize, usize))
        ensures
            r.0 == self.start,
            r.1 == self.end,
    {
        (self.start, self.end)
    }

    /// How many bytes the region covers.
    pub fn size(&self) -> (r: usize)
        requires
            self.start <= self.end,
        ensures
            r == self.end - self.start,
    {
        self.end - self.start
    }

    /// The region's metadata.
    pub fn metadata(&self) -> (r: M)
        ensures
            r == self.metadata,
    {
        self.metadata
    }
}

/// The sorted region table.
#[derive(Debug)]
pub struct FrameTable<M: Metadata> {
    table: Vec<Region<M>>,
}

impl<M: Metadata> Default for FrameTable<M> {
    /// An empty table.
    fn default() -> (r: FrameTable<M>)
        ensures
            r.wf(),
            r.spec_len() == 0,
    {
        FrameTable { table: Vec::new() }
    }
}

impl<M: Metadata> FrameTable<M> {
    /// The regions, in table order.
    pub closed spec fn spec_regions(&self) -> Seq<Region<M>> {
        self.table@
    }

    /// How many regions the table holds.
    pub open spec fn spec_len(&self) -> int {
        self.spec_regions().len() as int
    }

    /// Whether address `a` lies in some region.
    pub open spec fn covered(&self, a: int) -> bool {
        exists|i: int|
            0 <= i < self.spec_len() && (#[trigger] self.spec_regions()[i]).start <= a
                < self.spec_regions()[i].end
    }

    /// Well-formedness: every region is non-empty, the table is sorted by
    /// start, regions do not overlap, and the table fits its page.
    pub open spec fn wf(&self) -> bool {
        &&& self.spec_len() <= MAX_TABLE_SIZE
        &&& forall|i: int|
            0 <= i < self.spec_len() ==> (#[trigger] self.spec_regions()[i]).start
                < self.spec_regions()[i].end
        &&& forall|i: int, j: int|
            0 <= i < j < self.spec_len() ==> (#[trigger] self.spec_regions()[i]).end <= (
            #[trigger] self.spec_regions()[j]).start
    }

    /// How many regions the table holds.
    pub fn len(&self) -> (r: usize)
        ensures
            r == self.spec_len(),
    {
        self.table.len()
    }

    /// Whether no further region fits.
    pub fn is_full(&self) -> (r: bool)
        ensures
            r == (self.spec_len() == MAX_TABLE_SIZE),
    {
        self.table.len() == MAX_TABLE_SIZE
    }

    /// Whether the table holds no region.
    pub fn is_empty(&self) -> (r: bool)
        ensures
            r == (self.spec_len() == 0),
    {
        self.table.len() == 0
    }

    /// Insert a region: it must be non-empty, must not overlap any region in
    /// the table, and the table must have room. Afterwards exactly the old
    /// coverage plus the region's range is covered, and the table is still
    /// sorted.
    pub fn insert(&mut self, region: Region<M>)
        requires
            old(self).wf(),
            old(self).spec_len() < MAX_TABLE_SIZE,
            region.start < region.end,
            forall|a: int| region.start <= a < region.end ==> !old(self).covered(a),
        ensures
            final(self).wf(),
            final(self).spec_len() == old(self).spec_len() + 1,
            forall|a: int|
                final(self).covered(a) == (old(self).covered(a) || region.start <= a
                    < region.end),
    {
        let ghost pre = *self;
        let mut idx: usize = 0;
        while idx < self.table.len() && self.table[idx].start < region.start
            invariant
                *self == pre,
                pre.wf(),
                region.start < region.end,
                forall|a: int| region.start <= a < region.end ==> !pre.covered(a),
                idx <= pre.spec_len(),
                forall|i: int|
                    0 <= i < idx ==> (#[trigger] pre.spec_regions()[i]).start < region.start,
            decreases pre.spec_len() - idx,
        {
            idx += 1;
        }
        proof {
            // regions before the slot end at or before the new region starts
            assert forall|i: int|
                0 <= i < idx implies (#[trigger] pre.spec_regions()[i]).end <= region.start by {
                if pre.spec_regions()[i].end > region.start {
                    assert(pre.spec_regions()[i].start <= region.start
                        < pre.spec_regions()[i].end);
                    assert(pre.covered(region.start as int));
                }
            }
            // regions at or after the slot start at or after the new region ends
            assert forall|i: int|
                idx <= i < pre.spec_len() implies region.end <= (
            #[trigger] pre.spec_regions()[i]).start by {
                assert(pre.spec_regions()[idx as int].start >= region.start) by {
                    if idx < pre.spec_len() {
                    }
                }
                if idx < pre.spec_len() {
                    if i > idx {
                        assert(pre.spec_regions()[idx as int].end <= pre.spec_regions()[i].start);
                    }
                    if pre.spec_regions()[i].start < region.end {
                        assert(region.start <= pre.spec_regions()[i].start);
                        assert(pre.covered(pre.spec_regions()[i].start as int));
                    }
                }
            }
        }
        self.table.insert(idx, region);
        proof {
            assert(self.table@ == pre.spec_regions().insert(idx as int, region));
            assert forall|a: int| final(self).covered(a) == (pre.covered(a) || region.start <= a
                < region.end) by {
                if self.covered(a) {
                    let i = choose|i: int|
                        0 <= i < self.spec_len() && (#[trigger] self.spec_regions()[i]).start <= a
                            < self.spec_regions()[i].end;
                    if i == idx as int {
                    } else if i < idx as int {
                        assert(pre.spec_regions()[i] == self.spec_regions()[i]);
                        assert(pre.covered(a));
                    } else {
                        assert(pre.spec_regions()[i - 1] == self.spec_regions()[i]);
                        assert(pre.covered(a));
                    }
                }
                if pre.covered(a) {
                    let i = choose|i: int|
                        0 <= i < pre.spec_len() && (#[trigger] pre.spec_regions()[i]).start <= a
                            < pre.spec_regions()[i].end;
                    if i < idx as int {
                        assert(self.spec_regions()[i] == pre.spec_regions()[i]);
                        assert(self.covered(a));
                    } else {
                        assert(self.spec_regions()[i + 1] == pre.spec_regions()[i]);
                        assert(self.covered(a));
                    }
                }
                if region.start <= a < region.end {
                    assert(self.spec_regions()[idx as int] == region);
                    assert(self.covered(a));
                }
            }
            assert forall|i: int, j: int|
                0 <= i < j < self.spec_len() implies (#[trigger] self.spec_regions()[i]).end <= (
            #[trigger] self.spec_regions()[j]).start by {
                let pi: int = if i < idx as int {
                    i
                } else {
                    i - 1
                };
                let pj: int = if j < idx as int {
                    j
                } else {
                    j - 1
                };
                if i != idx as int && j != idx as int {
                    assert(self.spec_regions()[i] == pre.spec_regions()[pi]);
                    assert(self.spec_regions()[j] == pre.spec_regions()[pj]);
                }
                if i == idx as int {
                    assert(self.spec_regions()[j] == pre.spec_regions()[pj]);
                }
                if j == idx as int {
                    assert(self.spec_regions()[i] == pre.spec_regions()[pi]);
                }
            }
        }
    }
}

} // verus!
