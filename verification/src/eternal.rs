//! The boot arena: a bump allocator over a fixed region that never frees.

use vstd::prelude::*;

verus! {

/// Size of the arena's backing storage, in bytes.
pub const ETERNAL_CAPACITY: usize = 0x16000;

/// The offset rounded up to the given alignment.
pub open spec fn spec_align_up_to(off: int, align: int) -> int
    recommends
        align >= 1,
{
    if off % align == 0 {
        off
    } else {
        off + align - off % align
    }
}

/// A bump allocator over a fixed backing region. It hands out aligned
/// offsets, never reuses them, and cannot deallocate.
pub struct EternalAllocator {
    offset: usize,
}

impl EternalAllocator {
    /// How many bytes have been handed out or skipped for alignment.
    pub closed spec fn spec_offset(&self) -> usize {
        self.offset
    }

    /// A fresh, empty arena.
    pub fn new() -> (r: EternalAllocator)
        ensures
            r.spec_offset() == 0,
    {
        EternalAllocator { offset: 0 }
    }

    /// Serve `size` bytes at an alignment of `1 << align_bits`, bumping the
    /// arena's offset; alignments beyond 32 bytes and requests past the end
    /// of the arena are refused.
    pub fn allocate(&mut self, size: usize, align_bits: u32) -> (r: Option<usize>)
        requires
            old(self).spec_offset() <= ETERNAL_CAPACITY,
        ensures
            final(self).spec_offset() <= ETERNAL_CAPACITY,
            match r {
                Some(at) => {
                    &&& align_bits <= 5
                    &&& at == spec_align_up_to(
                        old(self).spec_offset() as int,
                        (1usize << align_bits) as int,
                    )
                    &&& at % (1usize << align_bits) == 0
                    &&& old(self).spec_offset() <= at
                    &&& at + size <= ETERNAL_CAPACITY
                    &&& final(self).spec_offset() == at + size
                },
                None => {
                    &&& final(self).spec_offset() == old(self).spec_offset()
                    &&& (align_bits > 5 || spec_align_up_to(
                        old(self).spec_offset() as int,
                        (1usize << align_bits) as int,
                    ) + size > ETERNAL_CAPACITY)
                },
            },
    {
        if align_bits > 5 {
            return None;
        }
        let align: usize = 1usize << align_bits;
        proof {
            assert(1usize << align_bits >= 1 && 1usize << align_bits <= 32) by (bit_vector)
                requires
                    align_bits <= 5u32,
            ;
        }
        let rem = self.offset % align;
        let aligned = if rem == 0 {
            self.offset
        } else {
            self.offset + (align - rem)
        };
        proof {
            if rem != 0 {
                vstd::arithmetic::div_mod::lemma_fundamental_div_mod(
                    self.offset as int,
                    align as int,
                );
                let q = self.offset as int / align as int;
                assert(self.offset as int == align as int * q + rem);
                assert(aligned as int == (q + 1) * align) by (nonlinear_arith)
                    requires
                        self.offset as int == align as int * q + rem,
                        aligned == self.offset + align - rem,
                        0 < rem < align,
                ;
                vstd::arithmetic::div_mod::lemma_fundamental_div_mod_converse_mod(
                    aligned as int,
                    align as int,
                    q + 1,
                    0,
                );
            }
        }
        if aligned > ETERNAL_CAPACITY || size > ETERNAL_CAPACITY - aligned {
            return None;
        }
        self.offset = aligned + size;
        Some(aligned)
    }
}

} // verus!
